use vstd::prelude::*;
use rand::Rng;
use vstd::utf8::encode_utf8;
use crate::errors::{ParseError, ResolutionError};
use crate::message::{
    spec_header_bytes, spec_header_parse, spec_parse_question, spec_parse_questions,
    spec_parse_records, spec_question_bytes, spec_rcode, v4_chars, Header, IpAddr, IpAddrSpec,
    Message, Question, QuestionSpec, RecordSpec, Resource,
};
use crate::wire::{split_dots, wire_of};

verus! {

/// Bound on how many referrals one resolution may follow before it fails
/// with `ReferralLoop`.
pub const MAX_REFERRALS: u32 = 30;

// ---------------------------------------------------------------------------
// Resolver state
// ---------------------------------------------------------------------------

/// The state an iterative resolution carries between queries: the question,
/// the nameserver to ask next, the transaction id to increment, and how many
/// referrals were already followed.
#[derive(Debug)]
pub struct ResolverState {
    pub fqdn: String,
    pub qtype: u16,
    pub nameserver: String,
    pub next_id: u16,
    pub depth: u32,
}

/// The mathematical content of a `ResolverState`.
pub struct StateSpec {
    pub fqdn: Seq<char>,
    pub qtype: u16,
    pub nameserver: Seq<char>,
    pub next_id: u16,
    pub depth: u32,
}

impl View for ResolverState {
    type V = StateSpec;

    open spec fn view(&self) -> StateSpec {
        StateSpec {
            fqdn: self.fqdn@,
            qtype: self.qtype,
            nameserver: self.nameserver@,
            next_id: self.next_id,
            depth: self.depth,
        }
    }
}

/// What one inspected response leads to: another query, a final answer, or
/// a final error.
#[derive(Debug)]
pub enum Step {
    /// A referral was followed; the state now names the next server.
    Descend,
    /// The answer records of a final response.
    Done(Vec<Resource>),
    /// The resolution failed.
    Failed(ResolutionError),
}

/// The mathematical content of a `Step`.
pub enum StepSpec {
    Descend,
    Done(Seq<RecordSpec>),
    Failed(ResolutionError),
}

impl View for Step {
    type V = StepSpec;

    open spec fn view(&self) -> StepSpec {
        match self {
            Step::Descend => StepSpec::Descend,
            Step::Done(rs) => StepSpec::Done(rs@.map_values(|x: Resource| x@)),
            Step::Failed(e) => StepSpec::Failed(*e),
        }
    }
}

/// Relies on rand's `thread_rng` and `Rng::gen_range`: the result is drawn
/// from `0..n`; `gen_range` panics only on an empty range, which the
/// precondition rules out.
#[verifier::external_body]
fn random_below(n: usize) -> (r: usize)
    requires
        n >= 1,
    ensures
        r < n,
{
    rand::thread_rng().gen_range(0..n)
}

// ---------------------------------------------------------------------------
// Decoding a whole response
// ---------------------------------------------------------------------------

/// A whole response decoded: the header from the first 12 bytes, then as
/// many questions as `qd_count` says, then as many records as the other
/// three counts say, the records' compression resolved against the whole
/// buffer.
pub open spec fn spec_response(buf: Seq<u8>) -> Result<
    (Header, Seq<QuestionSpec>, Seq<RecordSpec>),
    ParseError,
> {
    if buf.len() < 12 {
        Err(ParseError::TruncatedInput)
    } else {
        let h = spec_header_parse(buf);
        match spec_parse_questions(buf.skip(12), 0, h.qd_count as int) {
            Err(e) => Err(e),
            Ok((qs, qlen)) => match spec_parse_records(
                buf,
                buf.skip(12 + qlen),
                0,
                h.an_count + h.ns_count + h.ar_count,
            ) {
                Err(e) => Err(e),
                Ok((rs, end)) => Ok((h, qs, rs)),
            },
        }
    }
}

/// True of a record that can serve as IPv4 glue: type A with four address
/// bytes.
pub open spec fn spec_is_glue(r: RecordSpec) -> bool {
    r.rr_type == 1 && r.rdata.len() == 4
}

/// The first usable glue record at index `i` or later, before `end`.
pub open spec fn spec_first_glue(rs: Seq<RecordSpec>, i: int, end: int) -> Option<int>
    decreases end - i,
{
    if i < 0 || i >= end || end > rs.len() {
        None
    } else if spec_is_glue(rs[i]) {
        Some(i)
    } else {
        spec_first_glue(rs, i + 1, end)
    }
}

/// What inspecting one response does to the state, and the step it yields:
/// a response that does not decode fails with its parse error; one with
/// answers is final and yields its first `an_count` records; one with no
/// answers and a non-zero RCODE fails with that code; otherwise the
/// response is a referral, which is refused once `MAX_REFERRALS` referrals
/// have been followed, and otherwise adopts the address of the first usable
/// glue record of the additional section — there being none is a failure of
/// its own.
pub open spec fn spec_inspect(st: StateSpec, buf: Seq<u8>) -> (StateSpec, StepSpec) {
    match spec_response(buf) {
        Err(e) => (st, StepSpec::Failed(ResolutionError::Parse(e))),
        Ok((h, qs, rs)) => {
            if h.an_count > 0 {
                (st, StepSpec::Done(rs.take(h.an_count as int)))
            } else if spec_rcode(h.flags) != 0 {
                (st, StepSpec::Failed(ResolutionError::Protocol(spec_rcode(h.flags))))
            } else if st.depth >= MAX_REFERRALS {
                (st, StepSpec::Failed(ResolutionError::ReferralLoop))
            } else {
                match spec_first_glue(rs, h.an_count + h.ns_count, rs.len() as int) {
                    Some(i) => (
                        StateSpec {
                            nameserver: v4_chars(rs[i].rdata),
                            depth: (st.depth + 1) as u32,
                            ..st
                        },
                        StepSpec::Descend,
                    ),
                    None => (st, StepSpec::Failed(ResolutionError::NoGlue)),
                }
            }
        },
    }
}

impl ResolverState {
    /// The state a resolution starts from: one of the root hints, chosen at
    /// random, and a transaction id of 1.
    pub fn start(fqdn: &str, qtype: u16, roots: &Vec<String>) -> (s: Self)
        requires
            roots@.len() >= 1,
        ensures
            s.fqdn@ == fqdn@,
            s.qtype == qtype,
            s.next_id == 1,
            s.depth == 0,
            exists|i: int| 0 <= i < roots@.len() && s.nameserver@ == #[trigger] roots@[i]@,
    {
        let idx = random_below(roots.len());
        let nameserver = roots[idx].clone();
        assert(nameserver@ == roots@[idx as int]@);
        ResolverState { fqdn: fqdn.to_owned(), qtype, nameserver, next_id: 1, depth: 0 }
    }

    /// The wire bytes of the next query: a fresh transaction id, no flags
    /// set (in particular no recursion desired), one question for the
    /// state's name and type, class IN.  A name label longer than 63 bytes
    /// is refused.
    pub fn build_query(&mut self) -> (r: Result<Vec<u8>, ParseError>)
        ensures
            final(self).fqdn == old(self).fqdn,
            final(self).qtype == old(self).qtype,
            final(self).nameserver == old(self).nameserver,
            final(self).depth == old(self).depth,
            final(self).next_id == (if old(self).next_id == u16::MAX {
                0u16
            } else {
                (old(self).next_id + 1) as u16
            }),
            (match r {
                Ok(b) => {
                    let labels = split_dots(encode_utf8(old(self).fqdn@));
                    b@ == spec_header_bytes(
                        Header {
                            id: final(self).next_id,
                            flags: 0,
                            qd_count: 1,
                            an_count: 0,
                            ns_count: 0,
                            ar_count: 0,
                        },
                    ) + spec_question_bytes(
                        QuestionSpec {
                            qname: wire_of(labels),
                            qname_dec: seq![],
                            qtype: old(self).qtype,
                            qclass: 1,
                        },
                    )
                },
                Err(e) => e == ParseError::LabelTooLong && (exists|i: int|
                    0 <= i < split_dots(encode_utf8(old(self).fqdn@)).len() && #[trigger] split_dots(
                        encode_utf8(old(self).fqdn@),
                    )[i].len() > 63),
            }),
    {
        self.next_id = if self.next_id == u16::MAX {
            0
        } else {
            self.next_id + 1
        };
        let header = Header::create(self.next_id, 0, 0, 0, 0, 0, 0, 0, 0, 1, 0, 0, 0);
        proof {
            crate::message::lemma_flags_round_trip(0, 0, 0, 0, 0, 0, 0, 0);
            assert(crate::message::spec_pack_flags(0, 0, 0, 0, 0, 0, 0, 0) == 0u16) by (bit_vector);
        }
        let question = match Question::new(self.fqdn.as_str(), self.qtype, 1) {
            Ok(q) => q,
            Err(e) => {
                return Err(e);
            },
        };
        let message = Message { header, question };
        Ok(message.to_bytes())
    }

    /// Decodes one response and takes the step it calls for, as
    /// `spec_inspect` states it: a final answer or failure leaves the state
    /// unchanged, a referral advances it to the glue server.
    #[verifier::rlimit(100)]
    pub fn inspect(&mut self, buf: &[u8]) -> (step: Step)
        ensures
            ({
                let (s2, k) = spec_inspect(old(self)@, buf@);
                final(self)@ == s2 && step@ == k
            }),
    {
        if buf.len() < 12 {
            return Step::Failed(ResolutionError::Parse(ParseError::TruncatedInput));
        }
        let header = Header::parse_prefix(buf);
        let body = &buf[12..buf.len()];
        proof {
            assert(body@ =~= buf@.skip(12));
        }
        let questions = match Question::parse(body, header.qd_count as usize) {
            Ok(pair) => pair,
            Err(e) => {
                return Step::Failed(ResolutionError::Parse(e));
            },
        };
        let qlen = questions.1;
        proof {
            crate::message::lemma_questions_end(buf@.skip(12), 0, header.qd_count as int);
        }
        let total = header.an_count as usize + header.ns_count as usize + header.ar_count as usize;
        let rest = &buf[12 + qlen..buf.len()];
        proof {
            assert(rest@ =~= buf@.skip(12 + qlen as int));
        }
        let mut records = match Resource::parse(buf, rest, total) {
            Ok(rs) => rs,
            Err(e) => {
                return Step::Failed(ResolutionError::Parse(e));
            },
        };
        let ghost rsv = records@.map_values(|x: Resource| x@);
        proof {
            crate::message::lemma_records_count(buf@, rest@, 0, total as int);
            crate::message::lemma_records_address(buf@, rest@, 0, total as int);
        }
        if header.an_count > 0 {
            records.truncate(header.an_count as usize);
            proof {
                assert(records@.map_values(|x: Resource| x@) =~= rsv.take(header.an_count as int));
            }
            return Step::Done(records);
        }
        let rcode = header.rcode();
        if rcode != 0 {
            return Step::Failed(ResolutionError::Protocol(rcode));
        }
        if self.depth >= MAX_REFERRALS {
            return Step::Failed(ResolutionError::ReferralLoop);
        }
        let begin = header.an_count as usize + header.ns_count as usize;
        let mut j: usize = if begin < records.len() {
            begin
        } else {
            records.len()
        };
        proof {
            if begin > rsv.len() {
                assert(spec_first_glue(rsv, begin as int, rsv.len() as int) is None);
            }
        }
        #[verifier::loop_isolation(false)]
        while j < records.len()
            invariant
                *self == *old(self),
                self.depth < MAX_REFERRALS,
                begin <= records@.len() ==> begin <= j,
                j <= records@.len(),
                rsv == records@.map_values(|x: Resource| x@),
                spec_first_glue(rsv, begin as int, rsv.len() as int) == spec_first_glue(
                    rsv,
                    j as int,
                    rsv.len() as int,
                ),
                forall|k: int|
                    0 <= k < records@.len() && #[trigger] rsv[k].rr_type == 1 && rsv[k].rdata.len()
                        == 4 ==> rsv[k].address == IpAddrSpec::V4(v4_chars(rsv[k].rdata)),
            decreases records@.len() - j,
        {
            assert(rsv[j as int] == records@[j as int]@);
            if records[j].rr_type == 1 && records[j].rdata.len() == 4 {
                assert(spec_is_glue(rsv[j as int]));
                let server: String = match &records[j].address {
                    IpAddr::V4(s) => s.clone(),
                    IpAddr::V6(_) => {
                        proof {
                            assert(false);
                        }
                        vstd::pervasive::unreached()
                    },
                };
                assert(server@ == v4_chars(rsv[j as int].rdata));
                assert(spec_first_glue(rsv, j as int, rsv.len() as int) == Some(j as int));
                self.nameserver = server;
                self.depth = self.depth + 1;
                return Step::Descend;
            }
            j = j + 1;
        }
        Step::Failed(ResolutionError::NoGlue)
    }
}

// ---------------------------------------------------------------------------
// Termination of referral chains
// ---------------------------------------------------------------------------

/// Whether a response is a referral that carries usable glue: it decodes,
/// answers nothing, reports no error, and holds an IPv4 glue record after
/// its authority section.
pub open spec fn spec_is_glue_referral(buf: Seq<u8>) -> bool {
    match spec_response(buf) {
        Ok((h, qs, rs)) => h.an_count == 0 && spec_rcode(h.flags) == 0 && spec_first_glue(
            rs,
            h.an_count + h.ns_count,
            rs.len() as int,
        ) is Some,
        Err(_) => false,
    }
}

/// The step a run of inspections ends with: each response is inspected from
/// the state the previous one led to, and the first step that is not a
/// descent, or the last step, ends the run.
pub open spec fn spec_run(st: StateSpec, bufs: Seq<Seq<u8>>) -> StepSpec
    recommends
        bufs.len() >= 1,
    decreases bufs.len(),
{
    if bufs.len() == 0 {
        StepSpec::Failed(ResolutionError::Transport)
    } else {
        let (s2, k) = spec_inspect(st, bufs[0]);
        if bufs.len() == 1 {
            k
        } else {
            match k {
                StepSpec::Descend => spec_run(s2, bufs.drop_first()),
                _ => k,
            }
        }
    }
}

/// Law: a resolution fed nothing but glue-bearing referrals cannot go on
/// forever.  As soon as more referrals arrive than the depth bound still
/// admits, the run ends with `ReferralLoop`.
pub proof fn lemma_referral_chain_stops(st: StateSpec, bufs: Seq<Seq<u8>>)
    requires
        forall|i: int| 0 <= i < bufs.len() ==> spec_is_glue_referral(#[trigger] bufs[i]),
        st.depth + bufs.len() > MAX_REFERRALS,
        bufs.len() >= 1,
    ensures
        spec_run(st, bufs) == StepSpec::Failed(ResolutionError::ReferralLoop),
    decreases bufs.len(),
{
    assert(spec_is_glue_referral(bufs[0]));
    let (s2, k) = spec_inspect(st, bufs[0]);
    if st.depth >= MAX_REFERRALS {
        assert(k == StepSpec::Failed(ResolutionError::ReferralLoop));
    } else {
        assert(k == StepSpec::Descend);
        assert(s2.depth == st.depth + 1);
        assert(bufs.len() >= 2);
        assert forall|i: int| 0 <= i < bufs.drop_first().len() implies spec_is_glue_referral(
            #[trigger] bufs.drop_first()[i],
        ) by {
            assert(bufs.drop_first()[i] == bufs[i + 1]);
        }
        lemma_referral_chain_stops(s2, bufs.drop_first());
    }
}


/// Law: the bytes of a query, as `build_query` states them, decode back to
/// the query itself: the header with the given id and zero flags, the one
/// question with the dotted name, class IN, and no records.
#[verifier::rlimit(100)]
pub proof fn lemma_query_round_trip(id: u16, name: Seq<char>, qtype: u16)
    requires
        forall|i: int|
            0 <= i < split_dots(encode_utf8(name)).len() ==> 1 <= #[trigger] split_dots(
                encode_utf8(name),
            )[i].len() <= 63,
    ensures
        ({
            let h = Header { id, flags: 0, qd_count: 1, an_count: 0, ns_count: 0, ar_count: 0 };
            let q = QuestionSpec {
                qname: wire_of(split_dots(encode_utf8(name))),
                qname_dec: seq![],
                qtype,
                qclass: 1,
            };
            let buf = spec_header_bytes(h) + spec_question_bytes(q);
            spec_response(buf) matches Ok((h2, qs, rs)) && {
                &&& h2 == h
                &&& qs.len() == 1
                &&& qs[0].qname_dec == name
                &&& qs[0].qtype == qtype
                &&& qs[0].qclass == 1
                &&& rs == Seq::<RecordSpec>::empty()
            }
        }),
{
    broadcast use crate::wire::lemma_u16_bytes_round_trip;

    let h = Header { id, flags: 0, qd_count: 1, an_count: 0, ns_count: 0, ar_count: 0 };
    let q = QuestionSpec {
        qname: wire_of(split_dots(encode_utf8(name))),
        qname_dec: seq![],
        qtype,
        qclass: 1,
    };
    let qb = spec_question_bytes(q);
    let buf = spec_header_bytes(h) + qb;
    assert(spec_header_parse(buf) == h) by {
        crate::message::lemma_header_round_trip(h);
        assert forall|k: int| 0 <= k < 12 implies buf[k] == spec_header_bytes(h)[k] by {}
    }
    assert(buf.skip(12) =~= qb);
    crate::message::lemma_question_round_trip(name, qtype, 1);
    reveal_with_fuel(spec_parse_questions, 3);
    let end = qb.len() as int;
    assert(spec_parse_questions(buf.skip(12), 0, 1) matches Ok((qs, e)) && qs =~= seq![
        spec_parse_question(qb, 0).unwrap().0,
    ] && e == end);
    assert(buf.skip(12 + end) =~= Seq::<u8>::empty());
}

} // verus!


