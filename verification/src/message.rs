use vstd::prelude::*;
use vstd::utf8::encode_utf8;
use crate::errors::ParseError;
use crate::wire::{
    byte_hi, byte_lo, dotted_chars, encode_qname, read_name, split_dots, spec_read_name, u16_at,
    u32_at, wire_of, MAX_POINTER_DEPTH,
};

verus! {

// ---------------------------------------------------------------------------
// Header
// ---------------------------------------------------------------------------

/// The fixed 12-byte DNS message header: a transaction id, the packed flag
/// word, and the four section counts.
#[derive(Debug, Clone, Copy, PartialEq, Eq, Structural)]
pub struct Header {
    pub id: u16,
    pub flags: u16,
    pub qd_count: u16,
    pub an_count: u16,
    pub ns_count: u16,
    pub ar_count: u16,
}

/// The flag word assembled from its fields, each first masked to its width:
/// bit 15 QR, bits 14-11 OPCODE, bit 10 AA, bit 9 TC, bit 8 RD, bit 7 RA,
/// bits 6-4 Z, bits 3-0 RCODE.
pub open spec fn spec_pack_flags(
    qr: u8,
    opcode: u8,
    aa: u8,
    tc: u8,
    rd: u8,
    ra: u8,
    z: u8,
    rcode: u8,
) -> u16 {
    (((qr & 1) as u16) << 15) | (((opcode & 15) as u16) << 11) | (((aa & 1) as u16) << 10) | (((tc
        & 1) as u16) << 9) | (((rd & 1) as u16) << 8) | (((ra & 1) as u16) << 7) | (((z
        & 7) as u16) << 4) | ((rcode & 15) as u16)
}

pub open spec fn spec_qr(flags: u16) -> u8 {
    ((flags >> 15) & 1) as u8
}

pub open spec fn spec_opcode(flags: u16) -> u8 {
    ((flags >> 11) & 15) as u8
}

pub open spec fn spec_aa(flags: u16) -> u8 {
    ((flags >> 10) & 1) as u8
}

pub open spec fn spec_tc(flags: u16) -> u8 {
    ((flags >> 9) & 1) as u8
}

pub open spec fn spec_rd(flags: u16) -> u8 {
    ((flags >> 8) & 1) as u8
}

pub open spec fn spec_ra(flags: u16) -> u8 {
    ((flags >> 7) & 1) as u8
}

pub open spec fn spec_z(flags: u16) -> u8 {
    ((flags >> 4) & 7) as u8
}

pub open spec fn spec_rcode(flags: u16) -> u8 {
    (flags & 15) as u8
}

/// The 12 bytes of a header on the wire, every field big-endian.
pub open spec fn spec_header_bytes(h: Header) -> Seq<u8> {
    seq![
        byte_hi(h.id),
        byte_lo(h.id),
        byte_hi(h.flags),
        byte_lo(h.flags),
        byte_hi(h.qd_count),
        byte_lo(h.qd_count),
        byte_hi(h.an_count),
        byte_lo(h.an_count),
        byte_hi(h.ns_count),
        byte_lo(h.ns_count),
        byte_hi(h.ar_count),
        byte_lo(h.ar_count),
    ]
}

/// The header read from the first 12 bytes of a buffer.
pub open spec fn spec_header_parse(b: Seq<u8>) -> Header
    recommends
        b.len() >= 12,
{
    Header {
        id: u16_at(b, 0),
        flags: u16_at(b, 2),
        qd_count: u16_at(b, 4),
        an_count: u16_at(b, 6),
        ns_count: u16_at(b, 8),
        ar_count: u16_at(b, 10),
    }
}

/// Law: decoding the encoding of any header gives the header back.
pub proof fn lemma_header_round_trip(h: Header)
    ensures
        spec_header_parse(spec_header_bytes(h)) == h,
{
    broadcast use crate::wire::lemma_u16_bytes_round_trip;

}

/// Law: each flag field read from a packed flag word is the field that was
/// packed, masked to its width, for every combination of field values.
pub proof fn lemma_flags_round_trip(
    qr: u8,
    opcode: u8,
    aa: u8,
    tc: u8,
    rd: u8,
    ra: u8,
    z: u8,
    rcode: u8,
)
    ensures
        spec_qr(spec_pack_flags(qr, opcode, aa, tc, rd, ra, z, rcode)) == (qr & 1),
        spec_opcode(spec_pack_flags(qr, opcode, aa, tc, rd, ra, z, rcode)) == (opcode & 15),
        spec_aa(spec_pack_flags(qr, opcode, aa, tc, rd, ra, z, rcode)) == (aa & 1),
        spec_tc(spec_pack_flags(qr, opcode, aa, tc, rd, ra, z, rcode)) == (tc & 1),
        spec_rd(spec_pack_flags(qr, opcode, aa, tc, rd, ra, z, rcode)) == (rd & 1),
        spec_ra(spec_pack_flags(qr, opcode, aa, tc, rd, ra, z, rcode)) == (ra & 1),
        spec_z(spec_pack_flags(qr, opcode, aa, tc, rd, ra, z, rcode)) == (z & 7),
        spec_rcode(spec_pack_flags(qr, opcode, aa, tc, rd, ra, z, rcode)) == (rcode & 15),
{
    let f = spec_pack_flags(qr, opcode, aa, tc, rd, ra, z, rcode);
    assert({
        let f = (((qr & 1) as u16) << 15) | (((opcode & 15) as u16) << 11) | (((aa
            & 1) as u16) << 10) | (((tc & 1) as u16) << 9) | (((rd & 1) as u16) << 8) | (((ra
            & 1) as u16) << 7) | (((z & 7) as u16) << 4) | ((rcode & 15) as u16);
        ((f >> 15) & 1) as u8 == (qr & 1) && ((f >> 11) & 15) as u8 == (opcode & 15) && ((f >> 10)
            & 1) as u8 == (aa & 1) && ((f >> 9) & 1) as u8 == (tc & 1) && ((f >> 8) & 1) as u8 == (
        rd & 1) && ((f >> 7) & 1) as u8 == (ra & 1) && ((f >> 4) & 7) as u8 == (z & 7) && (f
            & 15) as u8 == (rcode & 15)
    }) by (bit_vector);
}

impl Header {
    /// A header for a plain single-question query: id 1000, no flags set.
    pub fn new() -> (h: Self)
        ensures
            h == (Header { id: 1000, flags: 0, qd_count: 1, an_count: 0, ns_count: 0, ar_count: 0 }),
    {
        Self { id: 1000, flags: 0, qd_count: 1, an_count: 0, ns_count: 0, ar_count: 0 }
    }

    /// A header assembled from every field, the flag fields masked to their
    /// declared widths so that packing and reading back are inverse.
    pub fn create(
        id: u16,
        qr: u8,
        opcode: u8,
        aa: u8,
        tc: u8,
        rd: u8,
        ra: u8,
        z: u8,
        rcode: u8,
        qd_count: u16,
        an_count: u16,
        ns_count: u16,
        ar_count: u16,
    ) -> (h: Self)
        ensures
            h.id == id,
            h.flags == spec_pack_flags(qr, opcode, aa, tc, rd, ra, z, rcode),
            h.qd_count == qd_count,
            h.an_count == an_count,
            h.ns_count == ns_count,
            h.ar_count == ar_count,
    {
        let flags: u16 = (((qr & 1) as u16) << 15) | (((opcode & 15) as u16) << 11) | (((aa
            & 1) as u16) << 10) | (((tc & 1) as u16) << 9) | (((rd & 1) as u16) << 8) | (((ra
            & 1) as u16) << 7) | (((z & 7) as u16) << 4) | ((rcode & 15) as u16);
        Self { id, flags, qd_count, an_count, ns_count, ar_count }
    }

    pub fn qr(&self) -> (r: u8)
        ensures
            r == spec_qr(self.flags),
    {
        ((self.flags >> 15) & 1) as u8
    }

    pub fn opcode(&self) -> (r: u8)
        ensures
            r == spec_opcode(self.flags),
    {
        ((self.flags >> 11) & 15) as u8
    }

    pub fn aa(&self) -> (r: u8)
        ensures
            r == spec_aa(self.flags),
    {
        ((self.flags >> 10) & 1) as u8
    }

    pub fn tc(&self) -> (r: u8)
        ensures
            r == spec_tc(self.flags),
    {
        ((self.flags >> 9) & 1) as u8
    }

    pub fn rd(&self) -> (r: u8)
        ensures
            r == spec_rd(self.flags),
    {
        ((self.flags >> 8) & 1) as u8
    }

    pub fn ra(&self) -> (r: u8)
        ensures
            r == spec_ra(self.flags),
    {
        ((self.flags >> 7) & 1) as u8
    }

    pub fn z(&self) -> (r: u8)
        ensures
            r == spec_z(self.flags),
    {
        ((self.flags >> 4) & 7) as u8
    }

    pub fn rcode(&self) -> (r: u8)
        ensures
            r == spec_rcode(self.flags),
    {
        (self.flags & 15) as u8
    }

    /// The header's 12 wire bytes, big-endian throughout.
    pub fn to_byte(&self) -> (r: [u8; 12])
        ensures
            r@ == spec_header_bytes(*self),
    {
        let r: [u8; 12] = [
            (self.id / 256) as u8,
            (self.id % 256) as u8,
            (self.flags / 256) as u8,
            (self.flags % 256) as u8,
            (self.qd_count / 256) as u8,
            (self.qd_count % 256) as u8,
            (self.an_count / 256) as u8,
            (self.an_count % 256) as u8,
            (self.ns_count / 256) as u8,
            (self.ns_count % 256) as u8,
            (self.ar_count / 256) as u8,
            (self.ar_count % 256) as u8,
        ];
        assert(r@ =~= spec_header_bytes(*self));
        r
    }

    /// The header read from 12 wire bytes.
    pub fn parse(bytes: &[u8; 12]) -> (h: Self)
        ensures
            h == spec_header_parse(bytes@),
    {
        Self {
            id: (bytes[0] as u16) * 256 + (bytes[1] as u16),
            flags: (bytes[2] as u16) * 256 + (bytes[3] as u16),
            qd_count: (bytes[4] as u16) * 256 + (bytes[5] as u16),
            an_count: (bytes[6] as u16) * 256 + (bytes[7] as u16),
            ns_count: (bytes[8] as u16) * 256 + (bytes[9] as u16),
            ar_count: (bytes[10] as u16) * 256 + (bytes[11] as u16),
        }
    }

    /// The header read from the first 12 bytes of a longer buffer.
    pub fn parse_prefix(buf: &[u8]) -> (h: Self)
        requires
            buf@.len() >= 12,
        ensures
            h == spec_header_parse(buf@),
    {
        Self {
            id: (buf[0] as u16) * 256 + (buf[1] as u16),
            flags: (buf[2] as u16) * 256 + (buf[3] as u16),
            qd_count: (buf[4] as u16) * 256 + (buf[5] as u16),
            an_count: (buf[6] as u16) * 256 + (buf[7] as u16),
            ns_count: (buf[8] as u16) * 256 + (buf[9] as u16),
            ar_count: (buf[10] as u16) * 256 + (buf[11] as u16),
        }
    }
}

// ---------------------------------------------------------------------------
// Question
// ---------------------------------------------------------------------------

/// One entry of the question section: the name in wire form, its decoded
/// dotted text, and the query type and class.
#[derive(Debug)]
pub struct Question {
    pub qname: Vec<u8>,
    pub qname_dec: String,
    pub qtype: u16,
    pub qclass: u16,
}

/// The mathematical content of a `Question`.
pub struct QuestionSpec {
    pub qname: Seq<u8>,
    pub qname_dec: Seq<char>,
    pub qtype: u16,
    pub qclass: u16,
}

impl View for Question {
    type V = QuestionSpec;

    open spec fn view(&self) -> QuestionSpec {
        QuestionSpec {
            qname: self.qname@,
            qname_dec: self.qname_dec@,
            qtype: self.qtype,
            qclass: self.qclass,
        }
    }
}

/// The wire bytes of a question: the encoded name, then type and class,
/// big-endian.
pub open spec fn spec_question_bytes(q: QuestionSpec) -> Seq<u8> {
    q.qname + seq![byte_hi(q.qtype), byte_lo(q.qtype), byte_hi(q.qclass), byte_lo(q.qclass)]
}

/// One question decoded at `pos`: the name (with compression resolved
/// against the same buffer), then type and class.  The wire-form `qname`
/// field of a decoded question is left empty.
pub open spec fn spec_parse_question(buf: Seq<u8>, pos: int) -> Result<
    (QuestionSpec, int),
    ParseError,
> {
    match spec_read_name(buf, buf, pos, MAX_POINTER_DEPTH as int) {
        Err(e) => Err(e),
        Ok((labels, p)) => if p + 4 <= buf.len() {
            Ok(
                (
                    QuestionSpec {
                        qname: seq![],
                        qname_dec: dotted_chars(labels),
                        qtype: u16_at(buf, p),
                        qclass: u16_at(buf, p + 2),
                    },
                    p + 4,
                ),
            )
        } else {
            Err(ParseError::TruncatedInput)
        },
    }
}

/// Law: a question encoded for a dotted name whose labels have one
/// to 63 bytes decodes back to that name, type and class, consuming exactly
/// its own bytes.
pub proof fn lemma_question_round_trip(name: Seq<char>, qtype: u16, qclass: u16)
    requires
        forall|i: int|
            0 <= i < split_dots(encode_utf8(name)).len() ==> 1 <= #[trigger] split_dots(
                encode_utf8(name),
            )[i].len() <= 63,
    ensures
        ({
            let q = QuestionSpec {
                qname: wire_of(split_dots(encode_utf8(name))),
                qname_dec: seq![],
                qtype,
                qclass,
            };
            spec_parse_question(spec_question_bytes(q), 0) matches Ok((q2, end)) && {
                &&& q2.qname_dec == name
                &&& q2.qtype == qtype
                &&& q2.qclass == qclass
                &&& end == spec_question_bytes(q).len()
            }
        }),
{
    broadcast use crate::wire::lemma_u16_bytes_round_trip;

    let labels = split_dots(encode_utf8(name));
    let wire = wire_of(labels);
    let q = QuestionSpec { qname: wire, qname_dec: seq![], qtype, qclass };
    let buf = spec_question_bytes(q);
    assert(buf.subrange(0, wire.len() as int) =~= wire);
    crate::wire::lemma_read_wire_of(buf, buf, 0, MAX_POINTER_DEPTH as int, labels);
    crate::wire::lemma_name_bytes_round_trip(
        wire_of(labels),
        encode_utf8(name),
        MAX_POINTER_DEPTH as int,
    );
    crate::wire::lemma_name_text_round_trip(
        wire_of(labels),
        name,
        MAX_POINTER_DEPTH as int,
    );
    let w = wire.len() as int;
    assert(buf[w] == byte_hi(qtype) && buf[w + 1] == byte_lo(qtype));
    assert(buf[w + 2] == byte_hi(qclass) && buf[w + 3] == byte_lo(qclass));
    assert(u16_at(buf, w) == qtype);
    assert(u16_at(buf, w + 2) == qclass);
}

/// `count` questions decoded in sequence from `pos`, with the position just
/// past the last of them.
pub open spec fn spec_parse_questions(buf: Seq<u8>, pos: int, count: int) -> Result<
    (Seq<QuestionSpec>, int),
    ParseError,
>
    decreases count,
{
    if count <= 0 {
        Ok((seq![], pos))
    } else {
        match spec_parse_question(buf, pos) {
            Err(e) => Err(e),
            Ok((q, p)) => match spec_parse_questions(buf, p, count - 1) {
                Err(e) => Err(e),
                Ok((qs, end)) => Ok((seq![q] + qs, end)),
            },
        }
    }
}

/// A successful batch decode yields exactly the requested number of
/// questions.
pub proof fn lemma_questions_count(buf: Seq<u8>, pos: int, count: int)
    requires
        count >= 0,
    ensures
        spec_parse_questions(buf, pos, count) matches Ok((qs, end)) ==> qs.len() == count,
    decreases count,
{
    if count > 0 {
        match spec_parse_question(buf, pos) {
            Err(_) => {},
            Ok((q, p)) => {
                lemma_questions_count(buf, p, count - 1);
            },
        }
    }
}

impl Question {
    /// A question for a dotted name: the name is encoded to wire form, and a
    /// label longer than 63 bytes is refused.
    pub fn new(fqdn: &str, qtype: u16, qclass: u16) -> (r: Result<Self, ParseError>)
        ensures
            (match r {
                Ok(q) => {
                    let labels = split_dots(encode_utf8(fqdn@));
                    &&& q.qname@ == wire_of(labels)
                    &&& forall|i: int| 0 <= i < labels.len() ==> #[trigger] labels[i].len() <= 63
                    &&& q.qname_dec@ == Seq::<char>::empty()
                    &&& q.qtype == qtype
                    &&& q.qclass == qclass
                },
                Err(e) => e == ParseError::LabelTooLong && (exists|i: int|
                    0 <= i < split_dots(encode_utf8(fqdn@)).len() && #[trigger] split_dots(
                        encode_utf8(fqdn@),
                    )[i].len() > 63),
            }),
    {
        match encode_qname(fqdn) {
            Err(e) => Err(e),
            Ok(qname) => Ok(
                Self { qname, qname_dec: String::new(), qtype, qclass },
            ),
        }
    }

    /// The question's wire bytes: the encoded name, then type and class.
    pub fn to_byte(&self) -> (r: Vec<u8>)
        ensures
            r@ == spec_question_bytes(self@),
    {
        let mut bytes: Vec<u8> = Vec::new();
        bytes.extend_from_slice(self.qname.as_slice());
        bytes.push((self.qtype / 256) as u8);
        bytes.push((self.qtype % 256) as u8);
        bytes.push((self.qclass / 256) as u8);
        bytes.push((self.qclass % 256) as u8);
        assert(bytes@ =~= spec_question_bytes(self@));
        bytes
    }

    /// Decodes `count` questions from the start of `resources`, resolving
    /// compression pointers against that same buffer, and yields them with
    /// the position just past the last one.
    pub fn parse(resources: &[u8], count: usize) -> (r: Result<(Vec<Self>, usize), ParseError>)
        ensures
            (match r {
                Ok((qs, pos)) => spec_parse_questions(resources@, 0, count as int) == Ok::<
                    (Seq<QuestionSpec>, int),
                    ParseError,
                >((qs@.map_values(|q: Question| q@), pos as int)),
                Err(e) => spec_parse_questions(resources@, 0, count as int) == Err::<
                    (Seq<QuestionSpec>, int),
                    ParseError,
                >(e),
            }),
    {
        let ghost buf = resources@;
        let mut selfs: Vec<Question> = Vec::new();
        let mut position: usize = 0;
        let mut i: usize = 0;
        while i < count
            invariant
                i <= count,
                position <= buf.len(),
                buf == resources@,
                selfs@.len() == i,
                spec_parse_questions(buf, 0, count as int) == (match spec_parse_questions(
                    buf,
                    position as int,
                    count - i,
                ) {
                    Ok((qs, end)) => Ok::<(Seq<QuestionSpec>, int), ParseError>(
                        (selfs@.map_values(|q: Question| q@) + qs, end),
                    ),
                    Err(e) => Err::<(Seq<QuestionSpec>, int), ParseError>(e),
                }),
            decreases count - i,
        {
            let ghost done = selfs@.map_values(|q: Question| q@);
            let ghost oldpos = position as int;
            let ghost rem = count - i;
            let name = match read_name(resources, resources, position) {
                Ok(pair) => pair,
                Err(e) => {
                    return Err(e);
                },
            };
            let (qname_dec, p) = name;
            if p > resources.len() || resources.len() - p < 4 {
                return Err(ParseError::TruncatedInput);
            }
            let qtype: u16 = (resources[p] as u16) * 256 + (resources[p + 1] as u16);
            let qclass: u16 = (resources[p + 2] as u16) * 256 + (resources[p + 3] as u16);
            let question = Question { qname: Vec::new(), qname_dec, qtype, qclass };
            let ghost qspec = spec_parse_question(buf, oldpos).unwrap().0;
            proof {
                assert(spec_parse_question(buf, oldpos) matches Ok(pair2) && pair2.1 == p + 4);
                assert(question@.qname =~= qspec.qname);
                assert(question@ == qspec);
            }
            selfs.push(question);
            position = p + 4;
            i = i + 1;
            proof {
                assert(selfs@.map_values(|q: Question| q@) =~= done.push(qspec));
                assert(spec_parse_questions(buf, oldpos, rem) == (match spec_parse_questions(
                    buf,
                    position as int,
                    rem - 1,
                ) {
                    Ok((qs, end)) => Ok::<(Seq<QuestionSpec>, int), ParseError>(
                        (seq![qspec] + qs, end),
                    ),
                    Err(e) => Err::<(Seq<QuestionSpec>, int), ParseError>(e),
                }));
                match spec_parse_questions(buf, position as int, count - i) {
                    Ok((qs, end)) => {
                        assert(done + (seq![qspec] + qs) =~= done.push(qspec) + qs);
                    },
                    Err(_) => {},
                }
            }
        }
        proof {
            assert(selfs@.map_values(|q: Question| q@) + seq![] =~= selfs@.map_values(
                |q: Question| q@,
            ));
        }
        Ok((selfs, position))
    }
}

// ---------------------------------------------------------------------------
// Message
// ---------------------------------------------------------------------------

/// A query message: one header and one question.
pub struct Message {
    pub header: Header,
    pub question: Question,
}

impl Message {
    /// The message's wire bytes: the header's 12 bytes, then the question.
    pub fn to_bytes(&self) -> (r: Vec<u8>)
        ensures
            r@ == spec_header_bytes(self.header) + spec_question_bytes(self.question@),
    {
        let mut vec: Vec<u8> = Vec::new();
        let hb = self.header.to_byte();
        vec.extend_from_slice(hb.as_slice());
        let qb = self.question.to_byte();
        vec.extend_from_slice(qb.as_slice());
        assert(vec@ =~= spec_header_bytes(self.header) + spec_question_bytes(self.question@));
        vec
    }
}

// ---------------------------------------------------------------------------
// Resource records
// ---------------------------------------------------------------------------

/// An address rendered as text: a dotted quad for IPv4, colon-separated
/// hexadecimal groups for IPv6.
#[derive(Debug)]
pub enum IpAddr {
    V4(String),
    V6(String),
}

/// The mathematical content of an `IpAddr`.
pub enum IpAddrSpec {
    V4(Seq<char>),
    V6(Seq<char>),
}

impl View for IpAddr {
    type V = IpAddrSpec;

    open spec fn view(&self) -> IpAddrSpec {
        match self {
            IpAddr::V4(s) => IpAddrSpec::V4(s@),
            IpAddr::V6(s) => IpAddrSpec::V6(s@),
        }
    }
}

/// The decimal digits of a byte, without leading zeros.
pub open spec fn dec_u8_bytes(n: u8) -> Seq<u8> {
    if n < 10 {
        seq![(48 + n) as u8]
    } else if n < 100 {
        seq![(48 + n / 10) as u8, (48 + n % 10) as u8]
    } else {
        seq![(48 + n / 100) as u8, (48 + (n / 10) % 10) as u8, (48 + n % 10) as u8]
    }
}

/// The dotted-quad text bytes of a four-byte IPv4 address.
pub open spec fn v4_bytes(b: Seq<u8>) -> Seq<u8>
    recommends
        b.len() == 4,
{
    dec_u8_bytes(b[0]) + seq![crate::wire::DOT] + dec_u8_bytes(b[1]) + seq![crate::wire::DOT]
        + dec_u8_bytes(b[2]) + seq![crate::wire::DOT] + dec_u8_bytes(b[3])
}

/// The dotted-quad text of a four-byte IPv4 address.
pub open spec fn v4_chars(b: Seq<u8>) -> Seq<char> {
    v4_bytes(b).map_values(|x: u8| x as char)
}

/// One lowercase hexadecimal digit.
pub open spec fn hex_digit_byte(k: int) -> u8
    recommends
        0 <= k < 16,
{
    if k < 10 {
        (48 + k) as u8
    } else {
        (87 + k) as u8
    }
}

/// The lowercase hexadecimal digits of a 16-bit group, without leading
/// zeros.
pub open spec fn hex_u16_bytes(v: u16) -> Seq<u8> {
    let x = v as int;
    if x < 16 {
        seq![hex_digit_byte(x)]
    } else if x < 256 {
        seq![hex_digit_byte(x / 16), hex_digit_byte(x % 16)]
    } else if x < 4096 {
        seq![hex_digit_byte(x / 256), hex_digit_byte((x / 16) % 16), hex_digit_byte(x % 16)]
    } else {
        seq![
            hex_digit_byte(x / 4096),
            hex_digit_byte((x / 256) % 16),
            hex_digit_byte((x / 16) % 16),
            hex_digit_byte(x % 16),
        ]
    }
}

/// The colon-separated text bytes of a 16-byte IPv6 address, one
/// hexadecimal group per two bytes.
pub open spec fn v6_bytes(b: Seq<u8>) -> Seq<u8>
    recommends
        b.len() == 16,
{
    hex_u16_bytes(u16_at(b, 0)) + seq![58u8] + hex_u16_bytes(u16_at(b, 2)) + seq![58u8]
        + hex_u16_bytes(u16_at(b, 4)) + seq![58u8] + hex_u16_bytes(u16_at(b, 6)) + seq![58u8]
        + hex_u16_bytes(u16_at(b, 8)) + seq![58u8] + hex_u16_bytes(u16_at(b, 10)) + seq![58u8]
        + hex_u16_bytes(u16_at(b, 12)) + seq![58u8] + hex_u16_bytes(u16_at(b, 14))
}

/// The colon-separated text of a 16-byte IPv6 address.
pub open spec fn v6_chars(b: Seq<u8>) -> Seq<char> {
    v6_bytes(b).map_values(|x: u8| x as char)
}

/// Appends the decimal digits of `n`.
fn push_dec_u8(out: &mut Vec<u8>, n: u8)
    ensures
        final(out)@ =~= old(out)@ + dec_u8_bytes(n),
        (forall|i: int| 0 <= i < old(out)@.len() ==> old(out)@[i] < 128) ==> (forall|i: int|
            0 <= i < final(out)@.len() ==> final(out)@[i] < 128),
{
    if n >= 100 {
        out.push(48 + n / 100);
        out.push(48 + (n / 10) % 10);
        out.push(48 + n % 10);
    } else if n >= 10 {
        out.push(48 + n / 10);
        out.push(48 + n % 10);
    } else {
        out.push(48 + n);
    }
}

/// Appends the lowercase hexadecimal digits of `v`, without leading zeros.
fn push_hex_u16(out: &mut Vec<u8>, v: u16)
    ensures
        final(out)@ =~= old(out)@ + hex_u16_bytes(v),
        (forall|i: int| 0 <= i < old(out)@.len() ==> old(out)@[i] < 128) ==> (forall|i: int|
            0 <= i < final(out)@.len() ==> final(out)@[i] < 128),
{
    if v >= 4096 {
        out.push(hex_digit(v / 4096));
        out.push(hex_digit((v / 256) % 16));
        out.push(hex_digit((v / 16) % 16));
        out.push(hex_digit(v % 16));
    } else if v >= 256 {
        out.push(hex_digit(v / 256));
        out.push(hex_digit((v / 16) % 16));
        out.push(hex_digit(v % 16));
    } else if v >= 16 {
        out.push(hex_digit(v / 16));
        out.push(hex_digit(v % 16));
    } else {
        out.push(hex_digit(v));
    }
}

/// One lowercase hexadecimal digit for a value below 16.
fn hex_digit(k: u16) -> (r: u8)
    requires
        k < 16,
    ensures
        r == hex_digit_byte(k as int),
{
    if k < 10 {
        48 + (k as u8)
    } else {
        87 + (k as u8)
    }
}

/// The dotted-quad text of a four-byte address.
fn v4_string(b: &Vec<u8>) -> (r: String)
    requires
        b@.len() == 4,
    ensures
        r@ == v4_chars(b@),
{
    let mut out: Vec<u8> = Vec::new();
    push_dec_u8(&mut out, b[0]);
    out.push(crate::wire::DOT);
    push_dec_u8(&mut out, b[1]);
    out.push(crate::wire::DOT);
    push_dec_u8(&mut out, b[2]);
    out.push(crate::wire::DOT);
    push_dec_u8(&mut out, b[3]);
    assert(out@ =~= v4_bytes(b@));
    crate::wire::ascii_text(out.as_slice())
}

/// The colon-separated hexadecimal text of a 16-byte address.
fn v6_string(b: &Vec<u8>) -> (r: String)
    requires
        b@.len() == 16,
    ensures
        r@ == v6_chars(b@),
{
    let mut out: Vec<u8> = Vec::new();
    let mut g: usize = 0;
    while g < 8
        invariant
            g <= 8,
            b@.len() == 16,
            out@ =~= spec_v6_prefix(b@, g as int),
            forall|i: int| 0 <= i < out@.len() ==> out@[i] < 128,
        decreases 8 - g,
    {
        if g > 0 {
            out.push(58);
        }
        let group: u16 = (b[2 * g] as u16) * 256 + (b[2 * g + 1] as u16);
        assert(group == u16_at(b@, 2 * g as int));
        push_hex_u16(&mut out, group);
        g = g + 1;
        assert(out@ =~= spec_v6_prefix(b@, g as int));
    }
    proof {
        reveal_with_fuel(spec_v6_prefix, 9);
        assert(out@ =~= v6_bytes(b@));
    }
    crate::wire::ascii_text(out.as_slice())
}

/// The first `g` colon-separated groups of the IPv6 text.
pub open spec fn spec_v6_prefix(b: Seq<u8>, g: int) -> Seq<u8>
    recommends
        0 <= g <= 8,
    decreases g,
{
    if g <= 0 {
        seq![]
    } else if g == 1 {
        hex_u16_bytes(u16_at(b, 0))
    } else {
        spec_v6_prefix(b, g - 1) + seq![58u8] + hex_u16_bytes(u16_at(b, 2 * (g - 1)))
    }
}

/// One decoded resource record: the common fields, the raw RDATA, and one
/// populated type view; the views of the other types hold empty or zero
/// values.
#[derive(Debug)]
pub struct Resource {
    pub name: String,
    pub rr_type: u16,
    pub data_class: u16,
    pub ttl: u32,
    pub rdlength: u16,
    pub rdata: Vec<u8>,
    pub address: IpAddr,
    pub cname: String,
    pub nsdname: String,
    pub preference: u16,
    pub exchange: String,
    pub mname: String,
    pub rname: String,
    pub serial: u32,
    pub refresh: u32,
    pub retry: u32,
    pub expire: u32,
    pub minimum: u32,
    pub txt_data: String,
}

/// The mathematical content of a `Resource`.
pub struct RecordSpec {
    pub name: Seq<char>,
    pub rr_type: u16,
    pub data_class: u16,
    pub ttl: u32,
    pub rdlength: u16,
    pub rdata: Seq<u8>,
    pub address: IpAddrSpec,
    pub cname: Seq<char>,
    pub nsdname: Seq<char>,
    pub preference: u16,
    pub exchange: Seq<char>,
    pub mname: Seq<char>,
    pub rname: Seq<char>,
    pub serial: u32,
    pub refresh: u32,
    pub retry: u32,
    pub expire: u32,
    pub minimum: u32,
    pub txt_data: Seq<char>,
}

impl View for Resource {
    type V = RecordSpec;

    open spec fn view(&self) -> RecordSpec {
        RecordSpec {
            name: self.name@,
            rr_type: self.rr_type,
            data_class: self.data_class,
            ttl: self.ttl,
            rdlength: self.rdlength,
            rdata: self.rdata@,
            address: self.address@,
            cname: self.cname@,
            nsdname: self.nsdname@,
            preference: self.preference,
            exchange: self.exchange@,
            mname: self.mname@,
            rname: self.rname@,
            serial: self.serial,
            refresh: self.refresh,
            retry: self.retry,
            expire: self.expire,
            minimum: self.minimum,
            txt_data: self.txt_data@,
        }
    }
}

/// The type views of a record, before the common fields are filled in.
pub struct RecordViews {
    pub address: IpAddrSpec,
    pub cname: Seq<char>,
    pub nsdname: Seq<char>,
    pub preference: u16,
    pub exchange: Seq<char>,
    pub mname: Seq<char>,
    pub rname: Seq<char>,
    pub serial: u32,
    pub refresh: u32,
    pub retry: u32,
    pub expire: u32,
    pub minimum: u32,
    pub txt_data: Seq<char>,
}

/// The views with every field empty or zero; the address view defaults to
/// an empty IPv4 text.
pub open spec fn spec_empty_views() -> RecordViews {
    RecordViews {
        address: IpAddrSpec::V4(seq![]),
        cname: seq![],
        nsdname: seq![],
        preference: 0,
        exchange: seq![],
        mname: seq![],
        rname: seq![],
        serial: 0,
        refresh: 0,
        retry: 0,
        expire: 0,
        minimum: 0,
        txt_data: seq![],
    }
}

/// The type views a record's RDATA decodes to, by record type: addresses
/// for A and AAAA (left empty when the length is wrong, without failing),
/// an embedded name for CNAME and NS, preference and exchange for MX, two
/// names and five counters for SOA, and one length-prefixed string for
/// TXT.  Embedded names resolve compression against `msg`, the full
/// message.  RDATA too short for its type's fixed-size fields is refused
/// as `RdataLengthMismatch`.
pub open spec fn spec_record_views(msg: Seq<u8>, rdata: Seq<u8>, rr_type: u16) -> Result<
    RecordViews,
    ParseError,
> {
    let base = spec_empty_views();
    if rr_type == 5 {
        match spec_read_name(msg, rdata, 0, MAX_POINTER_DEPTH as int) {
            Err(e) => Err(e),
            Ok((ls, _)) => Ok(RecordViews { cname: dotted_chars(ls), ..base }),
        }
    } else if rr_type == 2 {
        match spec_read_name(msg, rdata, 0, MAX_POINTER_DEPTH as int) {
            Err(e) => Err(e),
            Ok((ls, _)) => Ok(RecordViews { nsdname: dotted_chars(ls), ..base }),
        }
    } else if rr_type == 1 {
        if rdata.len() == 4 {
            Ok(RecordViews { address: IpAddrSpec::V4(v4_chars(rdata)), ..base })
        } else {
            Ok(base)
        }
    } else if rr_type == 28 {
        if rdata.len() == 16 {
            Ok(RecordViews { address: IpAddrSpec::V6(v6_chars(rdata)), ..base })
        } else {
            Ok(base)
        }
    } else if rr_type == 15 {
        if rdata.len() >= 2 {
            match spec_read_name(msg, rdata, 2, MAX_POINTER_DEPTH as int) {
                Err(e) => Err(e),
                Ok((ls, _)) => Ok(
                    RecordViews {
                        preference: u16_at(rdata, 0),
                        exchange: dotted_chars(ls),
                        ..base
                    },
                ),
            }
        } else {
            Err(ParseError::RdataLengthMismatch)
        }
    } else if rr_type == 6 {
        match spec_read_name(msg, rdata, 0, MAX_POINTER_DEPTH as int) {
            Err(e) => Err(e),
            Ok((mls, mp)) => match spec_read_name(msg, rdata, mp, MAX_POINTER_DEPTH as int) {
                Err(e) => Err(e),
                Ok((rls, rp)) => if rp + 20 <= rdata.len() {
                    Ok(
                        RecordViews {
                            mname: dotted_chars(mls),
                            rname: dotted_chars(rls),
                            serial: u32_at(rdata, rp),
                            refresh: u32_at(rdata, rp + 4),
                            retry: u32_at(rdata, rp + 8),
                            expire: u32_at(rdata, rp + 12),
                            minimum: u32_at(rdata, rp + 16),
                            ..base
                        },
                    )
                } else {
                    Err(ParseError::RdataLengthMismatch)
                },
            },
        }
    } else if rr_type == 16 {
        if rdata.len() >= 1 && 1 + rdata[0] <= rdata.len() {
            Ok(
                RecordViews {
                    txt_data: crate::wire::label_chars(rdata.subrange(1, 1 + rdata[0])),
                    ..base
                },
            )
        } else {
            Err(ParseError::RdataLengthMismatch)
        }
    } else {
        Ok(base)
    }
}

/// One record decoded at `pos` of `local`: the name, four fixed fields,
/// exactly `rdlength` bytes of RDATA, and the type views of that RDATA.
pub open spec fn spec_parse_record(msg: Seq<u8>, local: Seq<u8>, pos: int) -> Result<
    (RecordSpec, int),
    ParseError,
> {
    match spec_read_name(msg, local, pos, MAX_POINTER_DEPTH as int) {
        Err(e) => Err(e),
        Ok((labels, p)) => if p + 10 <= local.len() {
            let rdlength = u16_at(local, p + 8);
            if p + 10 + rdlength <= local.len() {
                let rdata = local.subrange(p + 10, p + 10 + rdlength);
                match spec_record_views(msg, rdata, u16_at(local, p)) {
                    Err(e) => Err(e),
                    Ok(v) => Ok(
                        (
                            RecordSpec {
                                name: dotted_chars(labels),
                                rr_type: u16_at(local, p),
                                data_class: u16_at(local, p + 2),
                                ttl: u32_at(local, p + 4),
                                rdlength,
                                rdata,
                                address: v.address,
                                cname: v.cname,
                                nsdname: v.nsdname,
                                preference: v.preference,
                                exchange: v.exchange,
                                mname: v.mname,
                                rname: v.rname,
                                serial: v.serial,
                                refresh: v.refresh,
                                retry: v.retry,
                                expire: v.expire,
                                minimum: v.minimum,
                                txt_data: v.txt_data,
                            },
                            p + 10 + rdlength,
                        ),
                    ),
                }
            } else {
                Err(ParseError::TruncatedInput)
            }
        } else {
            Err(ParseError::TruncatedInput)
        },
    }
}

/// `count` records decoded in sequence from `pos`, with the position just
/// past the last of them.
pub open spec fn spec_parse_records(msg: Seq<u8>, local: Seq<u8>, pos: int, count: int) -> Result<
    (Seq<RecordSpec>, int),
    ParseError,
>
    decreases count,
{
    if count <= 0 {
        Ok((seq![], pos))
    } else {
        match spec_parse_record(msg, local, pos) {
            Err(e) => Err(e),
            Ok((rec, p)) => match spec_parse_records(msg, local, p, count - 1) {
                Err(e) => Err(e),
                Ok((rs, end)) => Ok((seq![rec] + rs, end)),
            },
        }
    }
}

/// A successful batch decode yields exactly the requested number of
/// records.
pub proof fn lemma_records_count(msg: Seq<u8>, local: Seq<u8>, pos: int, count: int)
    requires
        count >= 0,
    ensures
        spec_parse_records(msg, local, pos, count) matches Ok((rs, end)) ==> rs.len() == count,
    decreases count,
{
    if count > 0 {
        match spec_parse_record(msg, local, pos) {
            Err(_) => {},
            Ok((rec, p)) => {
                lemma_records_count(msg, local, p, count - 1);
            },
        }
    }
}

/// A successful batch decode of questions ends within the buffer.
pub proof fn lemma_questions_end(buf: Seq<u8>, pos: int, count: int)
    requires
        0 <= pos <= buf.len(),
        count >= 0,
    ensures
        spec_parse_questions(buf, pos, count) matches Ok((qs, end)) ==> pos <= end <= buf.len(),
    decreases count,
{
    if count > 0 {
        crate::wire::lemma_read_name_end(buf, buf, pos, MAX_POINTER_DEPTH as int);
        match spec_parse_question(buf, pos) {
            Err(_) => {},
            Ok((q, p)) => {
                lemma_questions_end(buf, p, count - 1);
            },
        }
    }
}

/// In a successful batch decode, every record whose type is A and whose
/// RDATA has four bytes carries the dotted-quad text of those bytes as its
/// address view.
pub proof fn lemma_records_address(msg: Seq<u8>, local: Seq<u8>, pos: int, count: int)
    requires
        count >= 0,
    ensures
        spec_parse_records(msg, local, pos, count) matches Ok((rs, end)) ==> forall|i: int|
            0 <= i < rs.len() && #[trigger] rs[i].rr_type == 1 && rs[i].rdata.len() == 4
                ==> rs[i].address == IpAddrSpec::V4(v4_chars(rs[i].rdata)),
    decreases count,
{
    if count > 0 {
        match spec_parse_record(msg, local, pos) {
            Err(_) => {},
            Ok((rec, p)) => {
                lemma_records_address(msg, local, p, count - 1);
                match spec_parse_records(msg, local, p, count - 1) {
                    Err(_) => {},
                    Ok((rs2, end)) => {
                        assert forall|i: int|
                            0 <= i < (seq![rec] + rs2).len() && #[trigger] (seq![rec]
                                + rs2)[i].rr_type == 1 && (seq![rec] + rs2)[i].rdata.len() == 4
                            implies (seq![rec] + rs2)[i].address == IpAddrSpec::V4(
                            v4_chars((seq![rec] + rs2)[i].rdata),
                        ) by {
                            if i > 0 {
                                assert((seq![rec] + rs2)[i] == rs2[i - 1]);
                            }
                        }
                    },
                }
            },
        }
    }
}

/// Decodes the type views of one record's RDATA.
fn parse_views(msg: &[u8], rdata: &Vec<u8>, rr_type: u16) -> (r: Result<
    (IpAddr, String, String, u16, String, String, String, u32, u32, u32, u32, u32, String),
    ParseError,
>)
    ensures
        (match (r, spec_record_views(msg@, rdata@, rr_type)) {
            (Ok(t), Ok(v)) => {
                &&& t.0@ == v.address
                &&& t.1@ == v.cname
                &&& t.2@ == v.nsdname
                &&& t.3 == v.preference
                &&& t.4@ == v.exchange
                &&& t.5@ == v.mname
                &&& t.6@ == v.rname
                &&& t.7 == v.serial
                &&& t.8 == v.refresh
                &&& t.9 == v.retry
                &&& t.10 == v.expire
                &&& t.11 == v.minimum
                &&& t.12@ == v.txt_data
            },
            (Err(e1), Err(e2)) => e1 == e2,
            _ => false,
        }),
{
    let mut address = IpAddr::V4(String::new());
    let mut cname = String::new();
    let mut nsdname = String::new();
    let mut preference: u16 = 0;
    let mut exchange = String::new();
    let mut mname = String::new();
    let mut rname = String::new();
    let mut serial: u32 = 0;
    let mut refresh: u32 = 0;
    let mut retry: u32 = 0;
    let mut expire: u32 = 0;
    let mut minimum: u32 = 0;
    let mut txt_data = String::new();
    if rr_type == 5 {
        match read_name(msg, rdata.as_slice(), 0) {
            Err(e) => {
                return Err(e);
            },
            Ok((n, _)) => {
                cname = n;
            },
        }
    } else if rr_type == 2 {
        match read_name(msg, rdata.as_slice(), 0) {
            Err(e) => {
                return Err(e);
            },
            Ok((n, _)) => {
                nsdname = n;
            },
        }
    } else if rr_type == 1 {
        if rdata.len() == 4 {
            address = IpAddr::V4(v4_string(rdata));
        }
    } else if rr_type == 28 {
        if rdata.len() == 16 {
            address = IpAddr::V6(v6_string(rdata));
        }
    } else if rr_type == 15 {
        if rdata.len() < 2 {
            return Err(ParseError::RdataLengthMismatch);
        }
        preference = (rdata[0] as u16) * 256 + (rdata[1] as u16);
        match read_name(msg, rdata.as_slice(), 2) {
            Err(e) => {
                return Err(e);
            },
            Ok((n, _)) => {
                exchange = n;
            },
        }
    } else if rr_type == 6 {
        let mp: usize;
        match read_name(msg, rdata.as_slice(), 0) {
            Err(e) => {
                return Err(e);
            },
            Ok((n, p)) => {
                mname = n;
                mp = p;
            },
        }
        let rp: usize;
        match read_name(msg, rdata.as_slice(), mp) {
            Err(e) => {
                return Err(e);
            },
            Ok((n, p)) => {
                rname = n;
                rp = p;
            },
        }
        if rp > rdata.len() || rdata.len() - rp < 20 {
            return Err(ParseError::RdataLengthMismatch);
        }
        serial = read_u32(rdata, rp);
        refresh = read_u32(rdata, rp + 4);
        retry = read_u32(rdata, rp + 8);
        expire = read_u32(rdata, rp + 12);
        minimum = read_u32(rdata, rp + 16);
    } else if rr_type == 16 {
        if rdata.len() < 1 || (rdata[0] as usize) + 1 > rdata.len() {
            return Err(ParseError::RdataLengthMismatch);
        }
        let end = (rdata[0] as usize) + 1;
        txt_data = crate::wire::bytes_to_text(&rdata.as_slice()[1..end]);
    }
    Ok(
        (
            address,
            cname,
            nsdname,
            preference,
            exchange,
            mname,
            rname,
            serial,
            refresh,
            retry,
            expire,
            minimum,
            txt_data,
        ),
    )
}

/// The 32-bit big-endian integer at `pos`.
fn read_u32(b: &Vec<u8>, pos: usize) -> (r: u32)
    requires
        pos + 4 <= b@.len(),
    ensures
        r == u32_at(b@, pos as int),
{
    let n = b.len();
    (b[pos] as u32) * 0x1000000 + (b[pos + 1] as u32) * 0x10000 + (b[pos + 2] as u32) * 256 + (b[pos
        + 3] as u32)
}

impl Resource {
    /// Decodes `count` records from the start of `resources`, resolving
    /// compression pointers against `message`, the full message buffer.
    pub fn parse(message: &[u8], resources: &[u8], count: usize) -> (r: Result<
        Vec<Self>,
        ParseError,
    >)
        ensures
            (match r {
                Ok(rs) => spec_parse_records(message@, resources@, 0, count as int) matches Ok(
                    (specs, end),
                ) && rs@.map_values(|x: Resource| x@) == specs,
                Err(e) => spec_parse_records(message@, resources@, 0, count as int) == Err::<
                    (Seq<RecordSpec>, int),
                    ParseError,
                >(e),
            }),
    {
        let ghost buf = resources@;
        let mut selfs: Vec<Resource> = Vec::new();
        let mut position: usize = 0;
        let mut i: usize = 0;
        while i < count
            invariant
                i <= count,
                position <= buf.len(),
                buf == resources@,
                selfs@.len() == i,
                spec_parse_records(message@, buf, 0, count as int) == (match spec_parse_records(
                    message@,
                    buf,
                    position as int,
                    count - i,
                ) {
                    Ok((rs, end)) => Ok::<(Seq<RecordSpec>, int), ParseError>(
                        (selfs@.map_values(|x: Resource| x@) + rs, end),
                    ),
                    Err(e) => Err::<(Seq<RecordSpec>, int), ParseError>(e),
                }),
            decreases count - i,
        {
            let ghost done = selfs@.map_values(|x: Resource| x@);
            let ghost oldpos = position as int;
            let ghost rem = count - i;
            let name = match read_name(message, resources, position) {
                Ok(pair) => pair,
                Err(e) => {
                    return Err(e);
                },
            };
            let (name, p) = name;
            if p > resources.len() || resources.len() - p < 10 {
                return Err(ParseError::TruncatedInput);
            }
            let rr_type: u16 = (resources[p] as u16) * 256 + (resources[p + 1] as u16);
            let data_class: u16 = (resources[p + 2] as u16) * 256 + (resources[p + 3] as u16);
            let ttl: u32 = (resources[p + 4] as u32) * 0x1000000 + (resources[p + 5] as u32)
                * 0x10000 + (resources[p + 6] as u32) * 256 + (resources[p + 7] as u32);
            let rdlength: u16 = (resources[p + 8] as u16) * 256 + (resources[p + 9] as u16);
            if rdlength as usize > resources.len() - p - 10 {
                return Err(ParseError::TruncatedInput);
            }
            let begin = p + 10;
            let end = begin + rdlength as usize;
            let rdata: Vec<u8> = vstd::slice::slice_to_vec(&resources[begin..end]);
            let views = match parse_views(message, &rdata, rr_type) {
                Ok(v) => v,
                Err(e) => {
                    return Err(e);
                },
            };
            let (
                address,
                cname,
                nsdname,
                preference,
                exchange,
                mname,
                rname,
                serial,
                refresh,
                retry,
                expire,
                minimum,
                txt_data,
            ) = views;
            let resource = Resource {
                name,
                rr_type,
                data_class,
                ttl,
                rdlength,
                rdata,
                address,
                cname,
                nsdname,
                preference,
                exchange,
                mname,
                rname,
                serial,
                refresh,
                retry,
                expire,
                minimum,
                txt_data,
            };
            let ghost rspec = spec_parse_record(message@, buf, oldpos).unwrap().0;
            proof {
                assert(spec_parse_record(message@, buf, oldpos) matches Ok(pair2) && pair2.1 == end);
                assert(resource@ == rspec);
            }
            selfs.push(resource);
            position = end;
            i = i + 1;
            proof {
                assert(selfs@.map_values(|x: Resource| x@) =~= done.push(rspec));
                assert(spec_parse_records(message@, buf, oldpos, rem) == (match spec_parse_records(
                    message@,
                    buf,
                    position as int,
                    rem - 1,
                ) {
                    Ok((rs, end2)) => Ok::<(Seq<RecordSpec>, int), ParseError>(
                        (seq![rspec] + rs, end2),
                    ),
                    Err(e) => Err::<(Seq<RecordSpec>, int), ParseError>(e),
                }));
                match spec_parse_records(message@, buf, position as int, count - i) {
                    Ok((rs, end2)) => {
                        assert(done + (seq![rspec] + rs) =~= done.push(rspec) + rs);
                    },
                    Err(_) => {},
                }
            }
        }
        proof {
            assert(selfs@.map_values(|x: Resource| x@) + seq![] =~= selfs@.map_values(
                |x: Resource| x@,
            ));
        }
        Ok(selfs)
    }
}

} // verus!

