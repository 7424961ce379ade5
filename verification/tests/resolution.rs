use dns_resolver::errors::ResolutionError;
use dns_resolver::message::{Header, Message, Question};
use dns_resolver::resolver::{ResolverState, Step, MAX_REFERRALS};

fn push_u16(out: &mut Vec<u8>, v: u16) {
    out.push((v / 256) as u8);
    out.push((v % 256) as u8);
}

fn response_header(flags: u16, qd: u16, an: u16, ns: u16, ar: u16) -> Vec<u8> {
    let mut out = Vec::new();
    push_u16(&mut out, 0x1234);
    push_u16(&mut out, flags);
    push_u16(&mut out, qd);
    push_u16(&mut out, an);
    push_u16(&mut out, ns);
    push_u16(&mut out, ar);
    out
}

fn record(name: &[u8], rr_type: u16, rdata: &[u8]) -> Vec<u8> {
    let mut out = Vec::new();
    out.extend_from_slice(name);
    push_u16(&mut out, rr_type);
    push_u16(&mut out, 1);
    out.extend_from_slice(&[0, 0, 0, 0]);
    push_u16(&mut out, rdata.len() as u16);
    out.extend_from_slice(rdata);
    out
}

/// A referral: no answers, RCODE 0, one NS record in the authority section
/// and one A glue record in the additional section.
fn referral_response() -> Vec<u8> {
    let mut buf = response_header(0x8000, 0, 0, 1, 1);
    buf.extend_from_slice(&record(
        &[3, 0x6e, 0x65, 0x74, 0],
        2,
        &[2, 0x6e, 0x73, 0],
    ));
    buf.extend_from_slice(&record(&[2, 0x6e, 0x73, 0], 1, &[198, 41, 0, 4]));
    buf
}

fn fresh_state() -> ResolverState {
    let roots = vec!["9.9.9.9".to_string()];
    ResolverState::start("www.nyamikan.net", 2, &roots)
}

#[test]
fn start_picks_a_root() {
    let state = fresh_state();
    assert_eq!(state.nameserver, "9.9.9.9");
    assert_eq!(state.fqdn, "www.nyamikan.net");
    assert_eq!(state.qtype, 2);
    assert_eq!(state.next_id, 1);
    assert_eq!(state.depth, 0);
}

#[test]
fn build_query_bytes() {
    let mut state = fresh_state();
    let query = state.build_query().unwrap();
    let mut expect: Vec<u8> = vec![0, 2, 0, 0, 0, 1, 0, 0, 0, 0, 0, 0];
    expect.extend_from_slice(&[3, 0x77, 0x77, 0x77]);
    expect.extend_from_slice(&[8, 0x6e, 0x79, 0x61, 0x6d, 0x69, 0x6b, 0x61, 0x6e]);
    expect.extend_from_slice(&[3, 0x6e, 0x65, 0x74, 0]);
    expect.extend_from_slice(&[0, 2, 0, 1]);
    assert_eq!(query, expect);
    assert_eq!(state.next_id, 2);
}

#[test]
fn referral_selects_glue_and_descends() {
    let mut state = fresh_state();
    let buf = referral_response();
    match state.inspect(&buf) {
        Step::Descend => {}
        _ => panic!("a referral with glue must descend"),
    }
    assert_eq!(state.nameserver, "198.41.0.4");
    assert_eq!(state.depth, 1);
}

#[test]
fn answer_terminates_with_records() {
    // One answer record: an A record for the queried name.
    let mut buf = response_header(0x8000, 0, 1, 0, 0);
    buf.extend_from_slice(&record(&[3, 0x77, 0x77, 0x77, 0], 1, &[192, 0, 2, 1]));
    let mut state = fresh_state();
    match state.inspect(&buf) {
        Step::Done(records) => {
            assert_eq!(records.len(), 1);
            assert_eq!(records[0].name, "www");
            match &records[0].address {
                dns_resolver::message::IpAddr::V4(s) => assert_eq!(s, "192.0.2.1"),
                _ => panic!("expected a V4 address"),
            }
        }
        _ => panic!("an answer must end the resolution"),
    }
    assert_eq!(state.depth, 0);
}

#[test]
fn nxdomain_is_a_protocol_error() {
    // RCODE 3 with no answers: the resolution ends with the code, it is not
    // treated as a referral.
    let buf = response_header(0x8003, 0, 0, 0, 0);
    let mut state = fresh_state();
    match state.inspect(&buf) {
        Step::Failed(ResolutionError::Protocol(code)) => assert_eq!(code, 3),
        _ => panic!("a non-zero RCODE must fail with a protocol error"),
    }
}

#[test]
fn referral_without_glue_fails() {
    let mut buf = response_header(0x8000, 0, 0, 1, 0);
    buf.extend_from_slice(&record(
        &[3, 0x6e, 0x65, 0x74, 0],
        2,
        &[2, 0x6e, 0x73, 0],
    ));
    let mut state = fresh_state();
    match state.inspect(&buf) {
        Step::Failed(ResolutionError::NoGlue) => {}
        _ => panic!("a referral without usable glue must fail"),
    }
}

#[test]
fn endless_referrals_hit_the_depth_bound() {
    // Feeding nothing but glue-bearing referrals: after MAX_REFERRALS
    // descents the next referral fails with ReferralLoop instead of looping
    // forever.
    let buf = referral_response();
    let mut state = fresh_state();
    let mut descents: u32 = 0;
    loop {
        match state.inspect(&buf) {
            Step::Descend => {
                descents += 1;
                assert!(descents <= MAX_REFERRALS, "the depth bound was not enforced");
            }
            Step::Failed(ResolutionError::ReferralLoop) => break,
            _ => panic!("a glue referral must descend or hit the bound"),
        }
    }
    assert_eq!(descents, MAX_REFERRALS);
}

#[test]
fn truncated_response_is_a_parse_error() {
    let buf = vec![0x12, 0x34, 0x80];
    let mut state = fresh_state();
    match state.inspect(&buf) {
        Step::Failed(ResolutionError::Parse(dns_resolver::errors::ParseError::TruncatedInput)) => {}
        _ => panic!("a short datagram must fail as truncated"),
    }
}

#[test]
fn message_to_bytes_is_header_then_question() {
    let message = Message {
        header: Header::create(1000, 0, 0, 0, 0, 1, 0, 0, 0, 1, 0, 0, 0),
        question: Question::new("nyamikan.net", 1, 1).unwrap(),
    };
    let bytes = message.to_bytes();
    let mut expect: Vec<u8> = vec![3, 0xe8, 1, 0, 0, 1, 0, 0, 0, 0, 0, 0];
    expect.extend_from_slice(&[8, 0x6e, 0x79, 0x61, 0x6d, 0x69, 0x6b, 0x61, 0x6e]);
    expect.extend_from_slice(&[3, 0x6e, 0x65, 0x74, 0]);
    expect.extend_from_slice(&[0, 1, 0, 1]);
    assert_eq!(bytes, expect);
}
