use dns_resolver::errors::ParseError;
use dns_resolver::message::{Header, Question, Resource};
use dns_resolver::wire::read_name;

#[test]
fn header_bytes() {
    let header = Header::create(255, 0, 0, 0, 0, 1, 0, 0, 0, 2, 0, 0, 0);

    let actual = header.to_byte();
    let expect: [u8; 12] = [0, 255, 1, 0, 0, 2, 0, 0, 0, 0, 0, 0];
    assert_eq!(expect, actual);
}

#[test]
fn header_parse() {
    let header: [u8; 12] = [
        0xF7, 0x67, 0x81, 0x00, 0x00, 0x01, 0x00, 0x02, 0x00, 0x00, 0x00, 0x00,
    ];

    let parsed_header = Header::parse(&header);
    assert_eq!(parsed_header.id, 0xF767);
    assert_eq!(parsed_header.qr(), 1);
    assert_eq!(parsed_header.opcode(), 0);
    assert_eq!(parsed_header.aa(), 0);
    assert_eq!(parsed_header.tc(), 0);
    assert_eq!(parsed_header.rd(), 1);
    assert_eq!(parsed_header.ra(), 0);
    assert_eq!(parsed_header.z(), 0);
    assert_eq!(parsed_header.rcode(), 0);
    assert_eq!(parsed_header.qd_count, 1);
    assert_eq!(parsed_header.an_count, 2);
    assert_eq!(parsed_header.ns_count, 0);
    assert_eq!(parsed_header.ar_count, 0);
}

#[test]
fn question_bytes() {
    let question = Question::new("nyamikan.net", 2, 1).unwrap();

    let actual = question.to_byte();
    let expect = vec![
        8, 0x6e, 0x79, 0x61, 0x6d, 0x69, 0x6b, 0x61, 0x6e, 3, 0x6e, 0x65, 0x74, 0, 0, 2, 0, 1,
    ];
    assert_eq!(expect, actual);
}

#[test]
fn question_parse() {
    let question = vec![
        3, 0x77, 0x77, 0x77, 8, 0x6e, 0x79, 0x61, 0x6d, 0x69, 0x6b, 0x61, 0x6e, 3, 0x6e, 0x65,
        0x74, 0, 0, 2, 0, 1,
    ];

    let parsed_questions = Question::parse(&question, 1).unwrap();
    assert_eq!(parsed_questions.0.len(), 1);
    let parsed_question = &parsed_questions.0[0];
    assert_eq!(parsed_question.qname_dec, "www.nyamikan.net");
    assert_eq!(parsed_question.qtype, 2);
    assert_eq!(parsed_question.qclass, 1);
}

#[test]
fn header_round_trip_all_fields() {
    let header = Header::create(0xBEEF, 1, 9, 1, 1, 1, 1, 5, 12, 7, 8, 9, 10);
    let parsed = Header::parse(&header.to_byte());
    assert_eq!(parsed.id, 0xBEEF);
    assert_eq!(parsed.qr(), 1);
    assert_eq!(parsed.opcode(), 9);
    assert_eq!(parsed.aa(), 1);
    assert_eq!(parsed.tc(), 1);
    assert_eq!(parsed.rd(), 1);
    assert_eq!(parsed.ra(), 1);
    assert_eq!(parsed.z(), 5);
    assert_eq!(parsed.rcode(), 12);
    assert_eq!(parsed.qd_count, 7);
    assert_eq!(parsed.an_count, 8);
    assert_eq!(parsed.ns_count, 9);
    assert_eq!(parsed.ar_count, 10);
    assert_eq!(parsed.flags, header.flags);
}

#[test]
fn header_create_masks_oversized_fields() {
    // Oversized field values are masked to their widths, so the round trip
    // still holds: qr=2 keeps only its low bit, opcode=255 its low 4 bits.
    let header = Header::create(1, 2, 255, 2, 2, 2, 2, 9, 255, 1, 0, 0, 0);
    assert_eq!(header.qr(), 0);
    assert_eq!(header.opcode(), 15);
    assert_eq!(header.aa(), 0);
    assert_eq!(header.tc(), 0);
    assert_eq!(header.rd(), 0);
    assert_eq!(header.ra(), 0);
    assert_eq!(header.z(), 1);
    assert_eq!(header.rcode(), 15);
}

#[test]
fn name_round_trip_through_wire() {
    let question = Question::new("www.example.com", 1, 1).unwrap();
    let bytes = question.to_byte();
    let parsed = Question::parse(&bytes, 1).unwrap();
    assert_eq!(parsed.0[0].qname_dec, "www.example.com");
    assert_eq!(parsed.1, bytes.len());
}

#[test]
fn name_compression_pointer() {
    // "nyamikan.net" in wire form at offset 2, and at offset 16 a pointer
    // back to it: decoding at the pointer yields the name and consumes only
    // the pointer's own two bytes.
    let mut msg: Vec<u8> = vec![0, 0];
    msg.extend_from_slice(&[8]);
    msg.extend_from_slice(b"nyamikan");
    msg.extend_from_slice(&[3]);
    msg.extend_from_slice(b"net");
    msg.push(0);
    let pointer_at = msg.len();
    msg.push(0xC0);
    msg.push(0x02);

    let (name, end) = read_name(&msg, &msg, pointer_at).unwrap();
    assert_eq!(name, "nyamikan.net");
    assert_eq!(end - pointer_at, 2);
}

#[test]
fn name_compression_loop_detected() {
    // A pointer that points at itself must be reported, not followed
    // forever.
    let msg: Vec<u8> = vec![0xC0, 0x00];
    let err = read_name(&msg, &msg, 0).unwrap_err();
    assert_eq!(err, ParseError::CompressionLoop);
}

#[test]
fn name_label_too_long_rejected() {
    let long_label = "x".repeat(64);
    let err = Question::new(&long_label, 1, 1).unwrap_err();
    assert_eq!(err, ParseError::LabelTooLong);
    // 63 bytes is still accepted.
    let ok_label = "x".repeat(63);
    assert!(Question::new(&ok_label, 1, 1).is_ok());
}

#[test]
fn question_truncated_input() {
    // The name ends, but the four type and class bytes are missing.
    let bytes = vec![1, 0x61, 0];
    let err = Question::parse(&bytes, 1).unwrap_err();
    assert_eq!(err, ParseError::TruncatedInput);
}

fn record_bytes(name: &[u8], rr_type: u16, ttl: u32, rdata: &[u8]) -> Vec<u8> {
    let mut out = Vec::new();
    out.extend_from_slice(name);
    out.extend_from_slice(&[(rr_type / 256) as u8, (rr_type % 256) as u8]);
    out.extend_from_slice(&[0, 1]);
    out.extend_from_slice(&[
        (ttl >> 24) as u8,
        (ttl >> 16) as u8,
        (ttl >> 8) as u8,
        ttl as u8,
    ]);
    let rdlength = rdata.len() as u16;
    out.extend_from_slice(&[(rdlength / 256) as u8, (rdlength % 256) as u8]);
    out.extend_from_slice(rdata);
    out
}

#[test]
fn a_record_dotted_quad() {
    let rec = record_bytes(&[3, 0x77, 0x77, 0x77, 0], 1, 3600, &[192, 0, 2, 7]);
    let records = Resource::parse(&rec, &rec, 1).unwrap();
    let r = &records[0];
    assert_eq!(r.name, "www");
    assert_eq!(r.rr_type, 1);
    assert_eq!(r.data_class, 1);
    assert_eq!(r.ttl, 3600);
    assert_eq!(r.rdlength, 4);
    assert_eq!(r.rdata, vec![192, 0, 2, 7]);
    match &r.address {
        dns_resolver::message::IpAddr::V4(s) => assert_eq!(s, "192.0.2.7"),
        _ => panic!("expected a V4 address"),
    }
}

#[test]
fn a_record_wrong_length_leaves_address_empty() {
    // A malformed single A record must not abort the batch: its address
    // view stays empty.
    let rec = record_bytes(&[0], 1, 0, &[10, 0, 1]);
    let records = Resource::parse(&rec, &rec, 1).unwrap();
    match &records[0].address {
        dns_resolver::message::IpAddr::V4(s) => assert_eq!(s, ""),
        _ => panic!("expected the empty V4 sentinel"),
    }
}

#[test]
fn aaaa_record_hex_groups() {
    let rdata: [u8; 16] = [
        0x20, 0x01, 0x0d, 0xb8, 0, 0, 0, 0, 0, 0, 0, 0, 0, 0, 0, 0x01,
    ];
    let rec = record_bytes(&[0], 28, 60, &rdata);
    let records = Resource::parse(&rec, &rec, 1).unwrap();
    match &records[0].address {
        dns_resolver::message::IpAddr::V6(s) => assert_eq!(s, "2001:db8:0:0:0:0:0:1"),
        _ => panic!("expected a V6 address"),
    }
}

#[test]
fn cname_record_with_compression() {
    // The CNAME target is a pointer into the full message: the record's own
    // name at offset 0.
    let name: [u8; 6] = [4, 0x77, 0x69, 0x6b, 0x69, 0];
    let rec = record_bytes(&name, 5, 60, &[0xC0, 0x00]);
    let records = Resource::parse(&rec, &rec, 1).unwrap();
    assert_eq!(records[0].cname, "wiki");
    assert_eq!(records[0].name, "wiki");
}

#[test]
fn ns_record_name() {
    let rec = record_bytes(&[0], 2, 60, &[2, 0x6e, 0x73, 3, 0x6e, 0x65, 0x74, 0]);
    let records = Resource::parse(&rec, &rec, 1).unwrap();
    assert_eq!(records[0].nsdname, "ns.net");
}

#[test]
fn mx_record_preference_and_exchange() {
    let rec = record_bytes(&[0], 15, 60, &[0, 10, 4, 0x6d, 0x61, 0x69, 0x6c, 0]);
    let records = Resource::parse(&rec, &rec, 1).unwrap();
    assert_eq!(records[0].preference, 10);
    assert_eq!(records[0].exchange, "mail");
}

#[test]
fn mx_record_short_rdata_mismatch() {
    let rec = record_bytes(&[0], 15, 60, &[9]);
    let err = Resource::parse(&rec, &rec, 1).unwrap_err();
    assert_eq!(err, ParseError::RdataLengthMismatch);
}

#[test]
fn soa_record_fields() {
    let mut rdata: Vec<u8> = vec![1, 0x61, 0, 1, 0x62, 0];
    for v in [1u32, 2, 3, 4, 5] {
        rdata.extend_from_slice(&[(v >> 24) as u8, (v >> 16) as u8, (v >> 8) as u8, v as u8]);
    }
    let rec = record_bytes(&[0], 6, 60, &rdata);
    let records = Resource::parse(&rec, &rec, 1).unwrap();
    let r = &records[0];
    assert_eq!(r.mname, "a");
    assert_eq!(r.rname, "b");
    assert_eq!(r.serial, 1);
    assert_eq!(r.refresh, 2);
    assert_eq!(r.retry, 3);
    assert_eq!(r.expire, 4);
    assert_eq!(r.minimum, 5);
}

#[test]
fn txt_record_text() {
    let rec = record_bytes(&[0], 16, 60, &[5, 0x68, 0x65, 0x6c, 0x6c, 0x6f]);
    let records = Resource::parse(&rec, &rec, 1).unwrap();
    assert_eq!(records[0].txt_data, "hello");
}

#[test]
fn txt_record_short_rdata_mismatch() {
    let rec = record_bytes(&[0], 16, 60, &[6, 0x68, 0x69]);
    let err = Resource::parse(&rec, &rec, 1).unwrap_err();
    assert_eq!(err, ParseError::RdataLengthMismatch);
}

#[test]
fn records_truncated_input() {
    // The record claims more RDATA than the buffer holds.
    let rec = vec![0, 0, 1, 0, 1, 0, 0, 0, 0, 0, 9, 1, 2];
    let err = Resource::parse(&rec, &rec, 1).unwrap_err();
    assert_eq!(err, ParseError::TruncatedInput);
}

#[test]
fn txt_record_invalid_utf8_is_replaced() {
    // Bytes that are not valid UTF-8 decode with replacement characters,
    // not verbatim.
    let rec = record_bytes(&[0], 16, 60, &[2, 0xFF, 0xFE]);
    let records = Resource::parse(&rec, &rec, 1).unwrap();
    assert_eq!(records[0].txt_data, "\u{FFFD}\u{FFFD}");
}

#[test]
fn question_parse_zero_count_is_empty() {
    let bytes = vec![3, 0x77, 0x77, 0x77, 0];
    let parsed = Question::parse(&bytes, 0).unwrap();
    assert_eq!(parsed.0.len(), 0);
    assert_eq!(parsed.1, 0);
}

#[test]
fn name_round_trip_keeps_unicode() {
    // Labels are byte strings; multi-byte characters survive the encode and
    // decode unchanged.
    let question = Question::new("bücher.example", 1, 1).unwrap();
    let bytes = question.to_byte();
    let parsed = Question::parse(&bytes, 1).unwrap();
    assert_eq!(parsed.0[0].qname_dec, "bücher.example");
}
