use dns_forwarder::answer::DnsAnswer;
use dns_forwarder::error::DnsError;
use dns_forwarder::header::{DnsHeader, QueryResponse};
use dns_forwarder::name::{name_to_bytes, parse_name};
use dns_forwarder::packet::DnsPacket;
use dns_forwarder::question::DnsQuestion;
use dns_forwarder::utils::{u16_from_big_endian, ToBigEndian};

fn labels(names: &[&str]) -> Vec<String> {
    names.iter().map(|s| s.to_string()).collect()
}

fn encode_name(names: &[&str]) -> Vec<u8> {
    let mut out = Vec::new();
    for n in names {
        out.push(n.len() as u8);
        out.extend_from_slice(n.as_bytes());
    }
    out.push(0);
    out
}

/// A query header with the given id and question count.
fn query_header(id: u16, qdcount: u16, ancount: u16) -> Vec<u8> {
    let mut h = vec![(id >> 8) as u8, id as u8, 0x01, 0x00];
    h.extend_from_slice(&[(qdcount >> 8) as u8, qdcount as u8]);
    h.extend_from_slice(&[(ancount >> 8) as u8, ancount as u8]);
    h.extend_from_slice(&[0, 0, 0, 0]);
    h
}

fn query(id: u16, names: &[&[&str]]) -> Vec<u8> {
    let mut b = query_header(id, names.len() as u16, 0);
    for n in names {
        b.extend(encode_name(n));
        b.extend_from_slice(&[0, 1, 0, 1]);
    }
    b
}

/// What an upstream resolver would send back for a one-question request.
fn echoed_reply(request: &DnsPacket, address: [u8; 4]) -> DnsPacket {
    let mut header = request.header;
    header.qr = QueryResponse::Response;
    header.ancount = 1;
    DnsPacket {
        header,
        questions: request.questions.clone(),
        answers: vec![DnsAnswer {
            name: request.questions[0].names.clone(),
            atype: 1,
            aclass: 1,
            ttl: 60,
            rdlength: 4,
            rdata: address.to_vec(),
        }],
    }
}

#[test]
fn big_endian_u16() {
    assert_eq!(0x1234u16.to_big_endian(), vec![0x12, 0x34]);
    assert_eq!(u16_from_big_endian(0x12, 0x34), 0x1234);
}

#[test]
fn big_endian_u32() {
    assert_eq!(0x0102_0304u32.to_big_endian(), vec![1, 2, 3, 4]);
    assert_eq!(60u32.to_big_endian(), vec![0, 0, 0, 60]);
}

#[test]
fn header_fields_from_bytes() {
    let bytes = [0x12, 0x34, 0x81, 0x80, 0, 2, 0, 3, 0, 4, 0, 5];
    let h = DnsHeader::new(&bytes).unwrap();
    assert_eq!(h.id, 0x1234);
    assert_eq!(h.qr, QueryResponse::Response);
    assert_eq!(h.opcode, 0);
    assert_eq!((h.aa, h.tc, h.rd), (0, 0, 1));
    assert_eq!((h.ra, h.z, h.rcode), (1, 0, 0));
    assert_eq!((h.qdcount, h.ancount, h.nscount, h.arcount), (2, 3, 4, 5));
}

#[test]
fn header_round_trip_all_bits() {
    for (b2, b3) in [(0xffu8, 0xffu8), (0x00, 0x00), (0x7a, 0x5c), (0xa5, 0x3b)] {
        let bytes = vec![0xbe, 0xef, b2, b3, 1, 2, 3, 4, 5, 6, 7, 8];
        let h = DnsHeader::new(&bytes).unwrap();
        assert_eq!(h.to_bytes(), bytes);
    }
}

#[test]
fn header_serialize_then_parse() {
    let h = DnsHeader {
        id: 7,
        qr: QueryResponse::Response,
        opcode: 2,
        aa: 1,
        tc: 0,
        rd: 1,
        ra: 1,
        z: 5,
        rcode: 3,
        qdcount: 1,
        ancount: 2,
        nscount: 0,
        arcount: 9,
    };
    assert_eq!(DnsHeader::new(&h.to_bytes()).unwrap(), h);
    assert_eq!(h.to_bytes().len(), 12);
}

#[test]
fn header_too_short() {
    assert_eq!(DnsHeader::new(&[0; 11]), Err(DnsError::MalformedHeader));
    assert_eq!(DnsPacket::new(&[]).err(), Some(DnsError::MalformedHeader));
}

#[test]
fn flat_name_round_trip() {
    let bytes = encode_name(&["www", "example", "com"]);
    let (names, end) = parse_name(&bytes, 0).unwrap();
    assert_eq!(names, labels(&["www", "example", "com"]));
    assert_eq!(end, bytes.len());
    assert_eq!(name_to_bytes(&names), bytes);
}

#[test]
fn root_name_is_empty() {
    let (names, end) = parse_name(&[0], 0).unwrap();
    assert!(names.is_empty());
    assert_eq!(end, 1);
    assert_eq!(name_to_bytes(&names), vec![0]);
}

#[test]
fn pointer_resolves_to_earlier_label() {
    let mut buf = vec![0xaa, 0xbb];
    let x = buf.len();
    buf.extend(encode_name(&["example"]));
    buf.extend_from_slice(&[9, 9, 9]);
    let p = buf.len();
    buf.extend_from_slice(&[0xc0, x as u8, 0x77]);
    let (names, end) = parse_name(&buf, p).unwrap();
    assert_eq!(names, labels(&["example"]));
    assert_eq!(end, p + 2);
}

#[test]
fn labels_then_pointer() {
    let mut buf = encode_name(&["example", "com"]);
    let p = buf.len();
    buf.extend_from_slice(&[3, b'w', b'w', b'w', 0xc0, 0x00]);
    let (names, end) = parse_name(&buf, p).unwrap();
    assert_eq!(names, labels(&["www", "example", "com"]));
    assert_eq!(end, buf.len());
}

#[test]
fn pointer_high_bits_of_offset() {
    let mut buf = vec![0u8; 0x0105];
    buf.extend(encode_name(&["far"]));
    let p = buf.len();
    buf.extend_from_slice(&[0xc1, 0x05]);
    let (names, end) = parse_name(&buf, p).unwrap();
    assert_eq!(names, labels(&["far"]));
    assert_eq!(end, p + 2);
}

#[test]
fn pointer_loop_is_rejected() {
    assert_eq!(parse_name(&[0xc0, 0x00], 0), Err(DnsError::PointerLoop));
    assert_eq!(parse_name(&[0xc0, 0x02, 0xc0, 0x00], 0), Err(DnsError::PointerLoop));
}

#[test]
fn truncated_label_is_truncated_name() {
    assert_eq!(parse_name(&[5, b'a', b'b'], 0), Err(DnsError::TruncatedName));
    let mut packet = query_header(1, 1, 0);
    packet.extend_from_slice(&[7, b'e', b'x', b'a']);
    assert_eq!(DnsPacket::new(&packet).err(), Some(DnsError::TruncatedName));
}

#[test]
fn truncated_pointer_and_missing_terminator() {
    assert_eq!(parse_name(&[0xc0], 0), Err(DnsError::TruncatedName));
    assert_eq!(parse_name(&[1, b'a'], 0), Err(DnsError::TruncatedName));
    assert_eq!(parse_name(&[0, 0], 2), Err(DnsError::TruncatedName));
    assert_eq!(parse_name(&[0xc0, 0x09], 0), Err(DnsError::TruncatedName));
}

#[test]
fn invalid_label_encoding() {
    assert_eq!(parse_name(&[2, 0xff, 0xfe, 0], 0), Err(DnsError::InvalidLabelEncoding));
}

#[test]
fn utf8_label_kept() {
    let bytes = encode_name(&["caf\u{e9}"]);
    assert_eq!(bytes[0], 5);
    let (names, _) = parse_name(&bytes, 0).unwrap();
    assert_eq!(names, labels(&["caf\u{e9}"]));
    assert_eq!(name_to_bytes(&names), bytes);
}

#[test]
fn question_parse_and_serialize() {
    let mut buf = encode_name(&["a", "com"]);
    buf.extend_from_slice(&[0, 28, 0, 3]);
    let mut cursor = 0usize;
    let q = DnsQuestion::new(&buf, &mut cursor).unwrap();
    assert_eq!(q.names, labels(&["a", "com"]));
    assert_eq!((q.qtype, q.qclass), (1, 1));
    assert_eq!(cursor, buf.len());
    let mut expected = encode_name(&["a", "com"]);
    expected.extend_from_slice(&[0, 1, 0, 1]);
    assert_eq!(q.to_bytes(), expected);
}

#[test]
fn question_missing_fixed_fields() {
    let mut buf = encode_name(&["a"]);
    buf.extend_from_slice(&[0, 1, 0]);
    let mut cursor = 0usize;
    assert_eq!(
        DnsQuestion::new(&buf, &mut cursor).err(),
        Some(DnsError::TruncatedQuestionOrAnswer)
    );
    assert_eq!(cursor, 0);
}

#[test]
fn answer_parse_and_serialize() {
    let mut buf = encode_name(&["b", "com"]);
    buf.extend_from_slice(&[0, 1, 0, 1, 0, 0, 0x0e, 0x10, 0, 4, 10, 0, 0, 7]);
    let mut cursor = 0usize;
    let a = DnsAnswer::new(&buf, &mut cursor).unwrap();
    assert_eq!(a.name, labels(&["b", "com"]));
    assert_eq!((a.atype, a.aclass, a.ttl, a.rdlength), (1, 1, 60, 4));
    assert_eq!(a.rdata, vec![10, 0, 0, 7]);
    assert_eq!(cursor, buf.len());
    let mut expected = encode_name(&["b", "com"]);
    expected.extend_from_slice(&[0, 1, 0, 1, 0, 0, 0, 60, 0, 4, 10, 0, 0, 7]);
    assert_eq!(a.to_bytes(), expected);
}

#[test]
fn answer_missing_address() {
    let mut buf = encode_name(&["b"]);
    buf.extend_from_slice(&[0, 1, 0, 1, 0, 0, 0, 60, 0, 4, 10, 0]);
    let mut cursor = 0usize;
    assert_eq!(
        DnsAnswer::new(&buf, &mut cursor).err(),
        Some(DnsError::TruncatedQuestionOrAnswer)
    );
}

#[test]
fn parsed_counts_match_header() {
    let buf = query(9, &[&["a", "com"], &["b", "com"], &["c", "org"]]);
    let p = DnsPacket::new(&buf).unwrap();
    assert_eq!(p.questions.len(), p.header.qdcount as usize);
    assert_eq!(p.answers.len(), p.header.ancount as usize);
    assert_eq!(p.questions.len(), 3);
    assert_eq!(p.to_bytes(), buf);
}

#[test]
fn packet_with_compressed_answer() {
    let mut buf = query_header(5, 1, 1);
    buf[2] = 0x81;
    buf[3] = 0x80;
    buf.extend(encode_name(&["a", "com"]));
    buf.extend_from_slice(&[0, 1, 0, 1]);
    buf.extend_from_slice(&[0xc0, 12, 0, 1, 0, 1, 0, 0, 1, 0, 0, 4, 1, 2, 3, 4]);
    let p = DnsPacket::new(&buf).unwrap();
    assert_eq!(p.answers.len(), 1);
    assert_eq!(p.answers[0].name, labels(&["a", "com"]));
    assert_eq!(p.answers[0].rdata, vec![1, 2, 3, 4]);
    let mut expected = buf[..12].to_vec();
    expected.extend(encode_name(&["a", "com"]));
    expected.extend_from_slice(&[0, 1, 0, 1]);
    expected.extend(encode_name(&["a", "com"]));
    expected.extend_from_slice(&[0, 1, 0, 1, 0, 0, 0, 60, 0, 4, 1, 2, 3, 4]);
    assert_eq!(p.to_bytes(), expected);
}

#[test]
fn split_one_packet_per_question() {
    let buf = query(77, &[&["a", "com"], &["b", "com"]]);
    let p = DnsPacket::new(&buf).unwrap();
    let parts = p.split();
    assert_eq!(parts.len(), 2);
    for (i, part) in parts.iter().enumerate() {
        assert_eq!(part.header.qdcount, 1);
        assert_eq!(part.header.ancount, 0);
        assert_eq!(part.header.id, 77);
        assert_eq!(part.questions.len(), 1);
        assert_eq!(part.questions[0].names, p.questions[i].names);
        assert!(part.answers.is_empty());
    }
}

#[test]
fn two_question_forward_and_merge() {
    let buf = query(42, &[&["a", "com"], &["b", "com"]]);
    let request = DnsPacket::new(&buf).unwrap();
    let parts = request.split();
    let replies: Vec<DnsPacket> = parts
        .iter()
        .enumerate()
        .map(|(i, part)| {
            let wire = echoed_reply(part, [10, 0, 0, i as u8 + 1]).to_bytes();
            DnsPacket::new(&wire).unwrap()
        })
        .collect();
    let merged = DnsPacket::merge(replies).unwrap();
    assert_eq!(merged.header.qdcount, 2);
    assert_eq!(merged.header.ancount, 2);
    assert_eq!(merged.header.id, 42);
    assert_eq!(merged.header.qr, QueryResponse::Response);
    assert_eq!(merged.questions[0].names, labels(&["a", "com"]));
    assert_eq!(merged.questions[1].names, labels(&["b", "com"]));
    assert_eq!(merged.answers[0].name, labels(&["a", "com"]));
    assert_eq!(merged.answers[1].name, labels(&["b", "com"]));
    assert_eq!(merged.answers[0].rdata, vec![10, 0, 0, 1]);
    assert_eq!(merged.answers[1].rdata, vec![10, 0, 0, 2]);
}

#[test]
fn split_merge_keeps_order() {
    let names: [&[&str]; 4] = [&["w", "x"], &["y"], &["z", "q", "r"], &["m"]];
    let request = DnsPacket::new(&query(3, &names)).unwrap();
    let replies: Vec<DnsPacket> =
        request.split().iter().map(|part| echoed_reply(part, [1, 1, 1, 1])).collect();
    let merged = DnsPacket::merge(replies).unwrap();
    assert_eq!(merged.header.qdcount, 4);
    assert_eq!(merged.header.ancount, 4);
    for (i, n) in names.iter().enumerate() {
        assert_eq!(merged.questions[i].names, labels(n));
        assert_eq!(merged.answers[i].name, labels(n));
    }
}

#[test]
fn empty_answer_reply_merges() {
    let request = DnsPacket::new(&query(8, &[&["a", "com"], &["b", "com"]])).unwrap();
    let parts = request.split();
    let first = echoed_reply(&parts[0], [9, 9, 9, 9]);
    let mut second = parts[1].clone();
    second.header.qr = QueryResponse::Response;
    let second = DnsPacket::new(&second.to_bytes()).unwrap();
    assert_eq!(second.header.ancount, 0);
    let merged = DnsPacket::merge(vec![first, second]).unwrap();
    assert_eq!(merged.questions.len(), 2);
    assert_eq!(merged.answers.len(), 1);
    assert_eq!(merged.header.qdcount, 2);
    assert_eq!(merged.header.ancount, 1);
    assert_eq!(merged.answers[0].name, labels(&["a", "com"]));
}

#[test]
fn merge_of_nothing_is_an_error() {
    assert_eq!(DnsPacket::merge(vec![]).err(), Some(DnsError::EmptyMerge));
}
