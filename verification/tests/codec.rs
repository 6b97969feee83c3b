use dns_proto::compress::NameWriter;
use dns_proto::compress::encode_compressed;
use dns_proto::decode::decode;
use dns_proto::decode::decode_name;
use dns_proto::encode::encode;
use dns_proto::error::DecodeErrorKind;
use dns_proto::error::DnsError;
use dns_proto::message::Header;
use dns_proto::message::Message;
use dns_proto::message::Question;
use dns_proto::message::Record;
use dns_proto::name::DomainName;

fn name_of(labels: &[&[u8]]) -> DomainName {
    let v: Vec<Vec<u8>> = labels.iter().map(|l| l.to_vec()).collect();
    DomainName::from_labels(v).expect("well-formed name")
}

fn query_example(id: u16) -> Message {
    let q = Question { name: name_of(&[b"example", b"test"]), qtype: 1, qclass: 1 };
    Message::new_query(id, q)
}

#[test]
fn encode_scenario_header_and_question() {
    // id 0x1234, one question (example.test, A, IN), zero answers.
    let m = query_example(0x1234);
    let bytes = encode(&m).expect("encodes");
    assert_eq!(bytes.len(), 30);
    // Header: id, flags (only RD set), counts 1/0/0/0.
    assert_eq!(&bytes[0..12], &[0x12, 0x34, 0x01, 0x00, 0, 1, 0, 0, 0, 0, 0, 0]);
    // Question: 7"example" 4"test" 0, type A (1), class IN (1).
    assert_eq!(&bytes[12..21], &[7, b'e', b'x', b'a', b'm', b'p', b'l', b'e', 4]);
    assert_eq!(&bytes[21..26], &[b't', b'e', b's', b't', 0]);
    assert_eq!(&bytes[26..30], &[0, 1, 0, 1]);

    let back = decode(&bytes).expect("decodes");
    assert_eq!(back.header.id, 0x1234);
    assert!(!back.header.response);
    assert!(back.header.recursion_desired);
    assert_eq!(back.questions.len(), 1);
    assert_eq!(back.answers.len(), 0);
    assert_eq!(back.authorities.len(), 0);
    assert_eq!(back.additionals.len(), 0);
    let q = &back.questions[0];
    assert_eq!(q.qtype, 1);
    assert_eq!(q.qclass, 1);
    assert!(q.name.eq_ignore_case(&name_of(&[b"example", b"test"])));
    assert_eq!(q.name.label_count(), 2);
    assert_eq!(q.name.label_at(0), &b"example".to_vec());
    assert_eq!(q.name.label_at(1), &b"test".to_vec());
}

#[test]
fn round_trip_with_records() {
    let header = Header {
        id: 0xBEEF,
        response: true,
        opcode: 0,
        authoritative: true,
        truncated: false,
        recursion_desired: true,
        recursion_available: true,
        rcode: 0,
    };
    let q = Question { name: name_of(&[b"www", b"example", b"test"]), qtype: 1, qclass: 1 };
    let answer = Record {
        name: name_of(&[b"www", b"example", b"test"]),
        rtype: 1,
        rclass: 1,
        ttl: 3600,
        rdata: vec![192, 0, 2, 33],
    };
    let authority = Record {
        name: name_of(&[b"example", b"test"]),
        rtype: 2,
        rclass: 1,
        ttl: 7200,
        rdata: vec![2, b'n', b's', 0],
    };
    let m = Message {
        header,
        questions: vec![q],
        answers: vec![answer],
        authorities: vec![authority],
        additionals: vec![],
    };
    let bytes = encode(&m).expect("encodes");
    let back = decode(&bytes).expect("decodes");
    assert_eq!(back.header, m.header);
    assert_eq!(back.questions.len(), 1);
    assert_eq!(back.answers.len(), 1);
    assert_eq!(back.authorities.len(), 1);
    assert_eq!(back.additionals.len(), 0);
    assert_eq!(back.answers[0].rdata, vec![192, 0, 2, 33]);
    assert_eq!(back.answers[0].ttl, 3600);
    assert_eq!(back.answers[0].rtype, 1);
    assert!(back.authorities[0].name.eq_ignore_case(&name_of(&[b"example", b"test"])));
    assert_eq!(back.authorities[0].rdata, vec![2, b'n', b's', 0]);
}

#[test]
fn decode_accepts_backward_pointer() {
    // Two questions; the second name is a pointer to the first (offset 12).
    let mut bytes = vec![0xAB, 0xCD, 0x01, 0x00, 0, 2, 0, 0, 0, 0, 0, 0];
    bytes.extend_from_slice(&[7, b'e', b'x', b'a', b'm', b'p', b'l', b'e', 4, b't', b'e', b's',
        b't', 0, 0, 1, 0, 1]);
    bytes.extend_from_slice(&[0xC0, 12, 0, 1, 0, 1]);
    let m = decode(&bytes).expect("decodes");
    assert_eq!(m.questions.len(), 2);
    assert!(m.questions[0].name.eq_ignore_case(&m.questions[1].name));
    assert_eq!(m.questions[1].name.label_at(0), &b"example".to_vec());
}

#[test]
fn decode_rejects_forward_pointer() {
    // A pointer that does not move strictly backward is rejected.
    let mut bytes = vec![0, 1, 0x01, 0x00, 0, 1, 0, 0, 0, 0, 0, 0];
    bytes.extend_from_slice(&[0xC0, 12, 0, 1, 0, 1]);
    assert_eq!(decode(&bytes).err(), Some(DnsError::Decode(DecodeErrorKind::BadPointer)));
}

#[test]
fn decode_rejects_pointer_loop() {
    // A two-pointer cycle: each points at the other; the second hop is
    // not strictly backward, so decoding fails instead of looping.
    let mut bytes = vec![0, 1, 0x01, 0x00, 0, 1, 0, 0, 0, 0, 0, 0];
    bytes.extend_from_slice(&[0xC0, 14, 0, 0xC0, 12, 0, 1, 0, 1]);
    match decode(&bytes) {
        Err(DnsError::Decode(_)) => {}
        other => panic!("expected a decode failure, got {:?}", other.is_ok()),
    }
}

#[test]
fn decode_rejects_truncated_buffers() {
    assert_eq!(
        decode(&[0, 1, 0, 0]).err(),
        Some(DnsError::Decode(DecodeErrorKind::Truncated))
    );
    // Counts promise a question the bytes do not hold.
    let bytes = vec![0, 1, 0x01, 0x00, 0, 1, 0, 0, 0, 0, 0, 0];
    assert_eq!(decode(&bytes).err(), Some(DnsError::Decode(DecodeErrorKind::Truncated)));
}

#[test]
fn decode_rejects_count_mismatch() {
    // Zero questions announced but bytes remain.
    let mut bytes = vec![0, 1, 0x01, 0x00, 0, 0, 0, 0, 0, 0, 0, 0];
    bytes.push(0);
    assert_eq!(decode(&bytes).err(), Some(DnsError::Decode(DecodeErrorKind::CountMismatch)));
}

#[test]
fn decode_rejects_reserved_label_tag() {
    let mut bytes = vec![0, 1, 0x01, 0x00, 0, 1, 0, 0, 0, 0, 0, 0];
    bytes.extend_from_slice(&[0x80, 0, 0, 1, 0, 1]);
    assert_eq!(decode(&bytes).err(), Some(DnsError::Decode(DecodeErrorKind::BadLabel)));
}

#[test]
fn decode_rejects_overlong_name() {
    // Four 63-octet labels exceed the 255-octet name bound.
    let mut bytes = vec![0, 1, 0x01, 0x00, 0, 1, 0, 0, 0, 0, 0, 0];
    for _ in 0..4 {
        bytes.push(63);
        bytes.extend_from_slice(&[b'a'; 63]);
    }
    bytes.push(0);
    bytes.extend_from_slice(&[0, 1, 0, 1]);
    assert_eq!(decode(&bytes).err(), Some(DnsError::Decode(DecodeErrorKind::NameTooLong)));
}

#[test]
fn encode_rejects_bad_messages() {
    let mut m = query_example(7);
    m.header.opcode = 16;
    match encode(&m) {
        Err(DnsError::Encode(_)) => {}
        _ => panic!("opcode out of range must not encode"),
    }
    let mut m2 = query_example(8);
    m2.answers.push(Record {
        name: name_of(&[b"a"]),
        rtype: 1,
        rclass: 1,
        ttl: 0,
        rdata: vec![0; 70000],
    });
    match encode(&m2) {
        Err(DnsError::Encode(_)) => {}
        _ => panic!("oversized record data must not encode"),
    }
}

#[test]
fn name_rules() {
    // Labels must be 1..=63 octets and the name at most 255 in wire form.
    assert!(DomainName::from_labels(vec![vec![]]).is_none());
    assert!(DomainName::from_labels(vec![vec![b'a'; 64]]).is_none());
    assert!(DomainName::from_labels(vec![vec![b'a'; 63]; 4]).is_none());
    assert!(DomainName::from_labels(vec![vec![b'a'; 63]; 3]).is_some());
    // Case-insensitive equality.
    let a = name_of(&[b"ExAmPle", b"TEST"]);
    let b = name_of(&[b"example", b"test"]);
    let c = name_of(&[b"example", b"org"]);
    assert!(a.eq_ignore_case(&b));
    assert!(!a.eq_ignore_case(&c));
}

#[test]
fn ttl_clamps_negative_wire_values() {
    let rec = Record {
        name: name_of(&[b"a"]),
        rtype: 1,
        rclass: 1,
        ttl: 0x8000_0000,
        rdata: vec![],
    };
    assert_eq!(rec.ttl_clamped(), 0);
    let rec2 = Record { ttl: 300, ..rec };
    assert_eq!(rec2.ttl_clamped(), 300);
}

#[test]
fn compression_emits_backward_pointer() {
    let mut w = NameWriter::new();
    let long = name_of(&[b"www", b"example", b"test"]);
    let short = name_of(&[b"example", b"test"]);

    w.append_name(&long).expect("well-formed");
    let off2 = w.len();
    assert_eq!(off2, 18); // 4 + 8 + 5 + root octet

    // The second occurrence of example.test becomes a 2-byte pointer,
    // shorter than its 14-byte uncompressed form.
    w.append_name(&short).expect("well-formed");
    assert_eq!(w.len() - off2, 2);
    assert_eq!(w.bytes()[off2], 0xC0);
    assert_eq!(w.bytes()[off2 + 1], 4);

    // Both names read back intact.
    let (n1, e1) = decode_name(w.bytes(), 0).expect("parses");
    assert!(n1.eq_bytes(&long));
    assert_eq!(e1, 18);
    let (n2, e2) = decode_name(w.bytes(), off2).expect("parses");
    assert!(n2.eq_bytes(&short));
    assert_eq!(e2, 20);

    // Suffixes were recorded too: a later bare suffix also compresses.
    let off3 = w.len();
    w.append_name(&name_of(&[b"test"])).expect("well-formed");
    assert_eq!(w.len() - off3, 2);
    let (n3, _) = decode_name(w.bytes(), off3).expect("parses");
    assert!(n3.eq_bytes(&name_of(&[b"test"])));
}

#[test]
fn compressed_message_is_smaller_and_decodes_back() {
    let header = Header {
        id: 0x0A0B,
        response: true,
        opcode: 0,
        authoritative: false,
        truncated: false,
        recursion_desired: true,
        recursion_available: true,
        rcode: 0,
    };
    let q = Question { name: name_of(&[b"www", b"example", b"test"]), qtype: 1, qclass: 1 };
    let mk_rec = |ip: u8| Record {
        name: name_of(&[b"www", b"example", b"test"]),
        rtype: 1,
        rclass: 1,
        ttl: 60,
        rdata: vec![192, 0, 2, ip],
    };
    let m = Message {
        header,
        questions: vec![q],
        answers: vec![mk_rec(1), mk_rec(2)],
        authorities: vec![],
        additionals: vec![],
    };
    let plain = encode(&m).expect("encodes");
    let packed = encode_compressed(&m).expect("encodes");
    assert!(packed.len() < plain.len());
    let back = decode(&packed).expect("decodes");
    assert_eq!(back.header, m.header);
    assert_eq!(back.answers.len(), 2);
    assert!(back.answers[0].name.eq_bytes(&m.answers[0].name));
    assert_eq!(back.answers[1].rdata, vec![192, 0, 2, 2]);
    // The record names became 2-byte pointers to the question's name.
    assert_eq!(plain.len() - packed.len(), 2 * (18 - 2));
}
