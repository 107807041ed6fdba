use dnsresolvr::probe::{bind_addr, next_id, ProbeError};
use dnsresolvr::transport::{
    build_query, decode_response, frame, frame_len, outcome_of, RecordType, TransportKind,
};
use dnsresolvr::wire::Reply;

#[test]
fn ids_skip_zero_and_wrap() {
    let mut c = 1u16;
    assert_eq!(next_id(&mut c), 1);
    assert_eq!(next_id(&mut c), 2);
    c = u16::MAX;
    assert_eq!(next_id(&mut c), u16::MAX);
    assert_eq!(c, 0);
    assert_eq!(next_id(&mut c), 1);
    assert_eq!(c, 2);
}

#[test]
fn an_id_comes_back_after_all_others() {
    let mut c = 7u16;
    let first = next_id(&mut c);
    for _ in 1..65535u32 {
        assert_ne!(next_id(&mut c), first);
    }
    assert_eq!(next_id(&mut c), first);
}

#[test]
fn kinds_have_labels_and_are_named() {
    assert_eq!(TransportKind::Udp.label(), "UDP");
    assert_eq!(TransportKind::Dot.label(), "DoT");
    assert_eq!(TransportKind::Doh.label(), "DoH");
    for k in [TransportKind::Udp, TransportKind::Dot, TransportKind::Doh] {
        assert_eq!(TransportKind::parse(k.label()), Some(k));
    }
    assert_eq!(TransportKind::parse("TLS"), Some(TransportKind::Dot));
    assert_eq!(TransportKind::parse("https"), Some(TransportKind::Doh));
    assert_eq!(TransportKind::parse("tcp"), None);
}

#[test]
fn a_query_asks_one_question_with_recursion() {
    let mut c = 0x1234u16;
    let (id, bytes) = build_query("example.com", RecordType::a(), &mut c).unwrap();
    assert_eq!(id, 0x1234);
    assert_eq!(c, 0x1235);
    assert_eq!(
        bytes,
        vec![
            0x12, 0x34, 0x01, 0x00, 0, 1, 0, 0, 0, 0, 0, 0, 7, b'e', b'x', b'a', b'm', b'p', b'l', b'e', 3, b'c', b'o',
            b'm', 0, 0, 1, 0, 1,
        ]
    );
}

#[test]
fn a_query_names_the_type_it_asks_for() {
    let mut c = 0xfffeu16;
    let (id, bytes) = build_query("", RecordType { code: 0x0102 }, &mut c).unwrap();
    assert_eq!(id, 0xfffe);
    assert_eq!(bytes, vec![0xff, 0xfe, 1, 0, 0, 1, 0, 0, 0, 0, 0, 0, 0, 1, 2, 0, 1]);
}

#[test]
fn a_bad_name_uses_up_no_id() {
    let mut c = 9u16;
    let label = "a".repeat(64);
    match build_query(&label, RecordType::a(), &mut c) {
        Err(ProbeError::BadName(text)) => assert!(!text.is_empty()),
        other => panic!("{:?}", other),
    }
    assert_eq!(c, 9);
}

fn reply_bytes(id: u16, rcode: u8, answers: &[[u8; 4]]) -> Vec<u8> {
    let mut v = id.to_be_bytes().to_vec();
    v.extend_from_slice(&[0x81, 0x80 | rcode, 0, 1, 0, answers.len() as u8, 0, 0, 0, 0]);
    v.extend_from_slice(&[1, b'a', 1, b'b', 0, 0, 1, 0, 1]);
    for a in answers {
        v.extend_from_slice(&[0xc0, 0x0c, 0, 1, 0, 1, 0, 0, 0, 60, 0, 4]);
        v.extend_from_slice(a);
    }
    v
}

#[test]
fn a_reply_gives_code_and_answers() {
    let o = decode_response(&reply_bytes(77, 0, &[[1, 2, 3, 4], [5, 6, 7, 8]]), 77).unwrap();
    assert_eq!(o.rcode, 0);
    assert_eq!(o.answer_count, 2);
    assert!(o.rtt.is_zero());
    assert!(o.first_answer.unwrap().contains("1.2.3.4"));
    let o = decode_response(&reply_bytes(77, 3, &[]), 77).unwrap();
    assert_eq!(o.rcode, 3);
    assert_eq!(o.answer_count, 0);
    assert_eq!(o.first_answer, None);
}

/// A reply with the given records in its answer section.
fn reply_with(records: &[Vec<u8>]) -> Vec<u8> {
    let mut v = vec![0, 7, 0x81, 0x80, 0, 1, 0, records.len() as u8, 0, 0, 0, 0];
    v.extend_from_slice(&[1, b'a', 1, b'b', 0, 0, 1, 0, 1]);
    for r in records {
        v.extend_from_slice(r);
    }
    v
}

fn address_record() -> Vec<u8> {
    vec![0xc0, 0x0c, 0, 1, 0, 1, 0, 0, 0, 60, 0, 4, 1, 2, 3, 4]
}

fn pseudo_record() -> Vec<u8> {
    vec![0, 0, 41, 0x04, 0xd0, 0, 0, 0, 0, 0, 4, 0, 12, 0, 0]
}

fn authorization_record(value: &[u8]) -> Vec<u8> {
    let mut v = vec![0xc0, 0x0c, 1, 1, 0, 1, 0, 0, 0, 60, 0, 5 + value.len() as u8, 0, 3, b'z', b'z', b'z'];
    v.extend_from_slice(value);
    v
}

#[test]
fn an_extension_record_holds_the_upper_bits_of_the_code() {
    let mut v = reply_bytes(7, 5, &[[1, 2, 3, 4]]);
    v[11] = 1;
    v.extend_from_slice(&[0, 0, 41, 0x04, 0xd0, 0x12, 0, 0, 0, 0, 0]);
    let o = decode_response(&v, 7).unwrap();
    assert_eq!((o.rcode, o.answer_count), (0x125, 1));
}

#[test]
fn the_answers_are_as_many_as_the_header_gives() {
    let mut v = reply_bytes(7, 0, &[[1, 2, 3, 4], [5, 6, 7, 8]]);
    v[7] = 1;
    assert_eq!(decode_response(&v, 7).unwrap().answer_count, 1);
    v[7] = 3;
    assert!(matches!(decode_response(&v, 7), Err(ProbeError::Decode(_))));
}

#[test]
fn the_first_answer_is_shown() {
    let o = decode_response(&reply_with(&[address_record()]), 7).unwrap();
    assert_eq!(o.first_answer, Some("a.b. 60 IN A 1.2.3.4".to_string()));
}

#[test]
fn an_answer_without_text_is_counted() {
    let o = decode_response(&reply_with(&[pseudo_record()]), 7).unwrap();
    assert_eq!((o.rcode, o.answer_count, o.first_answer), (0, 1, None));
    let o = decode_response(&reply_with(&[authorization_record(&[0xff, 0xfe])]), 7).unwrap();
    assert_eq!((o.answer_count, o.first_answer), (1, None));
    let o = decode_response(&reply_with(&[authorization_record(b"text")]), 7).unwrap();
    assert!(o.first_answer.unwrap().contains("zzz"));
    let o = decode_response(&reply_with(&[address_record(), pseudo_record()]), 7).unwrap();
    assert_eq!((o.answer_count, o.first_answer), (2, Some("a.b. 60 IN A 1.2.3.4".to_string())));
}

#[test]
fn a_reply_to_another_query_is_refused() {
    match decode_response(&reply_bytes(0x0102, 0, &[]), 0x0103) {
        Err(ProbeError::IdMismatch { sent, got }) => assert_eq!((sent, got), (0x0103, 0x0102)),
        other => panic!("{:?}", other),
    }
}

#[test]
fn bytes_that_are_no_message_are_refused() {
    match decode_response(&[1, 2, 3], 1) {
        Err(ProbeError::Decode(text)) => assert!(!text.is_empty()),
        other => panic!("{:?}", other),
    }
}

#[test]
fn a_reply_decides_the_outcome() {
    let reply = Reply { id: 5, rcode: 2, answers: vec![Some("x".to_string()), Some("y".to_string())] };
    let o = outcome_of(reply, 5).unwrap();
    assert_eq!((o.rcode, o.answer_count, o.first_answer), (2, 2, Some("x".to_string())));
    let reply = Reply { id: 5, rcode: 0, answers: vec![None, Some("y".to_string())] };
    let o = outcome_of(reply, 5).unwrap();
    assert_eq!((o.answer_count, o.first_answer), (2, None));
    let reply = Reply { id: 5, rcode: 2, answers: Vec::new() };
    assert!(matches!(outcome_of(reply, 6), Err(ProbeError::IdMismatch { sent: 6, got: 5 })));
}

#[test]
fn frames_carry_the_length() {
    let message = vec![7u8; 300];
    let framed = frame(&message);
    assert_eq!(framed[..2], [1, 44]);
    assert_eq!(framed[2..], message[..]);
    assert_eq!(frame_len(framed[0], framed[1]), 300);
    assert_eq!(frame(&Vec::new()), vec![0, 0]);
    assert_eq!(frame_len(0xff, 0xff), 65535);
}

#[test]
fn sockets_bind_to_the_family_of_the_resolver() {
    assert_eq!(bind_addr(true), "0.0.0.0:0");
    assert_eq!(bind_addr(false), "[::]:0");
}
