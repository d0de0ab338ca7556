use bytes::BytesMut;

use dns_server::answer::{Answer, RData};
use dns_server::handler::{accept_reply, build_response, handle_query, make_subquery};
use dns_server::header::Header;
use dns_server::parser::{to_datagram, Parser, UdpPacket};
use dns_server::question::{Question, QuestionClass, QuestionType};

fn decode(bytes: &[u8]) -> UdpPacket {
    let mut parser = Parser::new();
    let mut buf = BytesMut::new();
    buf.extend_from_slice(bytes);
    parser.decode(&mut buf).unwrap().unwrap()
}

#[test]
fn minimal_query_without_resolver() {
    let mut input: Vec<u8> = vec![
        0x04, 0xD2, 0x01, 0x00, 0x00, 0x01, 0x00, 0x00, 0x00, 0x00, 0x00, 0x00,
    ];
    input.extend_from_slice(&[
        0x0C, 0x63, 0x6F, 0x64, 0x65, 0x63, 0x72, 0x61, 0x66, 0x74, 0x65, 0x72, 0x73, 0x02, 0x69,
        0x6F, 0x00,
    ]);
    input.extend_from_slice(&[0x00, 0x01, 0x00, 0x01]);

    let response = handle_query(decode(&input));
    let datagram = to_datagram(response);
    assert_eq!(
        &datagram[..12],
        &[0x04, 0xD2, 0x81, 0x00, 0x00, 0x01, 0x00, 0x01, 0x00, 0x00, 0x00, 0x00][..]
    );
    let tail = &datagram[datagram.len() - 14..];
    assert_eq!(
        tail,
        &[0x00, 0x01, 0x00, 0x01, 0x00, 0x00, 0x0E, 0x10, 0x00, 0x04, 0x08, 0x08, 0x08, 0x08][..]
    );
}

#[test]
fn unknown_opcode_gets_notimp() {
    // OPCODE=2, QDCOUNT=0.
    let input: Vec<u8> = vec![
        0x12, 0x34, 0x10, 0x00, 0x00, 0x00, 0x00, 0x00, 0x00, 0x00, 0x00, 0x00,
    ];
    let response = handle_query(decode(&input));
    assert_eq!(response.header.rcode, 4);
    assert_eq!(response.header.ancount, 0);
    assert_eq!(response.header.id, 0x1234);
    assert_eq!(response.header.opcode, 2);
    assert!(response.header.qr);
}

#[test]
fn two_questions_two_answers_in_order() {
    let query = UdpPacket {
        header: Header::new(5, 2, 0, 0, 0, false, 0, false, false, true, false, 0, 0),
        question: vec![
            Question::new("one.example".to_string(), 1, 1),
            Question::new("two.example".to_string(), 1, 1),
        ],
        answer: Some(vec![]),
    };
    let response = handle_query(query);
    assert_eq!(response.header.ancount, 2);
    let answers = response.answer.unwrap();
    assert_eq!(answers.len(), 2);
    assert_eq!(answers[0].name, response.question[0].qname);
    assert_eq!(answers[1].name, response.question[1].qname);
    for a in &answers {
        assert_eq!(a.typ, QuestionType::A);
        assert_eq!(a.class, QuestionClass::IN);
        assert_eq!(a.ttl, 3600);
        assert_eq!(a.length, 4);
        assert_eq!(a.data, RData::A(8, 8, 8, 8));
    }
}

#[test]
fn pointer_label_is_echoed() {
    // Two questions; the second name is a bare pointer to offset 12.
    let mut input: Vec<u8> = vec![
        0x00, 0x2A, 0x01, 0x00, 0x00, 0x02, 0x00, 0x00, 0x00, 0x00, 0x00, 0x00,
    ];
    input.extend_from_slice(&[3, 119, 119, 119, 0]); // "www."
    input.extend_from_slice(&[0x00, 0x01, 0x00, 0x01]);
    input.extend_from_slice(&[0xC0, 0x0C]); // pointer to the first name
    input.extend_from_slice(&[0x00, 0x01, 0x00, 0x01]);

    let response = handle_query(decode(&input));
    let datagram = to_datagram(response);
    // The question section is echoed byte for byte, pointer included.
    assert_eq!(&datagram[12..input.len()], &input[12..]);
    assert_eq!(&datagram[21..23], &[0xC0, 0x0C][..]);
}

#[test]
fn subquery_carries_one_question() {
    let req = Header::new(77, 3, 0, 0, 0, false, 0, false, false, true, false, 0, 0);
    let q = Question::new("a.b".to_string(), 1, 1);
    let sub = make_subquery(&q, &req, 999);
    assert_eq!(sub.header.id, 999);
    assert_eq!(sub.header.qdcount, 1);
    assert_eq!(sub.header.ancount, 0);
    assert!(!sub.header.qr);
    assert!(sub.header.rd);
    assert_eq!(sub.question, vec![q]);
    assert_eq!(sub.answer, Some(vec![]));
}

#[test]
fn reply_id_must_match() {
    let reply = UdpPacket {
        header: Header::new(8, 0, 1, 0, 0, true, 0, false, false, false, false, 0, 0),
        question: vec![],
        answer: Some(vec![Answer::new(
            "x.y".to_string(),
            1,
            1,
            60,
            4,
            "1.2.3.4".to_string(),
        )]),
    };
    assert!(accept_reply(reply.clone(), 9).is_none());
    let taken = accept_reply(reply, 8).unwrap();
    assert_eq!(taken.len(), 1);
}

#[test]
fn failed_subquery_falls_back_to_synthetic() {
    let query = UdpPacket {
        header: Header::new(6, 1, 0, 0, 0, false, 0, false, false, true, false, 0, 0),
        question: vec![Question::new("lost.example".to_string(), 1, 1)],
        answer: Some(vec![]),
    };
    let response = build_response(query, vec![None]);
    assert_eq!(response.header.ancount, 1);
    let answers = response.answer.unwrap();
    assert_eq!(answers[0].data, RData::A(8, 8, 8, 8));
    assert_eq!(answers[0].ttl, 3600);
}

#[test]
fn upstream_answers_are_merged_in_order() {
    let query = UdpPacket {
        header: Header::new(6, 2, 0, 0, 0, false, 0, false, false, true, false, 0, 0),
        question: vec![
            Question::new("first.example".to_string(), 1, 1),
            Question::new("second.example".to_string(), 1, 1),
        ],
        answer: Some(vec![]),
    };
    let upstream = Answer::new("first.example".to_string(), 1, 1, 120, 4, "9.9.9.9".to_string());
    let response = build_response(query, vec![Some(vec![upstream.clone()]), Some(vec![])]);
    assert_eq!(response.header.ancount, 2);
    let answers = response.answer.unwrap();
    assert_eq!(answers[0], upstream);
    // The second slot brought no answers, so it gets the fallback.
    assert_eq!(answers[1].data, RData::A(8, 8, 8, 8));
}

#[test]
fn oversized_response_is_truncated_with_tc() {
    // 60 answers of 30 bytes each exceed 512 bytes by far.
    let name = "aaaaaaaaaa.bbbbbbbbbb".to_string();
    let mut answers: Vec<Answer> = Vec::new();
    for _ in 0..60 {
        answers.push(Answer::new(name.clone(), 1, 1, 3600, 4, "8.8.8.8".to_string()));
    }
    let packet = UdpPacket {
        header: Header::new(1, 1, 60, 0, 0, true, 0, false, false, false, false, 0, 0),
        question: vec![Question::new(name, 1, 1)],
        answer: Some(answers),
    };
    let datagram = to_datagram(packet);
    assert!(datagram.len() <= 512);
    // The TC bit is the second-lowest of the third byte.
    assert_eq!(datagram[2] & 0x02, 0x02);
    // The answer count was reduced to what fits.
    let ancount = u16::from_be_bytes([datagram[6], datagram[7]]);
    assert!(ancount < 60);
    assert!(ancount > 0);
}

#[test]
fn small_response_is_left_alone() {
    let packet = UdpPacket {
        header: Header::new(1, 0, 0, 0, 0, true, 0, false, false, false, false, 0, 0),
        question: vec![],
        answer: Some(vec![]),
    };
    let datagram = to_datagram(packet);
    assert_eq!(datagram.len(), 12);
    assert_eq!(datagram[2] & 0x02, 0);
}
