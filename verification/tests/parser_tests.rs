use bytes::BytesMut;

use dns_server::DnsError;
use dns_server::answer::Answer;
use dns_server::header::Header;
use dns_server::parser::{encode_packet, Parser, UdpPacket};
use dns_server::question::Question;

#[test]
fn test_parser() {
    // The header declares no questions and no answers, so the question
    // bytes that follow are ignored as trailing data.
    let mut parser = Parser::new();
    let mut buf = BytesMut::new();
    buf.extend_from_slice(&[
        0x04, 0xd2, 0x80, 0, 0, 0, 0, 0, 0, 0, 0, 0, 3, 119, 119, 119, 4, 116, 101, 115, 116, 3,
        99, 111, 109, 0, 0, 1, 0, 1, 3, 99, 111, 109, 0, 0, 1, 0, 1,
    ]);

    let packet = parser.decode(&mut buf);
    assert!(packet.is_ok());
    assert!(packet.as_ref().unwrap().is_some());
    assert_eq!(
        packet.unwrap().unwrap(),
        UdpPacket {
            header: Header::new(1234, 0, 0, 0, 0, true, 0, false, false, false, false, 0, 0),
            question: vec![],
            answer: Some(vec![]),
        }
    )
}

#[test]
fn short_datagram_yields_nothing() {
    let mut parser = Parser::new();
    let mut buf = BytesMut::new();
    buf.extend_from_slice(&[0x04, 0xd2, 0x80]);
    let packet = parser.decode(&mut buf);
    assert!(packet.is_ok());
    assert!(packet.unwrap().is_none());
    // A too-short buffer is left untouched for the caller to drop.
    assert_eq!(buf.len(), 3);
}

#[test]
fn truncated_question_section() {
    // The header declares one question but the datagram ends right after it.
    let mut parser = Parser::new();
    let mut buf = BytesMut::new();
    buf.extend_from_slice(&[0x04, 0xd2, 0x01, 0, 0, 1, 0, 0, 0, 0, 0, 0]);
    let packet = parser.decode(&mut buf);
    assert_eq!(packet, Err(DnsError::Truncated));
    assert_eq!(buf.len(), 0);
}

#[test]
fn invalid_label_is_rejected() {
    // 0x40 uses the reserved `01` top bits.
    let mut buf: Vec<u8> = vec![0x04, 0xd2, 0x01, 0, 0, 1, 0, 0, 0, 0, 0, 0, 0x40, 0];
    let mut parser = Parser::new();
    let mut bm = BytesMut::new();
    bm.extend_from_slice(&buf);
    assert_eq!(parser.decode(&mut bm), Err(DnsError::InvalidLabel));
    // An unrecognized question class is its own error.
    buf.truncate(12);
    buf.extend_from_slice(&[1, 120, 0, 0, 1, 0, 9]);
    let mut bm2 = BytesMut::new();
    bm2.extend_from_slice(&buf);
    assert_eq!(parser.decode(&mut bm2), Err(DnsError::UnsupportedClass));
}

#[test]
fn encode_appends_to_buffer() {
    let packet = UdpPacket {
        header: Header::new(7, 0, 0, 0, 0, false, 0, false, false, true, false, 0, 0),
        question: vec![],
        answer: Some(vec![]),
    };
    let mut parser = Parser::new();
    let mut dst = BytesMut::new();
    dst.extend_from_slice(&[0xAA]);
    parser.encode(packet, &mut dst).unwrap();
    assert_eq!(
        dst.as_ref(),
        &[0xAA, 0, 7, 0x01, 0, 0, 0, 0, 0, 0, 0, 0, 0][..]
    );
}

#[test]
fn unsupported_rdata_is_skipped() {
    // One answer of type NS: the record is consumed but dropped.
    let mut buf = BytesMut::new();
    buf.extend_from_slice(&[0x04, 0xd2, 0x80, 0, 0, 0, 0, 1, 0, 0, 0, 0]);
    buf.extend_from_slice(&[2, 110, 115, 0]); // name "ns."
    buf.extend_from_slice(&[0, 2, 0, 1]); // type NS, class IN
    buf.extend_from_slice(&[0, 0, 0, 60]); // ttl
    buf.extend_from_slice(&[0, 2, 1, 2]); // rdlength 2, rdata
    let mut parser = Parser::new();
    let packet = parser.decode(&mut buf).unwrap().unwrap();
    assert_eq!(packet.answer, Some(vec![]));
}

#[test]
fn message_round_trip() {
    let packet = UdpPacket {
        header: Header::new(99, 1, 1, 0, 0, true, 0, false, false, true, false, 0, 0),
        question: vec![Question::new("www.test.com".to_string(), 1, 1)],
        answer: Some(vec![Answer::new(
            "www.test.com".to_string(),
            1,
            1,
            3600,
            4,
            "8.8.8.8".to_string(),
        )]),
    };
    let encoded = encode_packet(&packet);
    let mut buf = BytesMut::new();
    buf.extend_from_slice(&encoded);
    let mut parser = Parser::new();
    let decoded = parser.decode(&mut buf).unwrap().unwrap();
    assert_eq!(decoded, packet);
}
