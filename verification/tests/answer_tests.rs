use bytes::Bytes;

use dns_server::DnsError;
use dns_server::answer::{Answer, RData};
use dns_server::name::{Label, LabelSequence};
use dns_server::question::{QuestionClass, QuestionType};

#[test]
fn test_rdata_from_string() {
    assert_eq!(RData::from(String::from("127.0.0.1")), RData::A(127, 0, 0, 1));
}

#[test]
fn rdata_from_wire_bytes() {
    assert_eq!(RData::from_bytes(&vec![127, 0, 0, 1]), Ok(RData::A(127, 0, 0, 1)));
    assert_eq!(RData::from_bytes(&vec![1, 2, 3]), Err(DnsError::UnsupportedRData));
}

#[test]
fn test_bytes_from_rdata() {
    assert_eq!(RData::A(127, 0, 0, 1).to_bytes(), Bytes::from_static(&[127, 0, 0, 1]));
}

#[test]
fn test_answer_new() {
    let answer = Answer::new(
        "codecrafters.io".to_string(),
        1,
        1,
        3600,
        4,
        "127.0.0.1".to_string(),
    );
    assert_eq!(
        answer,
        Answer {
            name: vec![
                Label::Sequence(LabelSequence {
                    content: b"codecrafters".to_vec(),
                    length: 12,
                }),
                Label::Sequence(LabelSequence {
                    content: b"io".to_vec(),
                    length: 2,
                }),
            ],
            typ: QuestionType::A,
            class: QuestionClass::IN,
            ttl: 3600,
            length: 4,
            data: RData::A(127, 0, 0, 1),
        }
    );
}

#[test]
fn test_answer_to_bytes() {
    let bytes_sample: [u8; 28] = [
        3, 119, 119, 119, 4, 116, 101, 115, 116, 3, 99, 111, 109, 0, 0, 1, 0, 1, 0, 0, 0, 0, 0, 4,
        127, 0, 0, 1,
    ];
    let answer = Answer::new(
        "www.test.com".to_string(),
        1,
        1,
        0,
        4,
        "127.0.0.1".to_string(),
    );
    let bytes = answer.to_bytes();
    assert_eq!(bytes, Bytes::copy_from_slice(&bytes_sample));
}
