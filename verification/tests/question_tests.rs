use bytes::Bytes;

use dns_server::DnsError;
use dns_server::name::{Label, LabelPointer, LabelSequence};
use dns_server::question::{Question, QuestionClass, QuestionType};

#[test]
fn test_from_question_class_to_bytes() {
    assert_eq!(QuestionClass::IN.to_bytes(), Bytes::from_static(&[0, 1]));
    assert_eq!(QuestionClass::CS.to_bytes(), Bytes::from_static(&[0, 2]));
    assert_eq!(QuestionClass::CH.to_bytes(), Bytes::from_static(&[0, 3]));
    assert_eq!(QuestionClass::HS.to_bytes(), Bytes::from_static(&[0, 4]));
}

#[test]
fn test_from_16_to_question_class() {
    assert_eq!(QuestionClass::IN, QuestionClass::from(1));
    assert_eq!(QuestionClass::CS, QuestionClass::from(2));
    assert_eq!(QuestionClass::CH, QuestionClass::from(3));
    assert_eq!(QuestionClass::HS, QuestionClass::from(4));
}

#[test]
fn test_from_question_type_to_bytes() {
    assert_eq!(QuestionType::A.to_bytes(), Bytes::from_static(&[0, 1]));
    assert_eq!(QuestionType::AAAA.to_bytes(), Bytes::from_static(&[0, 28]));
    assert_eq!(QuestionType::NS.to_bytes(), Bytes::from_static(&[0, 2]));
    assert_eq!(QuestionType::CNAME.to_bytes(), Bytes::from_static(&[0, 5]));
    assert_eq!(QuestionType::SRV.to_bytes(), Bytes::from_static(&[0, 33]));
    assert_eq!(QuestionType::PTR.to_bytes(), Bytes::from_static(&[0, 12]));
}

#[test]
fn test_from_u16_to_question_type() {
    assert_eq!(QuestionType::A, QuestionType::from(1));
    assert_eq!(QuestionType::AAAA, QuestionType::from(28));
    assert_eq!(QuestionType::NS, QuestionType::from(2));
    assert_eq!(QuestionType::CNAME, QuestionType::from(5));
    assert_eq!(QuestionType::SRV, QuestionType::from(33));
    assert_eq!(QuestionType::PTR, QuestionType::from(12));
}

#[test]
fn test_new() {
    let question = Question::new("codecrafters.io".to_string(), 1, 1);
    assert_eq!(
        question.qname,
        vec![
            Label::Sequence(LabelSequence {
                content: b"codecrafters".to_vec(),
                length: 12,
            }),
            Label::Sequence(LabelSequence {
                content: b"io".to_vec(),
                length: 2,
            }),
        ]
    );
    assert_eq!(question.qtype, QuestionType::A);
    assert_eq!(question.qclass, QuestionClass::IN);
}

#[test]
fn test_question_to_bytes() {
    // The name ends with a pointer label, so no terminating zero octet is
    // appended before the type and class codes.
    let bytes_sample: [u8; 19] = [
        3,
        119,
        119,
        119,
        4,
        116,
        101,
        115,
        116,
        3,
        99,
        111,
        109,
        0b1100_0000 | 0x12,
        0x34,
        0,
        1,
        0,
        1,
    ];

    let question = Question {
        qname: vec![
            Label::Sequence(LabelSequence {
                content: b"www".to_vec(),
                length: 3,
            }),
            Label::Sequence(LabelSequence {
                content: b"test".to_vec(),
                length: 4,
            }),
            Label::Sequence(LabelSequence {
                content: b"com".to_vec(),
                length: 3,
            }),
            Label::Pointer(LabelPointer { pointer: 0x1234 }),
        ],
        qtype: QuestionType::A,
        qclass: QuestionClass::IN,
    };
    assert_eq!(question.to_bytes().as_ref(), bytes_sample);
}

#[test]
fn short_question_is_a_short_read() {
    // The name ends but the type and class fields are missing.
    let result = Question::from_bytes(&Bytes::copy_from_slice(&[3, 119, 119, 119, 0]));
    assert_eq!(result, Err(DnsError::ShortRead));
}

#[test]
fn test_question_from_bytes() {
    // The name ends at its first pointer label, so the decoder then reads
    // the bytes `4, 116` as the type code 0x0474, which is unrecognized.
    let bytes_sample: [u8; 22] = [
        3,
        119,
        119,
        119,
        0b1100_0000 | 0x12,
        0x34,
        4,
        116,
        101,
        115,
        116,
        3,
        99,
        111,
        109,
        0b1100_0000 | 0x12,
        0x34,
        0,
        0,
        1,
        0,
        1,
    ];

    let result = Question::from_bytes(&Bytes::copy_from_slice(&bytes_sample));
    assert_eq!(result, Err(DnsError::UnsupportedType));
}
