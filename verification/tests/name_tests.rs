use dns_server::answer::RData;
use dns_server::name::{read_name, write_name, Label, LabelPointer, LabelSequence};

fn seq_label(text: &[u8]) -> Label {
    Label::Sequence(LabelSequence {
        content: text.to_vec(),
        length: text.len() as u8,
    })
}

#[test]
fn plain_name_round_trips_with_one_terminator() {
    let name = vec![seq_label(b"www"), seq_label(b"test"), seq_label(b"com")];
    let mut out: Vec<u8> = Vec::new();
    write_name(&mut out, &name);
    assert_eq!(out, b"\x03www\x04test\x03com\x00".to_vec());
    assert_eq!(out.last(), Some(&0u8));
    assert_ne!(out[out.len() - 2], 0u8);
    let (decoded, end) = read_name(&out, 0).unwrap();
    assert_eq!(decoded, name);
    assert_eq!(end, out.len());
}

#[test]
fn pointer_name_gets_no_terminator() {
    let name = vec![seq_label(b"www"), Label::Pointer(LabelPointer { pointer: 0x1234 })];
    let mut out: Vec<u8> = Vec::new();
    write_name(&mut out, &name);
    assert_eq!(out, vec![3, 119, 119, 119, 0xC0 | 0x12, 0x34]);
    let (decoded, end) = read_name(&out, 0).unwrap();
    assert_eq!(decoded, name);
    assert_eq!(end, out.len());
}

#[test]
fn empty_name_is_one_zero_byte() {
    let name: Vec<Label> = vec![];
    let mut out: Vec<u8> = Vec::new();
    write_name(&mut out, &name);
    assert_eq!(out, vec![0]);
    let (decoded, end) = read_name(&out, 0).unwrap();
    assert_eq!(decoded, name);
    assert_eq!(end, 1);
}

#[test]
fn ipv4_text_edge_values() {
    assert_eq!(RData::from("0.0.0.0".to_string()), RData::A(0, 0, 0, 0));
    assert_eq!(
        RData::from("255.255.255.255".to_string()),
        RData::A(255, 255, 255, 255)
    );
    assert_eq!(RData::from("8.8.8.8".to_string()), RData::A(8, 8, 8, 8));
}
