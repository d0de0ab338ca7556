use bytes::Bytes;

use dns_server::header::Header;

#[test]
fn test_header_to_bytes() {
    let bytes_sample: [u8; 12] = [0x04, 0xd2, 0x80, 0, 0, 0, 0, 0, 0, 0, 0, 0];

    let header = Header {
        id: 1234,
        qdcount: 0,
        ancount: 0,
        nscount: 0,
        arcount: 0,
        qr: true,
        opcode: 0,
        aa: false,
        tc: false,
        rd: false,
        ra: false,
        z: 0,
        rcode: 0,
    };
    let bytes = header.to_bytes();
    assert_eq!(bytes, Bytes::copy_from_slice(&bytes_sample));
}

#[test]
fn test_header_from_bytes() {
    let bytes_sample: [u8; 12] = [0x04, 0xd2, 0x80, 0, 0, 0, 0, 0, 0, 0, 0, 0];

    let header_sample = Header {
        id: 1234,
        qdcount: 0,
        ancount: 0,
        nscount: 0,
        arcount: 0,
        qr: true,
        opcode: 0,
        aa: false,
        tc: false,
        rd: false,
        ra: false,
        z: 0,
        rcode: 0,
    };
    let (header, read) = Header::from_bytes(&Bytes::copy_from_slice(&bytes_sample)).unwrap();
    assert_eq!(header, header_sample);
    assert_eq!(read, 12);
}
