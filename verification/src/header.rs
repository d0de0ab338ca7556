//! The fixed 12-byte DNS header and its bit-packed flag field.

use vstd::prelude::*;

use bytes::Bytes;

use crate::DnsError;
use crate::bytesio::bytes_data;
use crate::bytesio::bytes_from_vec;
use crate::bytesio::bytes_to_vec;
use crate::wire::u16_hi;
use crate::wire::u16_lo;
use crate::wire::u16_of;
use crate::wire::write_u16;

verus! {

/// The DNS message header: identifier, flag bits and the four section counts.
#[derive(Debug, Clone, Copy, PartialEq, Eq, Structural)]
pub struct Header {
    pub id: u16,
    pub qdcount: u16,
    pub ancount: u16,
    pub nscount: u16,
    pub arcount: u16,
    pub qr: bool,
    pub opcode: u8,
    pub aa: bool,
    pub tc: bool,
    pub rd: bool,
    pub ra: bool,
    pub z: u8,
    pub rcode: u8,
}

pub open spec fn flag_bit(b: bool) -> u32 {
    if b {
        1
    } else {
        0
    }
}

/// The third header byte: `QR(1) OPCODE(4) AA(1) TC(1) RD(1)`, MSB first.
pub open spec fn flag_byte_hi(h: Header) -> u8 {
    ((flag_bit(h.qr) * 128 + (h.opcode as u32) * 8 + flag_bit(h.aa) * 4 + flag_bit(h.tc) * 2
        + flag_bit(h.rd)) % 256) as u8
}

/// The fourth header byte: `RA(1) Z(3) RCODE(4)`, MSB first.
pub open spec fn flag_byte_lo(h: Header) -> u8 {
    ((flag_bit(h.ra) * 128 + (h.z as u32) * 16 + (h.rcode as u32)) % 256) as u8
}

/// The fixed 12-byte wire encoding of a header.
pub open spec fn header_bytes(h: Header) -> Seq<u8> {
    seq![
        u16_hi(h.id),
        u16_lo(h.id),
        flag_byte_hi(h),
        flag_byte_lo(h),
        u16_hi(h.qdcount),
        u16_lo(h.qdcount),
        u16_hi(h.ancount),
        u16_lo(h.ancount),
        u16_hi(h.nscount),
        u16_lo(h.nscount),
        u16_hi(h.arcount),
        u16_lo(h.arcount),
    ]
}

/// Each flag field lies within its bit width: `opcode:4`, `z:3`, `rcode:4`.
pub open spec fn header_valid(h: Header) -> bool {
    h.opcode < 16 && h.z < 8 && h.rcode < 16
}

/// What decoding the first 12 bytes of a datagram yields.
pub open spec fn spec_parse_header(b: Seq<u8>) -> Result<(Header, int), DnsError> {
    if b.len() < 12 {
        Err(DnsError::ShortRead)
    } else {
        Ok(
            (
                Header {
                    id: u16_of(b[0], b[1]),
                    qr: b[2] / 128 == 1,
                    opcode: ((b[2] / 8) % 16) as u8,
                    aa: (b[2] / 4) % 2 == 1,
                    tc: (b[2] / 2) % 2 == 1,
                    rd: b[2] % 2 == 1,
                    ra: b[3] / 128 == 1,
                    z: ((b[3] / 16) % 8) as u8,
                    rcode: (b[3] % 16) as u8,
                    qdcount: u16_of(b[4], b[5]),
                    ancount: u16_of(b[6], b[7]),
                    nscount: u16_of(b[8], b[9]),
                    arcount: u16_of(b[10], b[11]),
                },
                12,
            ),
        )
    }
}

proof fn lemma_flag_hi_parts(q: u8, o: u8, a: u8, t: u8, r: u8)
    by (bit_vector)
    requires
        q < 2,
        o < 16,
        a < 2,
        t < 2,
        r < 2,
    ensures
        q * 128 + o * 8 + a * 4 + t * 2 + r < 256,
        (q * 128 + o * 8 + a * 4 + t * 2 + r) / 128 == q,
        ((q * 128 + o * 8 + a * 4 + t * 2 + r) / 8) % 16 == o,
        ((q * 128 + o * 8 + a * 4 + t * 2 + r) / 4) % 2 == a,
        ((q * 128 + o * 8 + a * 4 + t * 2 + r) / 2) % 2 == t,
        (q * 128 + o * 8 + a * 4 + t * 2 + r) % 2 == r,
{
}

proof fn lemma_flag_lo_parts(ra: u8, z: u8, rc: u8)
    by (bit_vector)
    requires
        ra < 2,
        z < 8,
        rc < 16,
    ensures
        ra * 128 + z * 16 + rc < 256,
        (ra * 128 + z * 16 + rc) / 128 == ra,
        ((ra * 128 + z * 16 + rc) / 16) % 8 == z,
        (ra * 128 + z * 16 + rc) % 16 == rc,
{
}

proof fn lemma_flag_hi_recompose(x: u8)
    by (bit_vector)
    ensures
        x / 128 < 2,
        (x / 8) % 16 < 16,
        ((x / 128) * 128 + ((x / 8) % 16) * 8 + ((x / 4) % 2) * 4 + ((x / 2) % 2) * 2 + x % 2)
            % 256 == x,
{
}

proof fn lemma_flag_lo_recompose(x: u8)
    by (bit_vector)
    ensures
        x / 128 < 2,
        (x / 16) % 8 < 8,
        ((x / 128) * 128 + ((x / 16) % 8) * 16 + x % 16) % 256 == x,
{
}

/// Law: re-encoding a decoded header reproduces the 12 bytes it came from.
pub proof fn lemma_header_reencode(b: Seq<u8>)
    ensures
        match spec_parse_header(b) {
            Ok((h, end)) => header_valid(h) && header_bytes(h) == b.subrange(0, 12),
            Err(e) => true,
        },
{
    if b.len() >= 12 {
        match spec_parse_header(b) {
            Ok((h, end)) => {
                lemma_flag_hi_recompose(b[2]);
                lemma_flag_lo_recompose(b[3]);
                assert(flag_bit(h.qr) == b[2] / 128);
                assert(flag_bit(h.aa) == (b[2] / 4) % 2);
                assert(flag_bit(h.tc) == (b[2] / 2) % 2);
                assert(flag_bit(h.rd) == b[2] % 2);
                assert(flag_bit(h.ra) == b[3] / 128);
                assert(flag_byte_hi(h) == b[2]);
                assert(flag_byte_lo(h) == b[3]);
                crate::wire::lemma_u16_of_parts(b[0], b[1]);
                crate::wire::lemma_u16_of_parts(b[4], b[5]);
                crate::wire::lemma_u16_of_parts(b[6], b[7]);
                crate::wire::lemma_u16_of_parts(b[8], b[9]);
                crate::wire::lemma_u16_of_parts(b[10], b[11]);
                assert(header_bytes(h) =~= b.subrange(0, 12));
            },
            Err(e) => {},
        }
    }
}

/// Law: a header whose flag fields lie within their bit widths decodes from
/// its own 12-byte encoding, whatever bytes follow it.
#[verifier::rlimit(60)]
pub proof fn lemma_header_round_trip(h: Header, rest: Seq<u8>)
    requires
        header_valid(h),
    ensures
        spec_parse_header(header_bytes(h) + rest) == Ok::<(Header, int), DnsError>((h, 12)),
{
    let b = header_bytes(h) + rest;
    let q: u8 = if h.qr {
        1
    } else {
        0
    };
    let a: u8 = if h.aa {
        1
    } else {
        0
    };
    let t: u8 = if h.tc {
        1
    } else {
        0
    };
    let r: u8 = if h.rd {
        1
    } else {
        0
    };
    let ra: u8 = if h.ra {
        1
    } else {
        0
    };
    lemma_flag_hi_parts(q, h.opcode, a, t, r);
    lemma_flag_lo_parts(ra, h.z, h.rcode);
    assert(b[2] == flag_byte_hi(h) && b[3] == flag_byte_lo(h));
    assert(flag_byte_hi(h) == q * 128 + h.opcode * 8 + a * 4 + t * 2 + r);
    assert(flag_byte_lo(h) == ra * 128 + h.z * 16 + h.rcode);
    crate::wire::lemma_u16_of_parts(u16_hi(h.id), u16_lo(h.id));
    crate::wire::lemma_u16_of_parts(u16_hi(h.qdcount), u16_lo(h.qdcount));
    crate::wire::lemma_u16_of_parts(u16_hi(h.ancount), u16_lo(h.ancount));
    crate::wire::lemma_u16_of_parts(u16_hi(h.nscount), u16_lo(h.nscount));
    crate::wire::lemma_u16_of_parts(u16_hi(h.arcount), u16_lo(h.arcount));
    crate::wire::lemma_u16_round_trip(h.id);
    crate::wire::lemma_u16_round_trip(h.qdcount);
    crate::wire::lemma_u16_round_trip(h.ancount);
    crate::wire::lemma_u16_round_trip(h.nscount);
    crate::wire::lemma_u16_round_trip(h.arcount);
}

impl Header {
    /// Builds a header from its thirteen fields.
    pub fn new(
        id: u16,
        qdcount: u16,
        ancount: u16,
        nscount: u16,
        arcount: u16,
        qr: bool,
        opcode: u8,
        aa: bool,
        tc: bool,
        rd: bool,
        ra: bool,
        z: u8,
        rcode: u8,
    ) -> (r: Header)
        ensures
            r == (Header {
                id,
                qdcount,
                ancount,
                nscount,
                arcount,
                qr,
                opcode,
                aa,
                tc,
                rd,
                ra,
                z,
                rcode,
            }),
    {
        Header { id, qdcount, ancount, nscount, arcount, qr, opcode, aa, tc, rd, ra, z, rcode }
    }

    /// Encodes this header into a `Bytes` buffer of exactly 12 bytes.
    pub fn to_bytes(&self) -> (r: Bytes)
        ensures
            bytes_data(r) == header_bytes(*self),
    {
        let mut out: Vec<u8> = Vec::new();
        write_header(&mut out, self);
        assert(out@ =~= header_bytes(*self));
        bytes_from_vec(out)
    }

    /// Decodes a header from the front of a `Bytes` buffer.
    pub fn from_bytes(b: &Bytes) -> (r: Result<(Header, usize), DnsError>)
        ensures
            match r {
                Ok((h, end)) => spec_parse_header(bytes_data(*b)) == Ok::<
                    (Header, int),
                    DnsError,
                >((h, end as int)) && header_valid(h),
                Err(e) => spec_parse_header(bytes_data(*b)) == Err::<(Header, int), DnsError>(e),
            },
    {
        let v = bytes_to_vec(b);
        read_header(&v)
    }
}

/// Appends the 12-byte encoding of a header.
pub fn write_header(out: &mut Vec<u8>, h: &Header)
    ensures
        final(out)@ == old(out)@ + header_bytes(*h),
{
    write_u16(out, h.id);
    let qb: u32 = if h.qr {
        128
    } else {
        0
    };
    let ab: u32 = if h.aa {
        4
    } else {
        0
    };
    let tb: u32 = if h.tc {
        2
    } else {
        0
    };
    let rb: u32 = if h.rd {
        1
    } else {
        0
    };
    let hi: u32 = qb + (h.opcode as u32) * 8 + ab + tb + rb;
    out.push((hi % 256) as u8);
    assert((hi % 256) as u8 == flag_byte_hi(*h));
    let rab: u32 = if h.ra {
        128
    } else {
        0
    };
    let lo: u32 = rab + (h.z as u32) * 16 + (h.rcode as u32);
    out.push((lo % 256) as u8);
    assert((lo % 256) as u8 == flag_byte_lo(*h));
    write_u16(out, h.qdcount);
    write_u16(out, h.ancount);
    write_u16(out, h.nscount);
    write_u16(out, h.arcount);
    assert(out@ =~= old(out)@ + header_bytes(*h));
}

/// Decodes the 12-byte header at the start of a datagram.
pub fn read_header(buf: &Vec<u8>) -> (r: Result<(Header, usize), DnsError>)
    ensures
        match r {
            Ok((h, end)) => spec_parse_header(buf@) == Ok::<(Header, int), DnsError>(
                (h, end as int),
            ) && header_valid(h) && end == 12,
            Err(e) => spec_parse_header(buf@) == Err::<(Header, int), DnsError>(e),
        },
{
    if buf.len() < 12 {
        return Err(DnsError::ShortRead);
    }
    let flags = buf[2];
    let more_flags = buf[3];
    Ok(
        (
            Header {
                id: buf[0] as u16 * 256 + buf[1] as u16,
                qr: flags / 128 == 1,
                opcode: (flags / 8) % 16,
                aa: (flags / 4) % 2 == 1,
                tc: (flags / 2) % 2 == 1,
                rd: flags % 2 == 1,
                ra: more_flags / 128 == 1,
                z: (more_flags / 16) % 8,
                rcode: more_flags % 16,
                qdcount: buf[4] as u16 * 256 + buf[5] as u16,
                ancount: buf[6] as u16 * 256 + buf[7] as u16,
                nscount: buf[8] as u16 * 256 + buf[9] as u16,
                arcount: buf[10] as u16 * 256 + buf[11] as u16,
            },
            12,
        ),
    )
}

} // verus!
