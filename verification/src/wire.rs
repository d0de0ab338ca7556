//! Wire primitives: big-endian integer encodings over byte sequences, and
//! cursored reads over an immutable view of a whole datagram.

use vstd::prelude::*;

use crate::DnsError;

verus! {

/// High byte of a 16-bit value in big-endian order.
pub open spec fn u16_hi(x: u16) -> u8 {
    (x / 256) as u8
}

/// Low byte of a 16-bit value in big-endian order.
pub open spec fn u16_lo(x: u16) -> u8 {
    (x % 256) as u8
}

/// Big-endian encoding of a 16-bit value.
pub open spec fn be16(x: u16) -> Seq<u8> {
    seq![u16_hi(x), u16_lo(x)]
}

/// Big-endian encoding of a 32-bit value.
pub open spec fn be32(x: u32) -> Seq<u8> {
    seq![
        (x / 0x1000000) as u8,
        ((x / 0x10000) % 256) as u8,
        ((x / 256) % 256) as u8,
        (x % 256) as u8,
    ]
}

/// The 16-bit value read from two big-endian bytes.
pub open spec fn u16_of(hi: u8, lo: u8) -> u16 {
    (hi * 256 + lo) as u16
}

/// The 32-bit value read from four big-endian bytes.
pub open spec fn u32_of(b0: u8, b1: u8, b2: u8, b3: u8) -> u32 {
    (b0 * 0x1000000 + b1 * 0x10000 + b2 * 256 + b3) as u32
}

pub proof fn lemma_u16_round_trip(x: u16)
    ensures
        u16_of(u16_hi(x), u16_lo(x)) == x,
{
    vstd::arithmetic::div_mod::lemma_fundamental_div_mod(x as int, 256);
}

pub proof fn lemma_u16_of_parts(hi: u8, lo: u8)
    ensures
        u16_hi(u16_of(hi, lo)) == hi,
        u16_lo(u16_of(hi, lo)) == lo,
{
    let x: int = hi * 256 + lo;
    vstd::arithmetic::div_mod::lemma_fundamental_div_mod_converse(x, 256, hi as int, lo as int);
}

pub proof fn lemma_u32_round_trip(x: u32)
    ensures
        u32_of(
            (x / 0x1000000) as u8,
            ((x / 0x10000) % 256) as u8,
            ((x / 256) % 256) as u8,
            (x % 256) as u8,
        ) == x,
{
    vstd::arithmetic::div_mod::lemma_fundamental_div_mod(x as int, 256);
    vstd::arithmetic::div_mod::lemma_fundamental_div_mod(x as int / 256, 256);
    vstd::arithmetic::div_mod::lemma_fundamental_div_mod(x as int / 65536, 256);
    assert(x as int / 256 / 256 == x as int / 65536) by {
        vstd::arithmetic::div_mod::lemma_div_denominator(x as int, 256, 256);
    }
    assert(x as int / 65536 / 256 == x as int / 16777216) by {
        vstd::arithmetic::div_mod::lemma_div_denominator(x as int, 65536, 256);
    }
}

/// What `read_u8` returns on a buffer and position.
pub open spec fn spec_read_u8(b: Seq<u8>, pos: int) -> Result<(u8, int), DnsError> {
    if 0 <= pos && pos + 1 <= b.len() {
        Ok((b[pos], pos + 1))
    } else {
        Err(DnsError::ShortRead)
    }
}

/// What `read_u16` returns on a buffer and position.
pub open spec fn spec_read_u16(b: Seq<u8>, pos: int) -> Result<(u16, int), DnsError> {
    if 0 <= pos && pos + 2 <= b.len() {
        Ok((u16_of(b[pos], b[pos + 1]), pos + 2))
    } else {
        Err(DnsError::ShortRead)
    }
}

/// What `read_u32` returns on a buffer and position.
pub open spec fn spec_read_u32(b: Seq<u8>, pos: int) -> Result<(u32, int), DnsError> {
    if 0 <= pos && pos + 4 <= b.len() {
        Ok((u32_of(b[pos], b[pos + 1], b[pos + 2], b[pos + 3]), pos + 4))
    } else {
        Err(DnsError::ShortRead)
    }
}

/// Reads one byte at `pos`, returning it with the position after it.
pub fn read_u8(buf: &Vec<u8>, pos: usize) -> (r: Result<(u8, usize), DnsError>)
    ensures
        match r {
            Ok((v, p)) => spec_read_u8(buf@, pos as int) == Ok::<(u8, int), DnsError>((v, p as int)),
            Err(e) => spec_read_u8(buf@, pos as int) == Err::<(u8, int), DnsError>(e),
        },
{
    if pos < buf.len() {
        Ok((buf[pos], pos + 1))
    } else {
        Err(DnsError::ShortRead)
    }
}

/// Reads a big-endian 16-bit value at `pos`.
pub fn read_u16(buf: &Vec<u8>, pos: usize) -> (r: Result<(u16, usize), DnsError>)
    ensures
        match r {
            Ok((v, p)) => spec_read_u16(buf@, pos as int) == Ok::<(u16, int), DnsError>((
                v,
                p as int,
            )),
            Err(e) => spec_read_u16(buf@, pos as int) == Err::<(u16, int), DnsError>(e),
        },
{
    if pos < buf.len() && buf.len() - pos >= 2 {
        let hi = buf[pos];
        let lo = buf[pos + 1];
        Ok((hi as u16 * 256 + lo as u16, pos + 2))
    } else {
        Err(DnsError::ShortRead)
    }
}

/// Reads a big-endian 32-bit value at `pos`.
pub fn read_u32(buf: &Vec<u8>, pos: usize) -> (r: Result<(u32, usize), DnsError>)
    ensures
        match r {
            Ok((v, p)) => spec_read_u32(buf@, pos as int) == Ok::<(u32, int), DnsError>((
                v,
                p as int,
            )),
            Err(e) => spec_read_u32(buf@, pos as int) == Err::<(u32, int), DnsError>(e),
        },
{
    if pos < buf.len() && buf.len() - pos >= 4 {
        let b0 = buf[pos];
        let b1 = buf[pos + 1];
        let b2 = buf[pos + 2];
        let b3 = buf[pos + 3];
        Ok((b0 as u32 * 0x1000000 + b1 as u32 * 0x10000 + b2 as u32 * 256 + b3 as u32, pos + 4))
    } else {
        Err(DnsError::ShortRead)
    }
}

/// Appends the big-endian encoding of a 16-bit value.
pub fn write_u16(out: &mut Vec<u8>, x: u16)
    ensures
        final(out)@ == old(out)@ + be16(x),
{
    out.push((x / 256) as u8);
    out.push((x % 256) as u8);
    assert(out@ =~= old(out)@ + be16(x));
}

/// Appends the big-endian encoding of a 32-bit value.
pub fn write_u32(out: &mut Vec<u8>, x: u32)
    ensures
        final(out)@ == old(out)@ + be32(x),
{
    out.push((x / 0x1000000) as u8);
    out.push(((x / 0x10000) % 256) as u8);
    out.push(((x / 256) % 256) as u8);
    out.push((x % 256) as u8);
    assert(out@ =~= old(out)@ + be32(x));
}

} // verus!
