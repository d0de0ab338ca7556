//! The boundary to the `bytes` crate: the buffer types the framing layer
//! exchanges with the socket code, declared for the verifier, with trusted
//! wrappers around the handful of methods the codec needs.

use vstd::prelude::*;

use bytes::Buf;
use bytes::Bytes;
use bytes::BytesMut;

verus! {

#[verifier::external_type_specification]
#[verifier::external_body]
pub struct ExBytes(Bytes);

#[verifier::external_type_specification]
#[verifier::external_body]
pub struct ExBytesMut(BytesMut);

/// The bytes a `Bytes` buffer holds, in order.
pub uninterp spec fn bytes_data(b: Bytes) -> Seq<u8>;

/// The bytes a `BytesMut` buffer holds, in order.
pub uninterp spec fn bytes_mut_data(b: BytesMut) -> Seq<u8>;

/// Relies on `BytesMut::len`: the number of bytes in the buffer.
#[verifier::external_body]
pub fn bytes_mut_len(b: &BytesMut) -> (r: usize)
    ensures
        r == bytes_mut_data(*b).len(),
{
    b.len()
}

/// Relies on `BytesMut`'s `AsRef<[u8]>` and `<[u8]>::to_vec`: copies the
/// buffer's bytes out in order.
#[verifier::external_body]
pub fn bytes_mut_to_vec(b: &BytesMut) -> (r: Vec<u8>)
    ensures
        r@ == bytes_mut_data(*b),
{
    b.as_ref().to_vec()
}

/// Relies on `Buf::advance` for `BytesMut`: discards the first `cnt` bytes;
/// it panics when `cnt` exceeds the remaining length.
#[verifier::external_body]
pub fn bytes_mut_advance(b: &mut BytesMut, cnt: usize)
    requires
        cnt <= bytes_mut_data(*old(b)).len(),
    ensures
        bytes_mut_data(*final(b)) == bytes_mut_data(*old(b)).skip(cnt as int),
{
    b.advance(cnt)
}

/// Relies on `BytesMut::extend_from_slice`: appends the slice's bytes.
#[verifier::external_body]
pub fn bytes_mut_extend(b: &mut BytesMut, s: &Vec<u8>)
    ensures
        bytes_mut_data(*final(b)) == bytes_mut_data(*old(b)) + s@,
{
    b.extend_from_slice(s.as_slice())
}

/// Relies on `Bytes::from(Vec<u8>)`: the buffer holds the vector's bytes.
#[verifier::external_body]
pub fn bytes_from_vec(v: Vec<u8>) -> (r: Bytes)
    ensures
        bytes_data(r) == v@,
{
    Bytes::from(v)
}

/// Relies on `Bytes`'s `AsRef<[u8]>` and `<[u8]>::to_vec`: copies the
/// buffer's bytes out in order.
#[verifier::external_body]
pub fn bytes_to_vec(b: &Bytes) -> (r: Vec<u8>)
    ensures
        r@ == bytes_data(*b),
{
    b.as_ref().to_vec()
}

} // verus!
