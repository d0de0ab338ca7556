//! A DNS message codec and query/response engine, verified with Verus.
//!
//! The wire format follows RFC 1035: a fixed 12-byte header, a question
//! section and an answer section, with length-prefixed labels and
//! compressed-label pointers.  Every codec function carries a contract
//! relating the bytes it reads or writes to spec-level encodings, and the
//! encoder/decoder pair is proved to round-trip.

use vstd::prelude::*;

pub mod answer;
pub mod bytesio;
pub mod handler;
pub mod header;
pub mod name;
pub mod parser;
pub mod question;
pub mod text;
pub mod wire;

verus! {

/// Errors arising while decoding or constructing DNS messages.
#[derive(Debug, Clone, Copy, PartialEq, Eq, Structural)]
pub enum DnsError {
    /// Fewer bytes remain than a read primitive required.
    ShortRead,
    /// A datagram ended before its declared sections did.
    Truncated,
    /// A label length byte used the reserved top-bit patterns `01`/`10`.
    InvalidLabel,
    /// A question or record type outside the recognized set.
    UnsupportedType,
    /// A question or record class outside the recognized set.
    UnsupportedClass,
    /// A resource record whose RDATA cannot be represented.
    UnsupportedRData,
}

} // verus!
