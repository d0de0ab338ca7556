//! Resource records of the answer section and their codec.

use vstd::prelude::*;

use bytes::Bytes;

use crate::DnsError;
use crate::bytesio::bytes_data;
use crate::bytesio::bytes_from_vec;
use crate::name::Label;
use crate::name::LabelV;
use crate::name::labels_eq;
use crate::name::name_bytes;
use crate::name::spec_parse_name;
use crate::name::string_bytes;
use crate::name::view_labels;
use crate::name::wf_name;
use crate::name::read_name;
use crate::name::write_name;
use crate::question::QuestionClass;
use crate::question::QuestionType;
use crate::question::qclass_code;
use crate::question::qclass_of;
use crate::question::qtype_code;
use crate::question::qtype_of;
use crate::text::parse_octet;
use crate::text::spec_parse_ipv4;
use crate::text::split_dots;
use crate::text::labels_of_text;
use crate::wire::be16;
use crate::wire::be32;
use crate::wire::spec_read_u16;
use crate::wire::spec_read_u32;
use crate::wire::read_u16;
use crate::wire::read_u32;
use crate::wire::write_u16;
use crate::wire::write_u32;

verus! {

/// The payload of a resource record; only `A` (an IPv4 address, as its four
/// octets) is representable.
#[derive(Debug, Clone, Copy, PartialEq, Eq, Structural)]
pub enum RData {
    A(u8, u8, u8, u8),
}

/// The wire bytes of a record payload.
pub open spec fn rdata_bytes(d: RData) -> Seq<u8> {
    match d {
        RData::A(o0, o1, o2, o3) => seq![o0, o1, o2, o3],
    }
}

impl RData {
    /// Reads a dotted-quad IPv4 address; the text must be one.
    pub fn from(value: String) -> (r: RData)
        requires
            spec_parse_ipv4(string_bytes(value@)) is Some,
        ensures
            Some(r) == (match spec_parse_ipv4(string_bytes(value@)) {
                Some((o0, o1, o2, o3)) => Some(RData::A(o0, o1, o2, o3)),
                None => None::<RData>,
            }),
    {
        let bytes = value.as_str().as_bytes_vec();
        let chunks = split_dots(&bytes, 0);
        assert(bytes@.skip(0) =~= bytes@);
        let o0 = parse_octet(&chunks[0]);
        let o1 = parse_octet(&chunks[1]);
        let o2 = parse_octet(&chunks[2]);
        let o3 = parse_octet(&chunks[3]);
        RData::A(o0, o1, o2, o3)
    }

    /// Reads an `A` payload from its wire bytes; any other length carries
    /// a kind of record data this library cannot represent.
    pub fn from_bytes(b: &Vec<u8>) -> (r: Result<RData, DnsError>)
        ensures
            match r {
                Ok(d) => b@.len() == 4 && d == RData::A(b@[0], b@[1], b@[2], b@[3]),
                Err(e) => b@.len() != 4 && e == DnsError::UnsupportedRData,
            },
    {
        if b.len() == 4 {
            Ok(RData::A(b[0], b[1], b[2], b[3]))
        } else {
            Err(DnsError::UnsupportedRData)
        }
    }

    /// Encodes the payload into a `Bytes` buffer.
    pub fn to_bytes(self) -> (r: Bytes)
        ensures
            bytes_data(r) == rdata_bytes(self),
    {
        let mut out: Vec<u8> = Vec::new();
        match self {
            RData::A(o0, o1, o2, o3) => {
                out.push(o0);
                out.push(o1);
                out.push(o2);
                out.push(o3);
            },
        }
        assert(out@ =~= rdata_bytes(self));
        bytes_from_vec(out)
    }
}

/// One resource record: name, type, class, time to live, declared RDATA
/// length, and the payload.
#[derive(Debug, Clone)]
pub struct Answer {
    pub name: Vec<Label>,
    pub typ: QuestionType,
    pub class: QuestionClass,
    pub ttl: u32,
    pub length: u16,
    pub data: RData,
}

/// The mathematical model of a resource record.
pub struct AnswerV {
    pub name: Seq<LabelV>,
    pub typ: QuestionType,
    pub class: QuestionClass,
    pub ttl: u32,
    pub length: u16,
    pub data: RData,
}

impl View for Answer {
    type V = AnswerV;

    open spec fn view(&self) -> AnswerV {
        AnswerV {
            name: view_labels(self.name@),
            typ: self.typ,
            class: self.class,
            ttl: self.ttl,
            length: self.length,
            data: self.data,
        }
    }
}

/// The models of a sequence of records.
pub open spec fn view_answers(s: Seq<Answer>) -> Seq<AnswerV> {
    s.map_values(|a: Answer| a@)
}

/// The wire encoding of a record: name, type, class, TTL, RDLENGTH as
/// declared, then the payload bytes.
pub open spec fn answer_bytes(a: AnswerV) -> Seq<u8> {
    name_bytes(a.name) + be16(qtype_code(a.typ)) + be16(qclass_code(a.class)) + be32(a.ttl) + be16(
        a.length,
    ) + rdata_bytes(a.data)
}

/// A record the decoder can produce: a well-formed name and an `A` payload
/// whose declared length is its real length.
pub open spec fn wf_answer(a: AnswerV) -> bool {
    wf_name(a.name) && a.typ == QuestionType::A && a.length == 4
}

/// What decoding one record at `pos` yields.  A record of a recognized
/// non-`A` type, or an `A` record whose RDLENGTH is not 4, is consumed but
/// yields no value (`None`): the caller skips it and keeps the rest.
pub open spec fn spec_parse_answer(b: Seq<u8>, pos: int) -> Result<
    (Option<AnswerV>, int),
    DnsError,
> {
    match spec_parse_name(b, pos) {
        Ok((name, p1)) => match spec_read_u16(b, p1) {
            Ok((tv, p2)) => match qtype_of(tv) {
                Some(typ) => match spec_read_u16(b, p2) {
                    Ok((cv, p3)) => match qclass_of(cv) {
                        Some(class) => match spec_read_u32(b, p3) {
                            Ok((ttl, p4)) => match spec_read_u16(b, p4) {
                                Ok((rdlength, p5)) => if p5 + rdlength <= b.len() {
                                    if typ == QuestionType::A && rdlength == 4 {
                                        Ok(
                                            (
                                                Some(
                                                    AnswerV {
                                                        name,
                                                        typ,
                                                        class,
                                                        ttl,
                                                        length: rdlength,
                                                        data: RData::A(
                                                            b[p5],
                                                            b[p5 + 1],
                                                            b[p5 + 2],
                                                            b[p5 + 3],
                                                        ),
                                                    },
                                                ),
                                                p5 + rdlength,
                                            ),
                                        )
                                    } else {
                                        Ok((None, p5 + rdlength))
                                    }
                                } else {
                                    Err(DnsError::ShortRead)
                                },
                                Err(e) => Err(e),
                            },
                            Err(e) => Err(e),
                        },
                        None => Err(DnsError::UnsupportedClass),
                    },
                    Err(e) => Err(e),
                },
                None => Err(DnsError::UnsupportedType),
            },
            Err(e) => Err(e),
        },
        Err(e) => Err(e),
    }
}

/// The model of an optional decoded record.
pub open spec fn view_opt_answer(r: Option<Answer>) -> Option<AnswerV> {
    match r {
        Some(a) => Some(a@),
        None => None,
    }
}

/// Decodes one record at `pos`, exactly as `spec_parse_answer` describes.
pub fn read_answer(buf: &Vec<u8>, pos: usize) -> (r: Result<(Option<Answer>, usize), DnsError>)
    ensures
        match r {
            Ok((a, end)) => spec_parse_answer(buf@, pos as int) == Ok::<
                (Option<AnswerV>, int),
                DnsError,
            >((view_opt_answer(a), end as int)) && end <= buf.len(),
            Err(e) => spec_parse_answer(buf@, pos as int) == Err::<
                (Option<AnswerV>, int),
                DnsError,
            >(e),
        },
{
    let (name, p1) = match read_name(buf, pos) {
        Ok(v) => v,
        Err(e) => {
            return Err(e);
        },
    };
    let (tv, p2) = match read_u16(buf, p1) {
        Ok(v) => v,
        Err(e) => {
            return Err(e);
        },
    };
    let typ = match QuestionType::try_from_u16(tv) {
        Ok(t) => t,
        Err(e) => {
            return Err(e);
        },
    };
    let (cv, p3) = match read_u16(buf, p2) {
        Ok(v) => v,
        Err(e) => {
            return Err(e);
        },
    };
    let class = match QuestionClass::try_from_u16(cv) {
        Ok(c) => c,
        Err(e) => {
            return Err(e);
        },
    };
    let (ttl, p4) = match read_u32(buf, p3) {
        Ok(v) => v,
        Err(e) => {
            return Err(e);
        },
    };
    let (rdlength, p5) = match read_u16(buf, p4) {
        Ok(v) => v,
        Err(e) => {
            return Err(e);
        },
    };
    if rdlength as usize <= buf.len() - p5 {
        let end = p5 + rdlength as usize;
        if matches!(typ, QuestionType::A) && rdlength == 4 {
            let data = RData::A(buf[p5], buf[p5 + 1], buf[p5 + 2], buf[p5 + 3]);
            Ok((Some(Answer { name, typ, class, ttl, length: rdlength, data }), end))
        } else {
            Ok((None, end))
        }
    } else {
        Err(DnsError::ShortRead)
    }
}

/// Appends the wire encoding of a record, exactly as `answer_bytes`
/// describes.
pub fn write_answer(out: &mut Vec<u8>, a: &Answer)
    ensures
        final(out)@ == old(out)@ + answer_bytes(a@),
{
    write_name(out, &a.name);
    write_u16(out, a.typ.code());
    write_u16(out, a.class.code());
    write_u32(out, a.ttl);
    write_u16(out, a.length);
    match a.data {
        RData::A(o0, o1, o2, o3) => {
            out.push(o0);
            out.push(o1);
            out.push(o2);
            out.push(o3);
        },
    }
    assert(out@ =~= old(out)@ + answer_bytes(a@));
}

/// Law: a well-formed record decodes from its own encoding, wherever it
/// stands in a datagram.
pub proof fn lemma_parse_encoded_answer(a: AnswerV, prefix: Seq<u8>, rest: Seq<u8>)
    requires
        wf_answer(a),
    ensures
        spec_parse_answer(prefix + answer_bytes(a) + rest, prefix.len() as int) == Ok::<
            (Option<AnswerV>, int),
            DnsError,
        >((Some(a), prefix.len() + answer_bytes(a).len() as int)),
{
    let b = prefix + answer_bytes(a) + rest;
    let tail = be16(qtype_code(a.typ)) + be16(qclass_code(a.class)) + be32(a.ttl) + be16(a.length)
        + rdata_bytes(a.data) + rest;
    assert(b =~= prefix + name_bytes(a.name) + tail);
    crate::name::lemma_parse_encoded_name(a.name, prefix, tail);
    let p1 = prefix.len() + name_bytes(a.name).len() as int;
    assert(b[p1] == crate::wire::u16_hi(qtype_code(a.typ)));
    assert(b[p1 + 1] == crate::wire::u16_lo(qtype_code(a.typ)));
    crate::wire::lemma_u16_round_trip(qtype_code(a.typ));
    assert(qtype_of(qtype_code(a.typ)) == Some(a.typ));
    let p2 = p1 + 2;
    assert(b[p2] == crate::wire::u16_hi(qclass_code(a.class)));
    assert(b[p2 + 1] == crate::wire::u16_lo(qclass_code(a.class)));
    crate::wire::lemma_u16_round_trip(qclass_code(a.class));
    assert(qclass_of(qclass_code(a.class)) == Some(a.class));
    let p3 = p2 + 2;
    assert(b[p3] == be32(a.ttl)[0] && b[p3 + 1] == be32(a.ttl)[1] && b[p3 + 2] == be32(a.ttl)[2]
        && b[p3 + 3] == be32(a.ttl)[3]);
    crate::wire::lemma_u32_round_trip(a.ttl);
    let p4 = p3 + 4;
    assert(b[p4] == crate::wire::u16_hi(a.length));
    assert(b[p4 + 1] == crate::wire::u16_lo(a.length));
    crate::wire::lemma_u16_round_trip(a.length);
    let p5 = p4 + 2;
    assert(b[p5] == rdata_bytes(a.data)[0] && b[p5 + 1] == rdata_bytes(a.data)[1] && b[p5 + 2]
        == rdata_bytes(a.data)[2] && b[p5 + 3] == rdata_bytes(a.data)[3]);
    assert(p5 + 4 <= b.len());
    let parsed = AnswerV {
        name: a.name,
        typ: a.typ,
        class: a.class,
        ttl: a.ttl,
        length: a.length,
        data: RData::A(b[p5], b[p5 + 1], b[p5 + 2], b[p5 + 3]),
    };
    assert(parsed.data == a.data);
    assert(parsed == a);
    assert(p5 + 4 == prefix.len() + answer_bytes(a).len());
}

impl Answer {
    /// Builds an `A` record from a dotted text name, recognized wire codes
    /// and a dotted-quad IPv4 address.
    pub fn new(name: String, typ: u16, class: u16, ttl: u32, length: u16, data: String) -> (r:
        Answer)
        requires
            qtype_of(typ) is Some,
            qclass_of(class) is Some,
            spec_parse_ipv4(string_bytes(data@)) is Some,
        ensures
            view_labels(r.name@) == labels_of_text(string_bytes(name@)),
            Some(r.typ) == qtype_of(typ),
            Some(r.class) == qclass_of(class),
            r.ttl == ttl,
            r.length == length,
            Some(r.data) == (match spec_parse_ipv4(string_bytes(data@)) {
                Some((o0, o1, o2, o3)) => Some(RData::A(o0, o1, o2, o3)),
                None => None::<RData>,
            }),
    {
        let bytes = name.as_str().as_bytes_vec();
        let labels = crate::question::text_to_labels(&bytes);
        Answer {
            name: labels,
            typ: QuestionType::from(typ),
            class: QuestionClass::from(class),
            ttl,
            length,
            data: RData::from(data),
        }
    }

    /// Encodes this record into a `Bytes` buffer.
    pub fn to_bytes(&self) -> (r: Bytes)
        ensures
            bytes_data(r) == answer_bytes(self@),
    {
        let mut out: Vec<u8> = Vec::new();
        write_answer(&mut out, self);
        assert(out@ =~= answer_bytes(self@));
        bytes_from_vec(out)
    }
}


/// Compares two record lists for equality of their models.
pub fn answers_eq(a: &Vec<Answer>, b: &Vec<Answer>) -> (r: bool)
    ensures
        r == (view_answers(a@) == view_answers(b@)),
{
    if a.len() != b.len() {
        proof {
            if view_answers(a@) == view_answers(b@) {
                assert(view_answers(a@).len() == view_answers(b@).len());
            }
        }
        return false;
    }
    let mut i: usize = 0;
    while i < a.len()
        invariant
            i <= a.len(),
            a@.len() == b@.len(),
            forall|k: int| 0 <= k < i ==> (#[trigger] a@[k])@.name == b@[k]@.name && a@[k]@.typ
                == b@[k]@.typ && a@[k]@.class == b@[k]@.class && a@[k]@.ttl == b@[k]@.ttl
                && a@[k]@.length == b@[k]@.length && a@[k]@.data == b@[k]@.data,
        decreases a.len() - i,
    {
        let ra = &a[i];
        let rb = &b[i];
        if !(ra == rb) {
            proof {
                if view_answers(a@) == view_answers(b@) {
                    assert(view_answers(a@)[i as int] == view_answers(b@)[i as int]);
                }
            }
            return false;
        }
        i = i + 1;
    }
    proof {
        assert forall|k: int| 0 <= k < a@.len() implies view_answers(a@)[k] == view_answers(
            b@,
        )[k] by {
            assert((a@[k])@.name == b@[k]@.name);
        }
        assert(view_answers(a@) =~= view_answers(b@));
    }
    true
}

impl PartialEq for Answer {
    fn eq(&self, other: &Self) -> (r: bool) {
        labels_eq(&self.name, &other.name) && self.typ == other.typ && self.class == other.class
            && self.ttl == other.ttl && self.length == other.length && self.data == other.data
    }
}

impl vstd::std_specs::cmp::PartialEqSpecImpl for Answer {
    open spec fn obeys_eq_spec() -> bool {
        true
    }

    open spec fn eq_spec(&self, other: &Answer) -> bool {
        view_labels(self.name@) == view_labels(other.name@) && self.typ == other.typ && self.class
            == other.class && self.ttl == other.ttl && self.length == other.length && self.data
            == other.data
    }
}

} // verus!
