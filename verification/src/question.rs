//! Question types, classes and the question codec.

use vstd::prelude::*;

use bytes::Bytes;

use crate::DnsError;
use crate::bytesio::bytes_data;
use crate::bytesio::bytes_from_vec;
use crate::bytesio::bytes_to_vec;
use crate::name::Label;
use crate::name::LabelSequence;
use crate::name::LabelV;
use crate::name::labels_eq;
use crate::name::name_bytes;
use crate::name::seq_label;
use crate::name::spec_parse_name;
use crate::name::string_bytes;
use crate::name::view_labels;
use crate::name::wf_name;
use crate::name::read_name;
use crate::name::write_name;
use crate::text::labels_of_text;
use crate::text::spec_split_dots;
use crate::text::split_dots;
use crate::text::view_chunks;
use crate::wire::be16;
use crate::wire::spec_read_u16;
use crate::wire::read_u16;
use crate::wire::u16_hi;
use crate::wire::u16_lo;
use crate::wire::write_u16;

verus! {

/// The record types the server recognizes.
#[derive(Debug, Clone, Copy, PartialEq, Eq, Structural)]
pub enum QuestionType {
    A,
    AAAA,
    NS,
    CNAME,
    SRV,
    PTR,
}

/// The 16-bit wire code of a question type.
pub open spec fn qtype_code(t: QuestionType) -> u16 {
    match t {
        QuestionType::A => 1,
        QuestionType::AAAA => 28,
        QuestionType::NS => 2,
        QuestionType::CNAME => 5,
        QuestionType::SRV => 33,
        QuestionType::PTR => 12,
    }
}

/// The question type a 16-bit wire code denotes, if it is recognized.
pub open spec fn qtype_of(v: u16) -> Option<QuestionType> {
    if v == 1 {
        Some(QuestionType::A)
    } else if v == 28 {
        Some(QuestionType::AAAA)
    } else if v == 2 {
        Some(QuestionType::NS)
    } else if v == 5 {
        Some(QuestionType::CNAME)
    } else if v == 33 {
        Some(QuestionType::SRV)
    } else if v == 12 {
        Some(QuestionType::PTR)
    } else {
        None
    }
}

impl QuestionType {
    /// The type a recognized wire code denotes.
    pub fn from(value: u16) -> (r: QuestionType)
        requires
            qtype_of(value) is Some,
        ensures
            qtype_of(value) == Some(r),
    {
        if value == 1 {
            QuestionType::A
        } else if value == 28 {
            QuestionType::AAAA
        } else if value == 2 {
            QuestionType::NS
        } else if value == 5 {
            QuestionType::CNAME
        } else if value == 33 {
            QuestionType::SRV
        } else {
            QuestionType::PTR
        }
    }

    /// The type a wire code denotes, or `UnsupportedType`.
    pub fn try_from_u16(value: u16) -> (r: Result<QuestionType, DnsError>)
        ensures
            match r {
                Ok(t) => qtype_of(value) == Some(t),
                Err(e) => qtype_of(value) is None && e == DnsError::UnsupportedType,
            },
    {
        if value == 1 || value == 28 || value == 2 || value == 5 || value == 33 || value == 12 {
            Ok(QuestionType::from(value))
        } else {
            Err(DnsError::UnsupportedType)
        }
    }

    /// The 16-bit wire code.
    pub fn code(self) -> (r: u16)
        ensures
            r == qtype_code(self),
    {
        match self {
            QuestionType::A => 1,
            QuestionType::AAAA => 28,
            QuestionType::NS => 2,
            QuestionType::CNAME => 5,
            QuestionType::SRV => 33,
            QuestionType::PTR => 12,
        }
    }

    /// Encodes the wire code as two big-endian bytes.
    pub fn to_bytes(self) -> (r: Bytes)
        ensures
            bytes_data(r) == be16(qtype_code(self)),
    {
        let mut out: Vec<u8> = Vec::new();
        write_u16(&mut out, self.code());
        assert(out@ =~= be16(qtype_code(self)));
        bytes_from_vec(out)
    }
}

/// The protocol classes the server recognizes.
#[derive(Debug, Clone, Copy, PartialEq, Eq, Structural)]
pub enum QuestionClass {
    IN,
    CS,
    CH,
    HS,
}

/// The 16-bit wire code of a question class.
pub open spec fn qclass_code(c: QuestionClass) -> u16 {
    match c {
        QuestionClass::IN => 1,
        QuestionClass::CS => 2,
        QuestionClass::CH => 3,
        QuestionClass::HS => 4,
    }
}

/// The question class a 16-bit wire code denotes, if it is recognized.
pub open spec fn qclass_of(v: u16) -> Option<QuestionClass> {
    if v == 1 {
        Some(QuestionClass::IN)
    } else if v == 2 {
        Some(QuestionClass::CS)
    } else if v == 3 {
        Some(QuestionClass::CH)
    } else if v == 4 {
        Some(QuestionClass::HS)
    } else {
        None
    }
}

impl QuestionClass {
    /// The class a recognized wire code denotes.
    pub fn from(value: u16) -> (r: QuestionClass)
        requires
            qclass_of(value) is Some,
        ensures
            qclass_of(value) == Some(r),
    {
        if value == 1 {
            QuestionClass::IN
        } else if value == 2 {
            QuestionClass::CS
        } else if value == 3 {
            QuestionClass::CH
        } else {
            QuestionClass::HS
        }
    }

    /// The class a wire code denotes, or `UnsupportedClass`.
    pub fn try_from_u16(value: u16) -> (r: Result<QuestionClass, DnsError>)
        ensures
            match r {
                Ok(c) => qclass_of(value) == Some(c),
                Err(e) => qclass_of(value) is None && e == DnsError::UnsupportedClass,
            },
    {
        if value == 1 || value == 2 || value == 3 || value == 4 {
            Ok(QuestionClass::from(value))
        } else {
            Err(DnsError::UnsupportedClass)
        }
    }

    /// The 16-bit wire code.
    pub fn code(self) -> (r: u16)
        ensures
            r == qclass_code(self),
    {
        match self {
            QuestionClass::IN => 1,
            QuestionClass::CS => 2,
            QuestionClass::CH => 3,
            QuestionClass::HS => 4,
        }
    }

    /// Encodes the wire code as two big-endian bytes.
    pub fn to_bytes(self) -> (r: Bytes)
        ensures
            bytes_data(r) == be16(qclass_code(self)),
    {
        let mut out: Vec<u8> = Vec::new();
        write_u16(&mut out, self.code());
        assert(out@ =~= be16(qclass_code(self)));
        bytes_from_vec(out)
    }
}

/// One entry of the question section: a name, a type and a class.
#[derive(Debug, Clone)]
pub struct Question {
    pub qname: Vec<Label>,
    pub qtype: QuestionType,
    pub qclass: QuestionClass,
}

/// The mathematical model of a question.
pub struct QuestionV {
    pub qname: Seq<LabelV>,
    pub qtype: QuestionType,
    pub qclass: QuestionClass,
}

impl View for Question {
    type V = QuestionV;

    open spec fn view(&self) -> QuestionV {
        QuestionV { qname: view_labels(self.qname@), qtype: self.qtype, qclass: self.qclass }
    }
}

/// The models of a sequence of questions.
pub open spec fn view_questions(s: Seq<Question>) -> Seq<QuestionV> {
    s.map_values(|q: Question| q@)
}

/// The wire encoding of a question: name, type code, class code.
pub open spec fn question_bytes(q: QuestionV) -> Seq<u8> {
    name_bytes(q.qname) + be16(qtype_code(q.qtype)) + be16(qclass_code(q.qclass))
}

pub open spec fn wf_question(q: QuestionV) -> bool {
    wf_name(q.qname)
}

/// What decoding one question at `pos` yields: its name and codes, with the
/// position just past them.  An unrecognized type or class code fails.
pub open spec fn spec_parse_question(b: Seq<u8>, pos: int) -> Result<(QuestionV, int), DnsError> {
    match spec_parse_name(b, pos) {
        Ok((qname, p1)) => match spec_read_u16(b, p1) {
            Ok((tv, p2)) => match qtype_of(tv) {
                Some(qtype) => match spec_read_u16(b, p2) {
                    Ok((cv, p3)) => match qclass_of(cv) {
                        Some(qclass) => Ok((QuestionV { qname, qtype, qclass }, p3)),
                        None => Err(DnsError::UnsupportedClass),
                    },
                    Err(e) => Err(e),
                },
                None => Err(DnsError::UnsupportedType),
            },
            Err(e) => Err(e),
        },
        Err(e) => Err(e),
    }
}

/// Decodes one question at `pos`, exactly as `spec_parse_question` describes.
pub fn read_question(buf: &Vec<u8>, pos: usize) -> (r: Result<(Question, usize), DnsError>)
    ensures
        match r {
            Ok((q, end)) => spec_parse_question(buf@, pos as int) == Ok::<
                (QuestionV, int),
                DnsError,
            >((q@, end as int)) && end <= buf.len(),
            Err(e) => spec_parse_question(buf@, pos as int) == Err::<(QuestionV, int), DnsError>(
                e,
            ),
        },
{
    let (qname, p1) = match read_name(buf, pos) {
        Ok(v) => v,
        Err(e) => {
            return Err(e);
        },
    };
    let (tv, p2) = match read_u16(buf, p1) {
        Ok(v) => v,
        Err(e) => {
            return Err(e);
        },
    };
    let qtype = match QuestionType::try_from_u16(tv) {
        Ok(t) => t,
        Err(e) => {
            return Err(e);
        },
    };
    let (cv, p3) = match read_u16(buf, p2) {
        Ok(v) => v,
        Err(e) => {
            return Err(e);
        },
    };
    let qclass = match QuestionClass::try_from_u16(cv) {
        Ok(c) => c,
        Err(e) => {
            return Err(e);
        },
    };
    Ok((Question { qname, qtype, qclass }, p3))
}

/// Appends the wire encoding of a question, exactly as `question_bytes`
/// describes.
pub fn write_question(out: &mut Vec<u8>, q: &Question)
    ensures
        final(out)@ == old(out)@ + question_bytes(q@),
{
    write_name(out, &q.qname);
    write_u16(out, q.qtype.code());
    write_u16(out, q.qclass.code());
    assert(out@ =~= old(out)@ + question_bytes(q@));
}

/// Law: a question with a well-formed name decodes from its own encoding,
/// wherever it stands in a datagram.
pub proof fn lemma_parse_encoded_question(q: QuestionV, prefix: Seq<u8>, rest: Seq<u8>)
    requires
        wf_question(q),
    ensures
        spec_parse_question(prefix + question_bytes(q) + rest, prefix.len() as int) == Ok::<
            (QuestionV, int),
            DnsError,
        >((q, prefix.len() + question_bytes(q).len() as int)),
{
    let b = prefix + question_bytes(q) + rest;
    let tail = be16(qtype_code(q.qtype)) + be16(qclass_code(q.qclass)) + rest;
    assert(b =~= prefix + name_bytes(q.qname) + tail);
    crate::name::lemma_parse_encoded_name(q.qname, prefix, tail);
    let p1 = prefix.len() + name_bytes(q.qname).len() as int;
    assert(b[p1] == u16_hi(qtype_code(q.qtype)));
    assert(b[p1 + 1] == u16_lo(qtype_code(q.qtype)));
    crate::wire::lemma_u16_round_trip(qtype_code(q.qtype));
    assert(qtype_of(qtype_code(q.qtype)) == Some(q.qtype));
    let p2 = p1 + 2;
    assert(b[p2] == u16_hi(qclass_code(q.qclass)));
    assert(b[p2 + 1] == u16_lo(qclass_code(q.qclass)));
    crate::wire::lemma_u16_round_trip(qclass_code(q.qclass));
    assert(qclass_of(qclass_code(q.qclass)) == Some(q.qclass));
    assert(p2 + 2 == prefix.len() + question_bytes(q).len());
    assert(spec_parse_question(b, prefix.len() as int) == Ok::<(QuestionV, int), DnsError>(
        (QuestionV { qname: q.qname, qtype: q.qtype, qclass: q.qclass }, p2 + 2),
    ));
    assert(q == (QuestionV { qname: q.qname, qtype: q.qtype, qclass: q.qclass }));
}

/// Law: every successfully decoded question is well-formed and re-encodes
/// to exactly the bytes it was decoded from.
pub proof fn lemma_parse_question_exact(b: Seq<u8>, pos: int)
    ensures
        match spec_parse_question(b, pos) {
            Ok((q, end)) => pos < end <= b.len() && wf_question(q) && question_bytes(q)
                == b.subrange(pos, end),
            Err(e) => true,
        },
{
    crate::name::lemma_parse_name_exact(b, pos);
    match spec_parse_name(b, pos) {
        Ok((qname, p1)) => {
            match spec_read_u16(b, p1) {
                Ok((tv, p2)) => {
                    match qtype_of(tv) {
                        Some(qtype) => {
                            crate::wire::lemma_u16_of_parts(b[p1], b[p1 + 1]);
                            assert(qtype_code(qtype) == tv);
                            match spec_read_u16(b, p2) {
                                Ok((cv, p3)) => {
                                    match qclass_of(cv) {
                                        Some(qclass) => {
                                            crate::wire::lemma_u16_of_parts(b[p2], b[p2 + 1]);
                                            assert(qclass_code(qclass) == cv);
                                            let q = QuestionV { qname, qtype, qclass };
                                            assert(question_bytes(q) =~= b.subrange(pos, p3));
                                        },
                                        None => {},
                                    }
                                },
                                Err(e) => {},
                            }
                        },
                        None => {},
                    }
                },
                Err(e) => {},
            }
        },
        Err(e) => {},
    }
}

impl Question {
    /// Builds a question from a dotted text name and recognized wire codes.
    pub fn new(qname: String, qtype: u16, qclass: u16) -> (r: Question)
        requires
            qtype_of(qtype) is Some,
            qclass_of(qclass) is Some,
        ensures
            view_labels(r.qname@) == labels_of_text(string_bytes(qname@)),
            Some(r.qtype) == qtype_of(qtype),
            Some(r.qclass) == qclass_of(qclass),
    {
        let bytes = qname.as_str().as_bytes_vec();
        let labels = text_to_labels(&bytes);
        Question { qname: labels, qtype: QuestionType::from(qtype), qclass: QuestionClass::from(qclass) }
    }

    /// Encodes this question into a `Bytes` buffer.
    pub fn to_bytes(&self) -> (r: Bytes)
        ensures
            bytes_data(r) == question_bytes(self@),
    {
        let mut out: Vec<u8> = Vec::new();
        write_question(&mut out, self);
        assert(out@ =~= question_bytes(self@));
        bytes_from_vec(out)
    }

    /// Decodes a question from the front of a `Bytes` buffer.
    pub fn from_bytes(b: &Bytes) -> (r: Result<(Question, usize), DnsError>)
        ensures
            match r {
                Ok((q, end)) => spec_parse_question(bytes_data(*b), 0) == Ok::<
                    (QuestionV, int),
                    DnsError,
                >((q@, end as int)),
                Err(e) => spec_parse_question(bytes_data(*b), 0) == Err::<
                    (QuestionV, int),
                    DnsError,
                >(e),
            },
    {
        let v = bytes_to_vec(b);
        read_question(&v, 0)
    }
}

/// Turns dotted text into one sequence label per chunk.
pub fn text_to_labels(bytes: &Vec<u8>) -> (r: Vec<Label>)
    ensures
        view_labels(r@) == labels_of_text(bytes@),
{
    let chunks = split_dots(bytes, 0);
    assert(bytes@.skip(0) =~= bytes@);
    let mut labels: Vec<Label> = Vec::new();
    let mut i: usize = 0;
    while i < chunks.len()
        invariant
            i <= chunks.len(),
            view_chunks(chunks@) == spec_split_dots(bytes@),
            view_labels(labels@) == labels_of_text(bytes@).take(i as int),
        decreases chunks.len() - i,
    {
        let content = crate::name::clone_bytes(&chunks[i]);
        let ghost cv = content@;
        assert(cv == spec_split_dots(bytes@)[i as int]);
        let length = content.len() as u8;
        let ghost old_labels = labels@;
        labels.push(Label::Sequence(LabelSequence { content, length }));
        proof {
            assert(view_labels(old_labels).len() == i);
            assert(old_labels.len() == i);
            assert(labels@[i as int]@ == seq_label(cv, cv.len() as u8));
            assert(labels_of_text(bytes@)[i as int] == seq_label(cv, cv.len() as u8));
            assert(view_labels(labels@) =~= labels_of_text(bytes@).take(i + 1));
        }
        i = i + 1;
    }
    assert(labels_of_text(bytes@).take(chunks@.len() as int) =~= labels_of_text(bytes@));
    labels
}


/// Compares two question lists for equality of their models.
pub fn questions_eq(a: &Vec<Question>, b: &Vec<Question>) -> (r: bool)
    ensures
        r == (view_questions(a@) == view_questions(b@)),
{
    if a.len() != b.len() {
        proof {
            if view_questions(a@) == view_questions(b@) {
                assert(view_questions(a@).len() == view_questions(b@).len());
            }
        }
        return false;
    }
    let mut i: usize = 0;
    while i < a.len()
        invariant
            i <= a.len(),
            a@.len() == b@.len(),
            forall|k: int| 0 <= k < i ==> (#[trigger] a@[k])@.qname == b@[k]@.qname && a@[k]@.qtype
                == b@[k]@.qtype && a@[k]@.qclass == b@[k]@.qclass,
        decreases a.len() - i,
    {
        let qa = &a[i];
        let qb = &b[i];
        if !(qa == qb) {
            proof {
                if view_questions(a@) == view_questions(b@) {
                    assert(view_questions(a@)[i as int] == view_questions(b@)[i as int]);
                }
            }
            return false;
        }
        i = i + 1;
    }
    proof {
        assert forall|k: int| 0 <= k < a@.len() implies view_questions(a@)[k] == view_questions(
            b@,
        )[k] by {
            assert((a@[k])@.qname == b@[k]@.qname);
        }
        assert(view_questions(a@) =~= view_questions(b@));
    }
    true
}

impl PartialEq for Question {
    fn eq(&self, other: &Self) -> (r: bool) {
        labels_eq(&self.qname, &other.qname) && self.qtype == other.qtype && self.qclass
            == other.qclass
    }
}

impl vstd::std_specs::cmp::PartialEqSpecImpl for Question {
    open spec fn obeys_eq_spec() -> bool {
        true
    }

    open spec fn eq_spec(&self, other: &Question) -> bool {
        view_labels(self.qname@) == view_labels(other.qname@) && self.qtype == other.qtype
            && self.qclass == other.qclass
    }
}

} // verus!
