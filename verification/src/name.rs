//! Domain-name labels: length-prefixed byte sequences and 14-bit
//! compression pointers, with their wire encoding and decoding.
//!
//! A name is an ordered sequence of labels.  On the wire it is the labels'
//! encodings in order, followed by a single zero octet unless the last label
//! is a pointer.  The decoder keeps pointers unresolved, so a decoded name
//! can be re-encoded byte for byte.

use vstd::prelude::*;

use crate::DnsError;

verus! {

/// A 14-bit offset into the containing datagram.
#[derive(Debug, Clone, Copy, PartialEq, Eq, Structural)]
pub struct LabelPointer {
    pub pointer: u16,
}

/// A length-prefixed run of bytes; `length` is the declared byte count.
#[derive(Debug, Clone)]
pub struct LabelSequence {
    pub content: Vec<u8>,
    pub length: u8,
}

/// One component of a domain name.
#[derive(Debug, Clone)]
pub enum Label {
    Pointer(LabelPointer),
    Sequence(LabelSequence),
}

/// The mathematical model of a label.
pub enum LabelV {
    Pointer { pointer: u16 },
    Sequence { content: Seq<u8>, length: u8 },
}

pub open spec fn ptr_label(pointer: u16) -> LabelV {
    LabelV::Pointer { pointer }
}

pub open spec fn seq_label(content: Seq<u8>, length: u8) -> LabelV {
    LabelV::Sequence { content, length }
}

/// The pointer offset of a pointer label (zero for sequence labels).
pub open spec fn label_pointer(l: LabelV) -> u16 {
    match l {
        LabelV::Pointer { pointer } => pointer,
        LabelV::Sequence { content, length } => 0,
    }
}

/// The content bytes of a sequence label (empty for pointer labels).
pub open spec fn label_content(l: LabelV) -> Seq<u8> {
    match l {
        LabelV::Pointer { pointer } => Seq::empty(),
        LabelV::Sequence { content, length } => content,
    }
}

/// The declared length of a sequence label (zero for pointer labels).
pub open spec fn label_length(l: LabelV) -> u8 {
    match l {
        LabelV::Pointer { pointer } => 0,
        LabelV::Sequence { content, length } => length,
    }
}

impl View for Label {
    type V = LabelV;

    open spec fn view(&self) -> LabelV {
        match self {
            Label::Pointer(p) => LabelV::Pointer { pointer: p.pointer },
            Label::Sequence(s) => LabelV::Sequence { content: s.content@, length: s.length },
        }
    }
}

/// The models of a sequence of labels.
pub open spec fn view_labels(s: Seq<Label>) -> Seq<LabelV> {
    s.map_values(|l: Label| l@)
}

/// The wire encoding of one label: a pointer is two bytes whose top two bits
/// are `11`; a sequence is its length byte followed by its content.
pub open spec fn label_bytes(l: LabelV) -> Seq<u8> {
    match l {
        LabelV::Pointer { pointer } => seq![
            0xC0u8 | ((pointer >> 8) as u8),
            pointer as u8,
        ],
        LabelV::Sequence { content, length } => seq![length] + content,
    }
}

/// The concatenated encodings of a name's labels, without a terminator.
pub open spec fn labels_bytes(name: Seq<LabelV>) -> Seq<u8>
    decreases name.len(),
{
    if name.len() == 0 {
        Seq::empty()
    } else {
        label_bytes(name[0]) + labels_bytes(name.drop_first())
    }
}

pub open spec fn ends_with_pointer(name: Seq<LabelV>) -> bool {
    name.len() > 0 && name.last() is Pointer
}

/// The full wire encoding of a name: a terminating zero octet is appended
/// if and only if the name does not end with a pointer.
pub open spec fn name_bytes(name: Seq<LabelV>) -> Seq<u8> {
    if ends_with_pointer(name) {
        labels_bytes(name)
    } else {
        labels_bytes(name) + seq![0u8]
    }
}

/// A label as the decoder can produce it: pointers fit in 14 bits, sequence
/// lengths lie in `1 ..= 63` and agree with the content.
pub open spec fn valid_label(l: LabelV) -> bool {
    match l {
        LabelV::Pointer { pointer } => pointer < 0x4000,
        LabelV::Sequence { content, length } => 1 <= length <= 63 && content.len() == length,
    }
}

/// A name in the shape the decoder produces: every label is valid and only
/// the last label may be a pointer.
pub open spec fn wf_name(name: Seq<LabelV>) -> bool {
    &&& forall|i: int| 0 <= i < name.len() ==> valid_label(#[trigger] name[i])
    &&& forall|i: int| 0 <= i < name.len() - 1 ==> (#[trigger] name[i]) is Sequence
}

/// What decoding a name at position `pos` of datagram `b` yields: the labels
/// read, and the position just past them.  A zero octet or a pointer label
/// terminates the name; reserved length patterns fail with `InvalidLabel`.
pub open spec fn spec_parse_name(b: Seq<u8>, pos: int) -> Result<(Seq<LabelV>, int), DnsError>
    decreases b.len() - pos,
{
    if pos < 0 || pos >= b.len() {
        Err(DnsError::ShortRead)
    } else {
        let f = b[pos];
        if f == 0 {
            Ok((Seq::empty(), pos + 1))
        } else if f < 64 {
            if pos + 1 + f <= b.len() {
                match spec_parse_name(b, pos + 1 + f) {
                    Ok((rest, end)) => Ok(
                        (seq![seq_label(b.subrange(pos + 1, pos + 1 + f), f)] + rest, end),
                    ),
                    Err(e) => Err(e),
                }
            } else {
                Err(DnsError::ShortRead)
            }
        } else if f >= 192 {
            if pos + 2 <= b.len() {
                Ok((seq![ptr_label(((f - 192) * 256 + b[pos + 1]) as u16)], pos + 2))
            } else {
                Err(DnsError::ShortRead)
            }
        } else {
            Err(DnsError::InvalidLabel)
        }
    }
}

pub proof fn lemma_labels_bytes_push(name: Seq<LabelV>, l: LabelV)
    ensures
        labels_bytes(name.push(l)) == labels_bytes(name) + label_bytes(l),
    decreases name.len(),
{
    if name.len() == 0 {
        assert(name.push(l)[0] == l);
        assert(name.push(l).drop_first() =~= Seq::<LabelV>::empty());
        assert(labels_bytes(Seq::<LabelV>::empty()) =~= Seq::<u8>::empty());
        assert(labels_bytes(name.push(l)) =~= labels_bytes(name) + label_bytes(l));
    } else {
        lemma_labels_bytes_push(name.drop_first(), l);
        assert(name.push(l)[0] == name[0]);
        assert(name.push(l).drop_first() =~= name.drop_first().push(l));
        assert(labels_bytes(name.push(l)) == label_bytes(name[0]) + labels_bytes(
            name.drop_first().push(l),
        ));
        assert(labels_bytes(name.push(l)) =~= labels_bytes(name) + label_bytes(l));
    }
}

proof fn lemma_ptr_round(p: u16)
    requires
        p < 0x4000,
    ensures
        (0xC0u8 | ((p >> 8) as u8)) >= 192,
        ((0xC0u8 | ((p >> 8) as u8)) - 192) * 256 + (p as u8) == p,
{
    assert((0xC0u8 | ((p >> 8) as u8)) >= 192) by (bit_vector);
    assert(((0xC0u8 | ((p >> 8) as u8)) - 192) * 256 + (p as u8) == p) by (bit_vector)
        requires
            p < 0x4000,
    ;
}

/// The encoding of a name whose first label is a sequence splits into that
/// label's encoding followed by the encoding of the remaining name.
pub proof fn lemma_name_bytes_first(name: Seq<LabelV>)
    requires
        name.len() > 0,
        name[0] is Sequence,
    ensures
        name_bytes(name) == label_bytes(name[0]) + name_bytes(name.drop_first()),
{
    let tail = name.drop_first();
    if tail.len() == 0 {
        assert(name.last() == name[0]);
        assert(!ends_with_pointer(name));
        assert(labels_bytes(tail) == Seq::<u8>::empty());
        assert(name_bytes(tail) =~= seq![0u8]);
        assert(name_bytes(name) =~= label_bytes(name[0]) + name_bytes(tail));
    } else {
        assert(name.last() == tail.last());
        assert(ends_with_pointer(name) == ends_with_pointer(tail));
        if ends_with_pointer(name) {
            assert(name_bytes(name) =~= label_bytes(name[0]) + name_bytes(tail));
        } else {
            assert(name_bytes(name) =~= label_bytes(name[0]) + (labels_bytes(tail) + seq![0u8]));
        }
    }
}

/// Decoding starts right after `prefix` in a datagram that carries the
/// encoding of a well-formed name there, and yields exactly that name.
pub proof fn lemma_parse_encoded_name(name: Seq<LabelV>, prefix: Seq<u8>, rest: Seq<u8>)
    requires
        wf_name(name),
    ensures
        spec_parse_name(prefix + name_bytes(name) + rest, prefix.len() as int) == Ok::<
            (Seq<LabelV>, int),
            DnsError,
        >((name, prefix.len() + name_bytes(name).len() as int)),
    decreases name.len(),
{
    let b = prefix + name_bytes(name) + rest;
    let pos = prefix.len() as int;
    if name.len() == 0 {
        assert(labels_bytes(name) == Seq::<u8>::empty());
        assert(name_bytes(name) =~= seq![0u8]);
        assert(b[pos] == 0u8);
        assert(name =~= Seq::<LabelV>::empty());
    } else if name[0] is Pointer {
        assert(name.len() == 1) by {
            if name.len() > 1 {
                assert(name[0] is Sequence);
            }
        }
        let p = label_pointer(name[0]);
        assert(valid_label(name[0]));
        assert(name[0] == ptr_label(p));
        assert(ends_with_pointer(name));
        assert(name.drop_first() =~= Seq::<LabelV>::empty());
        assert(labels_bytes(name.drop_first()) == Seq::<u8>::empty());
        let hi = 0xC0u8 | ((p >> 8) as u8);
        let lo = p as u8;
        assert(name_bytes(name) =~= seq![hi, lo]);
        lemma_ptr_round(p);
        assert(b[pos] == hi && b[pos + 1] == lo);
        assert(b[pos] != 0 && !(b[pos] < 64) && b[pos] >= 192);
        assert(pos + 2 <= b.len());
        assert(((hi - 192) * 256 + lo) as u16 == p);
        assert(seq![ptr_label(p)] =~= name);
        assert(spec_parse_name(b, pos) == Ok::<(Seq<LabelV>, int), DnsError>((name, pos + 2)));
    } else {
        let l0 = name[0];
        let c = label_content(l0);
        let n = label_length(l0);
        assert(valid_label(l0));
        assert(l0 == seq_label(c, n));
        assert(label_bytes(l0) =~= seq![n] + c);
        let tail = name.drop_first();
        assert(wf_name(tail)) by {
            assert forall|i: int| 0 <= i < tail.len() implies valid_label(#[trigger] tail[i]) by {
                assert(tail[i] == name[i + 1]);
            }
            assert forall|i: int| 0 <= i < tail.len() - 1 implies (#[trigger] tail[i])
                is Sequence by {
                assert(tail[i] == name[i + 1]);
            }
        }
        lemma_name_bytes_first(name);
        let prefix2 = prefix + label_bytes(l0);
        lemma_parse_encoded_name(tail, prefix2, rest);
        assert(prefix2 + name_bytes(tail) + rest =~= b);
        assert(spec_parse_name(b, prefix2.len() as int) == Ok::<(Seq<LabelV>, int), DnsError>(
            (tail, prefix2.len() + name_bytes(tail).len() as int),
        ));
        assert(b[pos] == n);
        assert(1 <= n <= 63);
        assert(pos + 1 + n <= b.len());
        assert(b.subrange(pos + 1, pos + 1 + n) =~= c);
        assert(prefix2.len() == pos + 1 + n);
        assert(seq![seq_label(c, n)] + tail =~= name);
        assert(name_bytes(name).len() == 1 + n + name_bytes(tail).len());
        assert(spec_parse_name(b, pos) == Ok::<(Seq<LabelV>, int), DnsError>(
            (name, pos + name_bytes(name).len()),
        ));
    }
}

/// Law: every successfully decoded name is well-formed and re-encodes to
/// exactly the bytes it was decoded from, so an inbound name — pointer
/// labels included — can be echoed byte for byte.
pub proof fn lemma_parse_name_exact(b: Seq<u8>, pos: int)
    ensures
        match spec_parse_name(b, pos) {
            Ok((name, end)) => pos < end <= b.len() && wf_name(name) && name_bytes(name)
                == b.subrange(pos, end),
            Err(e) => true,
        },
    decreases b.len() - pos,
{
    if 0 <= pos < b.len() {
        let f = b[pos];
        if f == 0 {
            match spec_parse_name(b, pos) {
                Ok((name, end)) => {
                    assert(name =~= Seq::<LabelV>::empty());
                    assert(labels_bytes(name) == Seq::<u8>::empty());
                    assert(name_bytes(name) =~= b.subrange(pos, pos + 1));
                },
                Err(e) => {},
            }
        } else if f < 64 {
            if pos + 1 + f <= b.len() {
                lemma_parse_name_exact(b, pos + 1 + f);
                match spec_parse_name(b, pos + 1 + f) {
                    Ok((rest, end)) => {
                        let l = seq_label(b.subrange(pos + 1, pos + 1 + f), f);
                        let name = seq![l] + rest;
                        assert(valid_label(l));
                        assert(name[0] == l);
                        assert(name.drop_first() =~= rest);
                        assert(wf_name(name)) by {
                            assert forall|i: int| 0 <= i < name.len() implies valid_label(
                                #[trigger] name[i],
                            ) by {
                                if i > 0 {
                                    assert(name[i] == rest[i - 1]);
                                }
                            }
                            assert forall|i: int| 0 <= i < name.len() - 1 implies (
                            #[trigger] name[i]) is Sequence by {
                                if i > 0 {
                                    assert(name[i] == rest[i - 1]);
                                }
                            }
                        }
                        lemma_name_bytes_first(name);
                        assert(label_bytes(l) =~= b.subrange(pos, pos + 1 + f));
                        assert(name_bytes(name) =~= b.subrange(pos, end));
                    },
                    Err(e) => {},
                }
            }
        } else if f >= 192 {
            if pos + 2 <= b.len() {
                let lo = b[pos + 1];
                let p = ((f - 192) * 256 + lo) as u16;
                let name = seq![ptr_label(p)];
                assert(p < 0x4000);
                assert(ends_with_pointer(name));
                assert(name.drop_first() =~= Seq::<LabelV>::empty());
                assert(labels_bytes(name.drop_first()) == Seq::<u8>::empty());
                assert((0xC0u8 | ((p >> 8) as u8)) == f && p as u8 == lo) by (bit_vector)
                    requires
                        f >= 192,
                        p == (f as u16 - 192) * 256 + lo as u16,
                ;
                assert(label_bytes(ptr_label(p)) =~= b.subrange(pos, pos + 2));
                assert(name_bytes(name) =~= b.subrange(pos, pos + 2));
            }
        }
    }
}

/// Law: a name with no pointer labels round-trips through the codec, and its
/// encoding is its label data followed by one terminating zero octet.
pub proof fn lemma_name_round_trip(name: Seq<LabelV>)
    requires
        wf_name(name),
        !ends_with_pointer(name),
    ensures
        spec_parse_name(name_bytes(name), 0) == Ok::<(Seq<LabelV>, int), DnsError>(
            (name, name_bytes(name).len() as int),
        ),
        name_bytes(name) == labels_bytes(name) + seq![0u8],
        name_bytes(name).len() >= 1,
        name_bytes(name).last() == 0u8,
{
    lemma_parse_encoded_name(name, Seq::empty(), Seq::empty());
    assert(Seq::<u8>::empty() + name_bytes(name) + Seq::<u8>::empty() =~= name_bytes(name));
}

/// Law: a name whose last label is a pointer encodes with the two pointer
/// bytes last, gets no trailing zero octet, and round-trips through the codec.
pub proof fn lemma_pointer_name_round_trip(name: Seq<LabelV>)
    requires
        wf_name(name),
        ends_with_pointer(name),
    ensures
        spec_parse_name(name_bytes(name), 0) == Ok::<(Seq<LabelV>, int), DnsError>(
            (name, name_bytes(name).len() as int),
        ),
        name_bytes(name) == labels_bytes(name),
        name_bytes(name).len() >= 2,
        name_bytes(name)[name_bytes(name).len() - 2] == (0xC0u8 | ((label_pointer(name.last())
            >> 8) as u8)),
        name_bytes(name).last() == label_pointer(name.last()) as u8,
{
    lemma_parse_encoded_name(name, Seq::empty(), Seq::empty());
    assert(Seq::<u8>::empty() + name_bytes(name) + Seq::<u8>::empty() =~= name_bytes(name));
    let last = name.last();
    assert(valid_label(last));
    assert(last == ptr_label(label_pointer(last)));
    assert(name =~= name.drop_last().push(last));
    lemma_labels_bytes_push(name.drop_last(), last);
    assert(labels_bytes(name) == labels_bytes(name.drop_last()) + label_bytes(last));
    assert(label_bytes(last) =~= seq![
        0xC0u8 | ((label_pointer(last) >> 8) as u8),
        label_pointer(last) as u8,
    ]);
}

/// Decodes the labels of one name starting at `pos`, exactly as
/// `spec_parse_name` describes.
pub fn read_name(buf: &Vec<u8>, pos: usize) -> (r: Result<(Vec<Label>, usize), DnsError>)
    ensures
        match r {
            Ok((name, end)) => spec_parse_name(buf@, pos as int) == Ok::<
                (Seq<LabelV>, int),
                DnsError,
            >((view_labels(name@), end as int)) && end <= buf.len(),
            Err(e) => spec_parse_name(buf@, pos as int) == Err::<(Seq<LabelV>, int), DnsError>(e),
        },
{
    let mut labels: Vec<Label> = Vec::new();
    let mut p: usize = pos;
    loop
        invariant
            pos <= p,
            forall|i: int| 0 <= i < labels@.len() ==> !((#[trigger] labels@[i])@ is Pointer),
            spec_parse_name(buf@, pos as int) == (match spec_parse_name(buf@, p as int) {
                Ok((rest, end)) => Ok::<(Seq<LabelV>, int), DnsError>(
                    (view_labels(labels@) + rest, end),
                ),
                Err(e) => Err::<(Seq<LabelV>, int), DnsError>(e),
            }),
        decreases buf@.len() - p as int,
    {
        if p >= buf.len() {
            return Err(DnsError::ShortRead);
        }
        let f = buf[p];
        if f == 0 {
            assert(view_labels(labels@) + Seq::<LabelV>::empty() =~= view_labels(labels@));
            return Ok((labels, p + 1));
        } else if f < 64 {
            let flen = f as usize;
            if flen <= buf.len() - (p + 1) {
                let content = vstd::slice::slice_to_vec(
                    vstd::slice::slice_subrange(buf.as_slice(), p + 1, p + 1 + flen),
                );
                let ghost old_labels = labels@;
                let ghost old_p = p as int;
                labels.push(Label::Sequence(LabelSequence { content, length: f }));
                p = p + 1 + flen;
                proof {
                    let lbl = seq_label(buf@.subrange(old_p + 1, old_p + 1 + f), f);
                    assert(view_labels(labels@) =~= view_labels(old_labels).push(lbl));
                    match spec_parse_name(buf@, p as int) {
                        Ok((rest, end)) => {
                            assert(view_labels(old_labels) + (seq![lbl] + rest) =~= view_labels(
                                labels@,
                            ) + rest);
                        },
                        Err(e) => {},
                    }
                }
            } else {
                return Err(DnsError::ShortRead);
            }
        } else if f >= 192 {
            if buf.len() - p >= 2 {
                let ptr = (f - 192) as u16 * 256 + buf[p + 1] as u16;
                let ghost old_labels = labels@;
                labels.push(Label::Pointer(LabelPointer { pointer: ptr }));
                proof {
                    assert(view_labels(labels@) =~= view_labels(old_labels).push(ptr_label(ptr)));
                    assert(view_labels(old_labels) + seq![ptr_label(ptr)] =~= view_labels(labels@));
                }
                return Ok((labels, p + 2));
            } else {
                return Err(DnsError::ShortRead);
            }
        } else {
            return Err(DnsError::InvalidLabel);
        }
    }
}

/// Appends the wire encoding of a name, exactly as `name_bytes` describes.
pub fn write_name(out: &mut Vec<u8>, name: &Vec<Label>)
    ensures
        final(out)@ == old(out)@ + name_bytes(view_labels(name@)),
{
    let ghost nv = view_labels(name@);
    let mut i: usize = 0;
    while i < name.len()
        invariant
            i <= name.len(),
            nv == view_labels(name@),
            out@ == old(out)@ + labels_bytes(nv.take(i as int)),
        decreases name.len() - i,
    {
        let ghost prefix = nv.take(i as int);
        match &name[i] {
            Label::Pointer(ptr) => {
                out.push(0xC0u8 | (ptr.pointer >> 8) as u8);
                out.push(ptr.pointer as u8);
            },
            Label::Sequence(s) => {
                out.push(s.length);
                let mut j: usize = 0;
                while j < s.content.len()
                    invariant
                        j <= s.content.len(),
                        out@ == old(out)@ + labels_bytes(prefix) + seq![label_length(nv[i as int])]
                            + label_content(nv[i as int]).take(j as int),
                        nv[i as int] == seq_label(s.content@, s.length),
                        0 <= i < nv.len(),
                    decreases s.content.len() - j,
                {
                    out.push(s.content[j]);
                    assert(label_content(nv[i as int]).take(j + 1) =~= label_content(
                        nv[i as int],
                    ).take(j as int).push(s.content@[j as int]));
                    j = j + 1;
                }
                assert(label_content(nv[i as int]).take(s.content@.len() as int) =~= s.content@);
            },
        }
        proof {
            lemma_labels_bytes_push(prefix, nv[i as int]);
            assert(nv.take(i + 1) =~= prefix.push(nv[i as int]));
            assert(label_bytes(nv[i as int]) =~= (match nv[i as int] {
                LabelV::Pointer { pointer } => seq![
                    0xC0u8 | ((pointer >> 8) as u8),
                    pointer as u8,
                ],
                LabelV::Sequence { content, length } => seq![length] + content,
            }));
            assert(out@ =~= old(out)@ + labels_bytes(nv.take(i + 1)));
        }
        i = i + 1;
    }
    assert(nv.take(name.len() as int) =~= nv);
    if name.len() == 0 {
        out.push(0);
        assert(out@ =~= old(out)@ + name_bytes(nv));
    } else {
        let last = &name[name.len() - 1];
        match last {
            Label::Sequence(s) => {
                out.push(0);
                assert(!ends_with_pointer(nv));
                assert(out@ =~= old(out)@ + name_bytes(nv));
            },
            Label::Pointer(ptr) => {
                assert(ends_with_pointer(nv));
                assert(out@ =~= old(out)@ + name_bytes(nv));
            },
        }
    }
}


/// The UTF-8 bytes of a piece of text.
pub open spec fn string_bytes(s: Seq<char>) -> Seq<u8> {
    vstd::utf8::encode_utf8(s)
}

impl LabelSequence {
    /// Builds a sequence label from text; the length records its byte count.
    pub fn new(content: String) -> (r: LabelSequence)
        ensures
            r.content@ == string_bytes(content@),
            r.length == string_bytes(content@).len() as u8,
    {
        let bytes = content.as_str().as_bytes_vec();
        let length = bytes.len() as u8;
        LabelSequence { content: bytes, length }
    }
}

/// Copies a byte vector element by element.
pub fn clone_bytes(v: &Vec<u8>) -> (r: Vec<u8>)
    ensures
        r@ == v@,
{
    let mut out: Vec<u8> = Vec::new();
    let mut i: usize = 0;
    while i < v.len()
        invariant
            i <= v.len(),
            out@ == v@.take(i as int),
        decreases v.len() - i,
    {
        out.push(v[i]);
        assert(v@.take(i + 1) =~= v@.take(i as int).push(v@[i as int]));
        i = i + 1;
    }
    assert(v@.take(v.len() as int) =~= v@);
    out
}

/// Copies a label; the copy has the same model.
pub fn clone_label(l: &Label) -> (r: Label)
    ensures
        r@ == l@,
{
    match l {
        Label::Pointer(p) => Label::Pointer(LabelPointer { pointer: p.pointer }),
        Label::Sequence(s) => Label::Sequence(
            LabelSequence { content: clone_bytes(&s.content), length: s.length },
        ),
    }
}

/// Copies a name label by label; the copy has the same model.
pub fn clone_labels(v: &Vec<Label>) -> (r: Vec<Label>)
    ensures
        view_labels(r@) == view_labels(v@),
{
    let mut out: Vec<Label> = Vec::new();
    let mut i: usize = 0;
    while i < v.len()
        invariant
            i <= v.len(),
            out@.len() == i,
            forall|k: int| 0 <= k < i ==> (#[trigger] out@[k])@ == v@[k]@,
        decreases v.len() - i,
    {
        out.push(clone_label(&v[i]));
        i = i + 1;
    }
    assert(view_labels(out@) =~= view_labels(v@));
    out
}

/// Compares two byte vectors for equality of their contents.
pub fn bytes_eq(a: &Vec<u8>, b: &Vec<u8>) -> (r: bool)
    ensures
        r == (a@ == b@),
{
    if a.len() != b.len() {
        return false;
    }
    let mut i: usize = 0;
    while i < a.len()
        invariant
            i <= a.len(),
            a@.len() == b@.len(),
            forall|k: int| 0 <= k < i ==> a@[k] == b@[k],
        decreases a.len() - i,
    {
        if a[i] != b[i] {
            return false;
        }
        i = i + 1;
    }
    assert(a@ =~= b@);
    true
}

impl PartialEq for LabelSequence {
    fn eq(&self, other: &Self) -> (r: bool) {
        self.length == other.length && bytes_eq(&self.content, &other.content)
    }
}

impl vstd::std_specs::cmp::PartialEqSpecImpl for LabelSequence {
    open spec fn obeys_eq_spec() -> bool {
        true
    }

    open spec fn eq_spec(&self, other: &LabelSequence) -> bool {
        self.length == other.length && self.content@ == other.content@
    }
}

impl PartialEq for Label {
    fn eq(&self, other: &Self) -> (r: bool) {
        match (self, other) {
            (Label::Pointer(a), Label::Pointer(b)) => a.pointer == b.pointer,
            (Label::Sequence(a), Label::Sequence(b)) => a.length == b.length && bytes_eq(
                &a.content,
                &b.content,
            ),
            _ => false,
        }
    }
}

impl vstd::std_specs::cmp::PartialEqSpecImpl for Label {
    open spec fn obeys_eq_spec() -> bool {
        true
    }

    open spec fn eq_spec(&self, other: &Label) -> bool {
        self@ == other@
    }
}

/// Compares two names for equality of their models.
pub fn labels_eq(a: &Vec<Label>, b: &Vec<Label>) -> (r: bool)
    ensures
        r == (view_labels(a@) == view_labels(b@)),
{
    if a.len() != b.len() {
        proof {
            if view_labels(a@) == view_labels(b@) {
                assert(view_labels(a@).len() == view_labels(b@).len());
            }
        }
        return false;
    }
    let mut i: usize = 0;
    while i < a.len()
        invariant
            i <= a.len(),
            a@.len() == b@.len(),
            forall|k: int| 0 <= k < i ==> (#[trigger] a@[k])@ == b@[k]@,
        decreases a.len() - i,
    {
        let la = &a[i];
        let lb = &b[i];
        if !(la == lb) {
            proof {
                if view_labels(a@) == view_labels(b@) {
                    assert(view_labels(a@)[i as int] == view_labels(b@)[i as int]);
                }
            }
            return false;
        }
        i = i + 1;
    }
    assert(view_labels(a@) =~= view_labels(b@));
    true
}

} // verus!
