//! The packet codec: one datagram to one message and back, plus the
//! 512-byte datagram bound with truncation.

use vstd::prelude::*;

use bytes::BytesMut;

use crate::DnsError;
use crate::answer::Answer;
use crate::answer::AnswerV;
use crate::answer::answer_bytes;
use crate::answer::read_answer;
use crate::answer::spec_parse_answer;
use crate::answer::view_answers;
use crate::answer::view_opt_answer;
use crate::answer::wf_answer;
use crate::answer::write_answer;
use crate::bytesio::bytes_mut_advance;
use crate::bytesio::bytes_mut_data;
use crate::bytesio::bytes_mut_extend;
use crate::bytesio::bytes_mut_len;
use crate::bytesio::bytes_mut_to_vec;
use crate::header::Header;
use crate::header::header_bytes;
use crate::header::header_valid;
use crate::header::read_header;
use crate::header::spec_parse_header;
use crate::header::write_header;
use crate::question::Question;
use crate::question::QuestionV;
use crate::question::question_bytes;
use crate::question::questions_eq;
use crate::question::read_question;
use crate::question::spec_parse_question;
use crate::question::view_questions;
use crate::question::wf_question;
use crate::question::write_question;

verus! {

/// One decoded datagram: its header, questions and answers.
#[derive(Debug, Clone)]
pub struct UdpPacket {
    pub header: Header,
    pub question: Vec<Question>,
    pub answer: Option<Vec<Answer>>,
}

/// The mathematical model of a message.
#[verifier::ext_equal]
pub struct PacketV {
    pub header: Header,
    pub question: Seq<QuestionV>,
    pub answer: Option<Seq<AnswerV>>,
}

impl View for UdpPacket {
    type V = PacketV;

    open spec fn view(&self) -> PacketV {
        PacketV {
            header: self.header,
            question: view_questions(self.question@),
            answer: match self.answer {
                Some(v) => Some(view_answers(v@)),
                None => None,
            },
        }
    }
}

/// The concatenated encodings of the question section.
pub open spec fn questions_bytes(qs: Seq<QuestionV>) -> Seq<u8>
    decreases qs.len(),
{
    if qs.len() == 0 {
        Seq::empty()
    } else {
        question_bytes(qs[0]) + questions_bytes(qs.drop_first())
    }
}

/// The concatenated encodings of the answer section.
pub open spec fn answers_bytes(ans: Seq<AnswerV>) -> Seq<u8>
    decreases ans.len(),
{
    if ans.len() == 0 {
        Seq::empty()
    } else {
        answer_bytes(ans[0]) + answers_bytes(ans.drop_first())
    }
}

/// The wire encoding of a whole message: header, questions in order, then
/// answers in order.  No name compression is introduced.
pub open spec fn packet_bytes(p: PacketV) -> Seq<u8> {
    header_bytes(p.header) + questions_bytes(p.question) + (match p.answer {
        Some(ans) => answers_bytes(ans),
        None => Seq::empty(),
    })
}

/// A message the decoder can produce, with its counts consistent: exactly
/// `qdcount` questions, an answer list of exactly `ancount` records, and
/// every name well-formed.
pub open spec fn wf_packet(p: PacketV) -> bool {
    &&& header_valid(p.header)
    &&& p.header.qdcount == p.question.len()
    &&& p.answer is Some
    &&& p.header.ancount == p.answer->0.len()
    &&& forall|i: int| 0 <= i < p.question.len() ==> wf_question(#[trigger] p.question[i])
    &&& forall|i: int| 0 <= i < p.answer->0.len() ==> wf_answer(#[trigger] p.answer->0[i])
}

/// What decoding `n` questions in a row from `pos` yields.
pub open spec fn spec_parse_questions(b: Seq<u8>, pos: int, n: nat) -> Result<
    (Seq<QuestionV>, int),
    DnsError,
>
    decreases n,
{
    if n == 0 {
        Ok((Seq::empty(), pos))
    } else {
        match spec_parse_question(b, pos) {
            Ok((q, p1)) => match spec_parse_questions(b, p1, (n - 1) as nat) {
                Ok((rest, end)) => Ok((seq![q] + rest, end)),
                Err(e) => Err(e),
            },
            Err(e) => Err(e),
        }
    }
}

/// What decoding `n` records in a row from `pos` yields; records with an
/// unrepresentable RDATA are consumed and dropped.
pub open spec fn spec_parse_answers(b: Seq<u8>, pos: int, n: nat) -> Result<
    (Seq<AnswerV>, int),
    DnsError,
>
    decreases n,
{
    if n == 0 {
        Ok((Seq::empty(), pos))
    } else {
        match spec_parse_answer(b, pos) {
            Ok((a, p1)) => match spec_parse_answers(b, p1, (n - 1) as nat) {
                Ok((rest, end)) => Ok(
                    (
                        match a {
                            Some(av) => seq![av] + rest,
                            None => rest,
                        },
                        end,
                    ),
                ),
                Err(e) => Err(e),
            },
            Err(e) => Err(e),
        }
    }
}

/// A section that reads past the end of the datagram means the datagram was
/// truncated; other errors stand as they are.
pub open spec fn section_err(e: DnsError) -> DnsError {
    if e == DnsError::ShortRead {
        DnsError::Truncated
    } else {
        e
    }
}

/// What decoding a whole datagram yields: `Ok(None)` for one shorter than a
/// header, else the header, exactly `qdcount` questions and `ancount`
/// records; bytes past the sections are ignored.
pub open spec fn spec_decode(b: Seq<u8>) -> Result<Option<PacketV>, DnsError> {
    if b.len() < 12 {
        Ok(None)
    } else {
        match spec_parse_header(b) {
            Ok((h, p0)) => match spec_parse_questions(b, p0, h.qdcount as nat) {
                Ok((qs, p1)) => match spec_parse_answers(b, p1, h.ancount as nat) {
                    Ok((ans, p2)) => Ok(
                        Some(PacketV { header: h, question: qs, answer: Some(ans) }),
                    ),
                    Err(e) => Err(section_err(e)),
                },
                Err(e) => Err(section_err(e)),
            },
            Err(e) => Err(e),
        }
    }
}

/// The model of a decode result.
pub open spec fn decode_res_view(r: Result<Option<UdpPacket>, DnsError>) -> Result<
    Option<PacketV>,
    DnsError,
> {
    match r {
        Ok(Some(p)) => Ok(Some(p@)),
        Ok(None) => Ok(None),
        Err(e) => Err(e),
    }
}

/// Decodes a whole datagram, exactly as `spec_decode` describes.
#[verifier::loop_isolation(false)]
pub fn parse_packet(buf: &Vec<u8>) -> (r: Result<Option<UdpPacket>, DnsError>)
    ensures
        decode_res_view(r) == spec_decode(buf@),
{
    if buf.len() < 12 {
        return Ok(None);
    }
    let (header, p0) = match read_header(buf) {
        Ok(v) => v,
        Err(e) => {
            return Err(e);
        },
    };
    let mut questions: Vec<Question> = Vec::new();
    let mut pos: usize = p0;
    let mut i: usize = 0;
    let ghost qd = header.qdcount as nat;
    while i < header.qdcount as usize
        invariant
            i <= qd,
            pos <= buf.len(),
            spec_parse_questions(buf@, p0 as int, qd) == (match spec_parse_questions(
                buf@,
                pos as int,
                (qd - i) as nat,
            ) {
                Ok((rest, end)) => Ok::<(Seq<QuestionV>, int), DnsError>(
                    (view_questions(questions@) + rest, end),
                ),
                Err(e) => Err::<(Seq<QuestionV>, int), DnsError>(e),
            }),
        decreases qd - i,
    {
        let ghost old_qs = questions@;
        match read_question(buf, pos) {
            Ok((q, p1)) => {
                let ghost qv = q@;
                questions.push(q);
                pos = p1;
                proof {
                    assert(view_questions(questions@) =~= view_questions(old_qs).push(qv));
                    match spec_parse_questions(buf@, pos as int, (qd - i - 1) as nat) {
                        Ok((rest, end)) => {
                            assert(view_questions(old_qs) + (seq![qv] + rest) =~= view_questions(
                                questions@,
                            ) + rest);
                        },
                        Err(e) => {},
                    }
                }
                i = i + 1;
            },
            Err(e) => {
                return Err(
                    match e {
                        DnsError::ShortRead => DnsError::Truncated,
                        _ => e,
                    },
                );
            },
        }
    }
    proof {
        assert(view_questions(questions@) + Seq::<QuestionV>::empty() =~= view_questions(
            questions@,
        ));
    }
    let mut answers: Vec<Answer> = Vec::new();
    let mut j: usize = 0;
    let ghost an = header.ancount as nat;
    let ghost p1 = pos as int;
    while j < header.ancount as usize
        invariant
            j <= an,
            pos <= buf.len(),
            spec_parse_answers(buf@, p1, an) == (match spec_parse_answers(
                buf@,
                pos as int,
                (an - j) as nat,
            ) {
                Ok((rest, end)) => Ok::<(Seq<AnswerV>, int), DnsError>(
                    (view_answers(answers@) + rest, end),
                ),
                Err(e) => Err::<(Seq<AnswerV>, int), DnsError>(e),
            }),
        decreases an - j,
    {
        let ghost old_ans = answers@;
        match read_answer(buf, pos) {
            Ok((a, p2)) => {
                let ghost av = view_opt_answer(a);
                match a {
                    Some(rec) => {
                        answers.push(rec);
                        proof {
                            assert(view_answers(answers@) =~= view_answers(old_ans).push(
                                av->0,
                            ));
                        }
                    },
                    None => {},
                }
                pos = p2;
                proof {
                    match spec_parse_answers(buf@, pos as int, (an - j - 1) as nat) {
                        Ok((rest, end)) => {
                            match av {
                                Some(avv) => {
                                    assert(view_answers(old_ans) + (seq![avv] + rest)
                                        =~= view_answers(answers@) + rest);
                                },
                                None => {
                                    assert(view_answers(answers@) == view_answers(old_ans));
                                },
                            }
                        },
                        Err(e) => {},
                    }
                }
                j = j + 1;
            },
            Err(e) => {
                return Err(
                    match e {
                        DnsError::ShortRead => DnsError::Truncated,
                        _ => e,
                    },
                );
            },
        }
    }
    proof {
        assert(view_answers(answers@) + Seq::<AnswerV>::empty() =~= view_answers(answers@));
    }
    Ok(Some(UdpPacket { header, question: questions, answer: Some(answers) }))
}

/// Encodes a header, questions and answers into one datagram.
pub fn encode_message(h: &Header, qs: &Vec<Question>, ans: &Vec<Answer>) -> (r: Vec<u8>)
    ensures
        r@ == header_bytes(*h) + questions_bytes(view_questions(qs@)) + answers_bytes(
            view_answers(ans@),
        ),
{
    let mut out: Vec<u8> = Vec::new();
    write_header(&mut out, h);
    let mut i: usize = 0;
    while i < qs.len()
        invariant
            i <= qs.len(),
            out@ == header_bytes(*h) + questions_bytes(view_questions(qs@).take(i as int)),
        decreases qs.len() - i,
    {
        write_question(&mut out, &qs[i]);
        proof {
            lemma_questions_bytes_push(view_questions(qs@).take(i as int), qs@[i as int]@);
            assert(view_questions(qs@).take(i + 1) =~= view_questions(qs@).take(i as int).push(
                qs@[i as int]@,
            ));
            assert(out@ =~= header_bytes(*h) + questions_bytes(view_questions(qs@).take(i + 1)));
        }
        i = i + 1;
    }
    assert(view_questions(qs@).take(qs@.len() as int) =~= view_questions(qs@));
    let mut j: usize = 0;
    while j < ans.len()
        invariant
            j <= ans.len(),
            out@ == header_bytes(*h) + questions_bytes(view_questions(qs@)) + answers_bytes(
                view_answers(ans@).take(j as int),
            ),
        decreases ans.len() - j,
    {
        write_answer(&mut out, &ans[j]);
        proof {
            lemma_answers_bytes_push(view_answers(ans@).take(j as int), ans@[j as int]@);
            assert(view_answers(ans@).take(j + 1) =~= view_answers(ans@).take(j as int).push(
                ans@[j as int]@,
            ));
            assert(out@ =~= header_bytes(*h) + questions_bytes(view_questions(qs@))
                + answers_bytes(view_answers(ans@).take(j + 1)));
        }
        j = j + 1;
    }
    assert(view_answers(ans@).take(ans@.len() as int) =~= view_answers(ans@));
    out
}

/// Encodes a whole message, exactly as `packet_bytes` describes.
pub fn encode_packet(p: &UdpPacket) -> (r: Vec<u8>)
    ensures
        r@ == packet_bytes(p@),
{
    match &p.answer {
        Some(ans) => {
            let out = encode_message(&p.header, &p.question, ans);
            assert(out@ =~= packet_bytes(p@));
            out
        },
        None => {
            let empty_answers: Vec<Answer> = Vec::new();
            let out = encode_message(&p.header, &p.question, &empty_answers);
            assert(answers_bytes(view_answers(empty_answers@)) =~= Seq::<u8>::empty());
            assert(out@ =~= packet_bytes(p@));
            out
        },
    }
}

pub proof fn lemma_questions_bytes_push(qs: Seq<QuestionV>, q: QuestionV)
    ensures
        questions_bytes(qs.push(q)) == questions_bytes(qs) + question_bytes(q),
    decreases qs.len(),
{
    if qs.len() == 0 {
        assert(qs.push(q)[0] == q);
        assert(qs.push(q).drop_first() =~= Seq::<QuestionV>::empty());
        assert(questions_bytes(Seq::<QuestionV>::empty()) =~= Seq::<u8>::empty());
        assert(questions_bytes(qs.push(q)) =~= questions_bytes(qs) + question_bytes(q));
    } else {
        lemma_questions_bytes_push(qs.drop_first(), q);
        assert(qs.push(q)[0] == qs[0]);
        assert(qs.push(q).drop_first() =~= qs.drop_first().push(q));
        assert(questions_bytes(qs.push(q)) == question_bytes(qs[0]) + questions_bytes(
            qs.drop_first().push(q),
        ));
        assert(questions_bytes(qs.push(q)) =~= questions_bytes(qs) + question_bytes(q));
    }
}

pub proof fn lemma_answers_bytes_push(ans: Seq<AnswerV>, a: AnswerV)
    ensures
        answers_bytes(ans.push(a)) == answers_bytes(ans) + answer_bytes(a),
    decreases ans.len(),
{
    if ans.len() == 0 {
        assert(ans.push(a)[0] == a);
        assert(ans.push(a).drop_first() =~= Seq::<AnswerV>::empty());
        assert(answers_bytes(Seq::<AnswerV>::empty()) =~= Seq::<u8>::empty());
        assert(answers_bytes(ans.push(a)) =~= answers_bytes(ans) + answer_bytes(a));
    } else {
        lemma_answers_bytes_push(ans.drop_first(), a);
        assert(ans.push(a)[0] == ans[0]);
        assert(ans.push(a).drop_first() =~= ans.drop_first().push(a));
        assert(answers_bytes(ans.push(a)) == answer_bytes(ans[0]) + answers_bytes(
            ans.drop_first().push(a),
        ));
        assert(answers_bytes(ans.push(a)) =~= answers_bytes(ans) + answer_bytes(a));
    }
}

/// A run of well-formed questions decodes from its own encoding, wherever
/// it stands in a datagram.
pub proof fn lemma_parse_encoded_questions(qs: Seq<QuestionV>, prefix: Seq<u8>, rest: Seq<u8>)
    requires
        forall|i: int| 0 <= i < qs.len() ==> wf_question(#[trigger] qs[i]),
    ensures
        spec_parse_questions(prefix + questions_bytes(qs) + rest, prefix.len() as int, qs.len())
            == Ok::<(Seq<QuestionV>, int), DnsError>(
            (qs, prefix.len() + questions_bytes(qs).len() as int),
        ),
    decreases qs.len(),
{
    let b = prefix + questions_bytes(qs) + rest;
    if qs.len() == 0 {
        assert(questions_bytes(qs) == Seq::<u8>::empty());
        assert(qs =~= Seq::<QuestionV>::empty());
    } else {
        let q0 = qs[0];
        let tail = qs.drop_first();
        assert(questions_bytes(qs) == question_bytes(q0) + questions_bytes(tail));
        assert(b =~= prefix + question_bytes(q0) + (questions_bytes(tail) + rest));
        crate::question::lemma_parse_encoded_question(
            q0,
            prefix,
            questions_bytes(tail) + rest,
        );
        let prefix2 = prefix + question_bytes(q0);
        assert(forall|i: int| 0 <= i < tail.len() ==> wf_question(#[trigger] tail[i])) by {
            assert forall|i: int| 0 <= i < tail.len() implies wf_question(#[trigger] tail[i]) by {
                assert(tail[i] == qs[i + 1]);
            }
        }
        lemma_parse_encoded_questions(tail, prefix2, rest);
        assert(prefix2 + questions_bytes(tail) + rest =~= b);
        assert(spec_parse_question(b, prefix.len() as int) == Ok::<(QuestionV, int), DnsError>(
            (q0, prefix2.len() as int),
        ));
        assert(seq![q0] + tail =~= qs);
    }
}

/// A run of well-formed records decodes from its own encoding, wherever it
/// stands in a datagram; none of them is dropped.
#[verifier::rlimit(60)]
pub proof fn lemma_parse_encoded_answers(ans: Seq<AnswerV>, prefix: Seq<u8>, rest: Seq<u8>)
    requires
        forall|i: int| 0 <= i < ans.len() ==> wf_answer(#[trigger] ans[i]),
    ensures
        spec_parse_answers(prefix + answers_bytes(ans) + rest, prefix.len() as int, ans.len())
            == Ok::<(Seq<AnswerV>, int), DnsError>(
            (ans, prefix.len() + answers_bytes(ans).len() as int),
        ),
    decreases ans.len(),
{
    let b = prefix + answers_bytes(ans) + rest;
    if ans.len() == 0 {
        assert(answers_bytes(ans) == Seq::<u8>::empty());
        assert(ans =~= Seq::<AnswerV>::empty());
    } else {
        let a0 = ans[0];
        let tail = ans.drop_first();
        assert(answers_bytes(ans) == answer_bytes(a0) + answers_bytes(tail));
        assert(b =~= prefix + answer_bytes(a0) + (answers_bytes(tail) + rest));
        crate::answer::lemma_parse_encoded_answer(a0, prefix, answers_bytes(tail) + rest);
        let prefix2 = prefix + answer_bytes(a0);
        assert(forall|i: int| 0 <= i < tail.len() ==> wf_answer(#[trigger] tail[i])) by {
            assert forall|i: int| 0 <= i < tail.len() implies wf_answer(#[trigger] tail[i]) by {
                assert(tail[i] == ans[i + 1]);
            }
        }
        lemma_parse_encoded_answers(tail, prefix2, rest);
        assert(prefix2 + answers_bytes(tail) + rest =~= b);
        assert(spec_parse_answer(b, prefix.len() as int) == Ok::<(Option<AnswerV>, int), DnsError>(
            (Some(a0), prefix2.len() as int),
        ));
        assert(seq![a0] + tail =~= ans);
    }
}

/// Law: a successfully decoded run of `n` questions holds exactly `n` of
/// them, each well-formed, and re-encodes to exactly the bytes it was
/// decoded from.
pub proof fn lemma_parse_questions_exact(b: Seq<u8>, pos: int, n: nat)
    requires
        0 <= pos <= b.len(),
    ensures
        match spec_parse_questions(b, pos, n) {
            Ok((qs, end)) => pos <= end <= b.len() && qs.len() == n && (forall|i: int|
                0 <= i < qs.len() ==> wf_question(#[trigger] qs[i])) && questions_bytes(qs)
                == b.subrange(pos, end),
            Err(e) => true,
        },
    decreases n,
{
    if n == 0 {
        assert(questions_bytes(Seq::<QuestionV>::empty()) =~= b.subrange(pos, pos));
    } else {
        crate::question::lemma_parse_question_exact(b, pos);
        match spec_parse_question(b, pos) {
            Ok((q, p1)) => {
                lemma_parse_questions_exact(b, p1, (n - 1) as nat);
                match spec_parse_questions(b, p1, (n - 1) as nat) {
                    Ok((rest, end)) => {
                        let qs = seq![q] + rest;
                        assert(qs[0] == q);
                        assert(qs.drop_first() =~= rest);
                        assert(questions_bytes(qs) == question_bytes(q) + questions_bytes(rest));
                        assert(questions_bytes(qs) =~= b.subrange(pos, end));
                        assert forall|i: int| 0 <= i < qs.len() implies wf_question(
                            #[trigger] qs[i],
                        ) by {
                            if i > 0 {
                                assert(qs[i] == rest[i - 1]);
                            }
                        }
                    },
                    Err(e) => {},
                }
            },
            Err(e) => {},
        }
    }
}

/// Law: a decoded message carries exactly `qdcount` questions, each
/// well-formed, its answer list is present, and re-encoding its header and
/// question section reproduces the bytes they were decoded from — so the
/// handler can echo the questions, pointer labels included, byte for byte.
pub proof fn lemma_decode_exact(b: Seq<u8>)
    ensures
        match spec_decode(b) {
            Ok(Some(p)) => {
                &&& header_valid(p.header)
                &&& p.question.len() == p.header.qdcount
                &&& p.answer is Some
                &&& forall|i: int| 0 <= i < p.question.len() ==> wf_question(#[trigger] p.question[i])
                &&& header_bytes(p.header) == b.subrange(0, 12)
                &&& questions_bytes(p.question) == b.subrange(
                    12,
                    12 + questions_bytes(p.question).len() as int,
                )
            },
            _ => true,
        },
{
    if b.len() >= 12 {
        crate::header::lemma_header_reencode(b);
        match spec_parse_header(b) {
            Ok((h, p0)) => {
                lemma_parse_questions_exact(b, p0, h.qdcount as nat);
                match spec_parse_questions(b, p0, h.qdcount as nat) {
                    Ok((qs, p1)) => {
                        assert(questions_bytes(qs).len() == p1 - 12);
                    },
                    Err(e) => {},
                }
            },
            Err(e) => {},
        }
    }
}

/// Law: every datagram the encoder produces from a well-formed message
/// decodes back to exactly that message.
#[verifier::rlimit(60)]
pub proof fn lemma_packet_round_trip(p: PacketV)
    requires
        wf_packet(p),
    ensures
        spec_decode(packet_bytes(p)) == Ok::<Option<PacketV>, DnsError>(Some(p)),
{
    let b = packet_bytes(p);
    let ans = p.answer->0;
    assert(b =~= header_bytes(p.header) + questions_bytes(p.question) + answers_bytes(ans));
    crate::header::lemma_header_round_trip(
        p.header,
        questions_bytes(p.question) + answers_bytes(ans),
    );
    assert(header_bytes(p.header) + (questions_bytes(p.question) + answers_bytes(ans)) =~= b);
    assert(b.len() >= 12);
    lemma_parse_encoded_questions(p.question, header_bytes(p.header), answers_bytes(ans));
    assert(header_bytes(p.header) + questions_bytes(p.question) + answers_bytes(ans) =~= b);
    assert(header_bytes(p.header).len() == 12);
    lemma_parse_encoded_answers(
        ans,
        header_bytes(p.header) + questions_bytes(p.question),
        Seq::empty(),
    );
    assert((header_bytes(p.header) + questions_bytes(p.question)) + answers_bytes(ans)
        + Seq::<u8>::empty() =~= b);
    assert(p =~= (PacketV { header: p.header, question: p.question, answer: Some(ans) }));
}


/// Decodes whole datagrams to messages and encodes messages to datagrams.
pub struct Parser;

impl Parser {
    /// Builds a parser.
    pub fn new() -> Parser {
        Parser
    }

    /// Decodes the datagram held in `src`.  A buffer shorter than a header
    /// yields `Ok(None)` and is left untouched; otherwise the whole buffer
    /// is consumed and decoded as `spec_decode` describes.
    pub fn decode(&mut self, src: &mut BytesMut) -> (r: Result<Option<UdpPacket>, DnsError>)
        ensures
            decode_res_view(r) == spec_decode(bytes_mut_data(*old(src))),
            bytes_mut_data(*old(src)).len() < 12 ==> bytes_mut_data(*final(src)) == bytes_mut_data(
                *old(src),
            ),
            bytes_mut_data(*old(src)).len() >= 12 ==> bytes_mut_data(*final(src)).len() == 0,
    {
        let n = bytes_mut_len(src);
        if n < 12 {
            return Ok(None);
        }
        let buf = bytes_mut_to_vec(src);
        bytes_mut_advance(src, n);
        parse_packet(&buf)
    }

    /// Encodes a message and appends its datagram bytes to `dst`.
    pub fn encode(&mut self, item: UdpPacket, dst: &mut BytesMut) -> (r: Result<(), DnsError>)
        ensures
            r is Ok,
            bytes_mut_data(*final(dst)) == bytes_mut_data(*old(dst)) + packet_bytes(item@),
    {
        let out = encode_packet(&item);
        bytes_mut_extend(dst, &out);
        Ok(())
    }
}

/// The number of answers a message carries.
pub open spec fn answer_count(p: PacketV) -> nat {
    match p.answer {
        Some(a) => a.len(),
        None => 0,
    }
}

/// The message with its last answer removed and the count adjusted.
pub open spec fn drop_last_answer(p: PacketV) -> PacketV {
    PacketV {
        header: Header { ancount: (p.answer->0.len() - 1) as u16, ..p.header },
        question: p.question,
        answer: Some(p.answer->0.drop_last()),
    }
}

/// Removes trailing answers until the encoding fits in 512 bytes.
pub open spec fn spec_shrink(p: PacketV) -> PacketV
    decreases answer_count(p),
{
    if packet_bytes(p).len() <= 512 {
        p
    } else {
        match p.answer {
            Some(a) => if a.len() > 0 {
                spec_shrink(drop_last_answer(p))
            } else {
                p
            },
            None => p,
        }
    }
}

/// The message as the sender frames it: when the encoding exceeds 512
/// bytes, trailing answers are removed until it fits and `TC` is set.
pub open spec fn spec_prepare(p: PacketV) -> PacketV {
    let s = spec_shrink(p);
    if answer_count(s) == answer_count(p) {
        p
    } else {
        PacketV {
            header: Header { tc: true, ..s.header },
            question: s.question,
            answer: s.answer,
        }
    }
}

/// One message, one header, questions, answers.
pub open spec fn assemble(h: Header, qs: Seq<QuestionV>, ans: Seq<AnswerV>) -> PacketV {
    PacketV { header: h, question: qs, answer: Some(ans) }
}

/// Law (and the sender's framing): every outgoing datagram is the encoding
/// of `spec_prepare` of its message, so it stays within 512 bytes whenever
/// the header and question section alone fit, and `TC` is set if and only
/// if answers had to be removed.
#[verifier::loop_isolation(false)]
#[verifier::rlimit(100)]
pub fn to_datagram(p: UdpPacket) -> (r: Vec<u8>)
    requires
        p@.answer is Some,
        p@.header.ancount == p@.answer->0.len(),
    ensures
        r@ == packet_bytes(spec_prepare(p@)),
        packet_bytes(p@).len() <= 512 ==> r@ == packet_bytes(p@),
        12 + questions_bytes(p@.question).len() <= 512 ==> r@.len() <= 512,
        (12 + questions_bytes(p@.question).len() <= 512 && packet_bytes(p@).len() > 512)
            ==> spec_prepare(p@).header.tc,
{
    let UdpPacket { header, question, answer } = p;
    let mut header = header;
    let mut answers: Vec<Answer> = match answer {
        Some(a) => a,
        None => {
            proof {
                assert(false);
            }
            Vec::new()
        },
    };
    let orig_count = answers.len();
    let mut enc = encode_message(&header, &question, &answers);
    assert(enc@ == packet_bytes(p@));
    while enc.len() > 512 && answers.len() > 0
        invariant
            header.ancount == answers@.len(),
            answers@.len() <= orig_count,
            (Header { ancount: p@.header.ancount, ..header }) == p@.header,
            spec_shrink(p@) == spec_shrink(
                assemble(header, view_questions(question@), view_answers(answers@)),
            ),
            enc@ == packet_bytes(assemble(header, view_questions(question@), view_answers(answers@))),
            answers@.len() == orig_count ==> (header == p@.header && view_answers(answers@)
                == p@.answer->0),
        decreases answers@.len(),
    {
        let ghost prev = assemble(header, view_questions(question@), view_answers(answers@));
        let _ = answers.pop();
        header.ancount = answers.len() as u16;
        enc = encode_message(&header, &question, &answers);
        proof {
            assert(view_answers(answers@) =~= prev.answer->0.drop_last());
            assert(drop_last_answer(prev) =~= assemble(
                header,
                view_questions(question@),
                view_answers(answers@),
            ));
            assert(packet_bytes(prev).len() > 512);
            assert(spec_shrink(prev) == spec_shrink(drop_last_answer(prev)));
        }
    }
    let ghost shrunk = assemble(header, view_questions(question@), view_answers(answers@));
    proof {
        if enc.len() <= 512 {
            assert(spec_shrink(shrunk) == shrunk);
        } else {
            assert(answers@.len() == 0);
            assert(spec_shrink(shrunk) == shrunk);
        }
        assert(spec_shrink(p@) == shrunk);
    }
    if answers.len() < orig_count {
        header.tc = true;
        enc = encode_message(&header, &question, &answers);
        proof {
            let prepared = spec_prepare(p@);
            assert(answer_count(spec_shrink(p@)) != answer_count(p@));
            assert(prepared =~= assemble(header, view_questions(question@), view_answers(answers@)));
            assert(enc@ == packet_bytes(prepared));
            assert(questions_bytes(prepared.question) == questions_bytes(p@.question));
            assert(packet_bytes(prepared).len() == packet_bytes(shrunk).len());
            if 12 + questions_bytes(p@.question).len() <= 512 {
                if packet_bytes(shrunk).len() > 512 {
                    assert(answers@.len() == 0);
                    assert(answers_bytes(view_answers(answers@)) =~= Seq::<u8>::empty());
                    assert(packet_bytes(shrunk).len() == 12 + questions_bytes(
                        p@.question,
                    ).len());
                    assert(false);
                }
            }
        }
    } else {
        proof {
            assert(answers@.len() == orig_count);
            assert(shrunk =~= p@);
            assert(answer_count(spec_shrink(p@)) == answer_count(p@));
            assert(spec_prepare(p@) == p@);
            if 12 + questions_bytes(p@.question).len() <= 512 {
                if enc@.len() > 512 {
                    assert(answers@.len() == 0 && orig_count == 0);
                    assert(answers_bytes(view_answers(answers@)) =~= Seq::<u8>::empty());
                    assert(enc@.len() == 12 + questions_bytes(p@.question).len());
                    assert(false);
                }
            }
        }
    }
    enc
}

impl PartialEq for UdpPacket {
    fn eq(&self, other: &Self) -> (r: bool) {
        let answers_match = match (&self.answer, &other.answer) {
            (None, None) => true,
            (Some(x), Some(y)) => crate::answer::answers_eq(x, y),
            _ => false,
        };
        self.header == other.header && questions_eq(&self.question, &other.question)
            && answers_match
    }
}

impl vstd::std_specs::cmp::PartialEqSpecImpl for UdpPacket {
    open spec fn obeys_eq_spec() -> bool {
        true
    }

    open spec fn eq_spec(&self, other: &UdpPacket) -> bool {
        self@ == other@
    }
}

} // verus!
