//! The per-datagram handler: response headers, synthetic answers, upstream
//! sub-queries and the merge of their results.
//!
//! Everything here is a pure decision: the surrounding process performs the
//! socket work and hands values back.

use vstd::prelude::*;

use crate::answer::Answer;
use crate::answer::AnswerV;
use crate::answer::RData;
use crate::answer::view_answers;
use crate::header::Header;
use crate::name::clone_labels;
use crate::parser::PacketV;
use crate::parser::UdpPacket;
use crate::question::Question;
use crate::question::QuestionClass;
use crate::question::QuestionType;
use crate::question::QuestionV;

verus! {

/// The header of a response to `req` that carries `ancount` answers: the
/// identifier, opcode, rd bit and question count are echoed, `qr` is set,
/// `aa`, `tc`, `ra` and `z` are cleared, and `rcode` is 0 for a standard
/// query and 4 (not implemented) for any other opcode.
pub open spec fn response_header(req: Header, ancount: u16) -> Header {
    Header {
        id: req.id,
        qdcount: req.qdcount,
        ancount: ancount,
        nscount: 0,
        arcount: 0,
        qr: true,
        opcode: req.opcode,
        aa: false,
        tc: false,
        rd: req.rd,
        ra: false,
        z: 0,
        rcode: if req.opcode == 0 {
            0
        } else {
            4
        },
    }
}

/// Builds the response header for a request, exactly as `response_header`
/// describes.
pub fn build_response_header(req: &Header, ancount: u16) -> (r: Header)
    ensures
        r == response_header(*req, ancount),
{
    Header {
        id: req.id,
        qdcount: req.qdcount,
        ancount: ancount,
        nscount: 0,
        arcount: 0,
        qr: true,
        opcode: req.opcode,
        aa: false,
        tc: false,
        rd: req.rd,
        ra: false,
        z: 0,
        rcode: if req.opcode == 0 {
            0
        } else {
            4
        },
    }
}

/// The stand-in answer for a question: an `A` record for the question's
/// name, class `IN`, a TTL of 3600 seconds and the fixed address 8.8.8.8.
pub open spec fn synthetic_answer(q: QuestionV) -> AnswerV {
    AnswerV {
        name: q.qname,
        typ: QuestionType::A,
        class: QuestionClass::IN,
        ttl: 3600,
        length: 4,
        data: RData::A(8, 8, 8, 8),
    }
}

/// Builds the stand-in answer for one question.
pub fn synthesize_answer(q: &Question) -> (a: Answer)
    ensures
        a@ == synthetic_answer(q@),
{
    Answer {
        name: clone_labels(&q.qname),
        typ: QuestionType::A,
        class: QuestionClass::IN,
        ttl: 3600,
        length: 4,
        data: RData::A(8, 8, 8, 8),
    }
}

/// The answer section of a response built without an upstream: one
/// synthetic answer per question, in question order.
pub open spec fn synthetic_answers(qs: Seq<QuestionV>) -> Seq<AnswerV> {
    qs.map_values(|q: QuestionV| synthetic_answer(q))
}

/// Handles one query when no upstream resolver is configured.  The response
/// echoes the request's identifier, opcode, rd bit and questions (pointer
/// labels included), sets `qr`, answers `rcode` 0 exactly for opcode 0 and
/// 4 otherwise, and carries one synthetic `A` answer per question, in
/// question order, with `ancount` set to the question count.
#[verifier::loop_isolation(false)]
pub fn handle_query(packet: UdpPacket) -> (r: UdpPacket)
    ensures
        r@.header == response_header(packet@.header, packet@.header.qdcount),
        r@.header.id == packet@.header.id,
        r@.header.qr,
        r@.header.opcode == packet@.header.opcode,
        r@.header.rd == packet@.header.rd,
        r@.header.qdcount == packet@.header.qdcount,
        r@.header.ancount == packet@.header.qdcount,
        (r@.header.rcode == 0 <==> packet@.header.opcode == 0),
        packet@.header.opcode != 0 ==> r@.header.rcode == 4,
        r@.question == packet@.question,
        r@.answer == Some(synthetic_answers(packet@.question)),
{
    let mut answers: Vec<Answer> = Vec::new();
    let mut i: usize = 0;
    while i < packet.question.len()
        invariant
            i <= packet.question.len(),
            view_answers(answers@) == synthetic_answers(packet@.question).take(i as int),
        decreases packet.question.len() - i,
    {
        answers.push(synthesize_answer(&packet.question[i]));
        proof {
            assert(view_answers(answers@) =~= synthetic_answers(packet@.question).take(i + 1));
        }
        i = i + 1;
    }
    proof {
        assert(synthetic_answers(packet@.question).take(packet@.question.len() as int)
            =~= synthetic_answers(packet@.question));
    }
    let header = build_response_header(&packet.header, packet.header.qdcount);
    UdpPacket { header, question: packet.question, answer: Some(answers) }
}

/// The upstream sub-query for one question: a single-question standard
/// query with a fresh identifier, the request's opcode and rd bit, and all
/// other flags and counts cleared.
pub open spec fn subquery_packet(q: QuestionV, req: Header, id: u16) -> PacketV {
    PacketV {
        header: Header {
            id,
            qdcount: 1,
            ancount: 0,
            nscount: 0,
            arcount: 0,
            qr: false,
            opcode: req.opcode,
            aa: false,
            tc: false,
            rd: req.rd,
            ra: false,
            z: 0,
            rcode: 0,
        },
        question: seq![q],
        answer: Some(Seq::empty()),
    }
}

/// Builds the sub-query forwarded upstream for one question.
pub fn make_subquery(q: &Question, req: &Header, id: u16) -> (r: UdpPacket)
    ensures
        r@ == subquery_packet(q@, *req, id),
{
    let copy = Question { qname: clone_labels(&q.qname), qtype: q.qtype, qclass: q.qclass };
    let mut question: Vec<Question> = Vec::new();
    question.push(copy);
    let header = Header {
        id,
        qdcount: 1,
        ancount: 0,
        nscount: 0,
        arcount: 0,
        qr: false,
        opcode: req.opcode,
        aa: false,
        tc: false,
        rd: req.rd,
        ra: false,
        z: 0,
        rcode: 0,
    };
    let r = UdpPacket { header, question, answer: Some(Vec::new()) };
    proof {
        assert(r@.question =~= seq![q@]);
        assert(r@.answer->0 =~= Seq::<AnswerV>::empty());
        assert(r@ =~= subquery_packet(q@, *req, id));
    }
    r
}

/// The resolver client's check on one upstream datagram: the answers are
/// taken exactly when the reply's identifier matches the sub-query's; an
/// unrelated datagram yields nothing and the wait goes on.
pub fn accept_reply(reply: UdpPacket, id: u16) -> (r: Option<Vec<Answer>>)
    ensures
        (r is Some) <==> (reply@.header.id == id && reply@.answer is Some),
        r is Some ==> view_answers(r->0@) == reply@.answer->0,
{
    if reply.header.id == id {
        match reply.answer {
            Some(a) => Some(a),
            None => None,
        }
    } else {
        None
    }
}

/// The models of per-question upstream results.
pub open spec fn view_results(s: Seq<Option<Vec<Answer>>>) -> Seq<Option<Seq<AnswerV>>> {
    s.map_values(
        |r: Option<Vec<Answer>>|
            match r {
                Some(v) => Some(view_answers(v@)),
                None => None,
            },
    )
}

/// The merged answer section: slot `i` carries the upstream answers for
/// question `i` when the sub-query brought any, and the synthetic fallback
/// answer when it failed or brought none, in question order.
pub open spec fn merged_answers(qs: Seq<QuestionV>, results: Seq<Option<Seq<AnswerV>>>) -> Seq<
    AnswerV,
>
    decreases qs.len(),
{
    if qs.len() == 0 {
        Seq::empty()
    } else {
        let head = match results[0] {
            Some(ans) => if ans.len() > 0 {
                ans
            } else {
                seq![synthetic_answer(qs[0])]
            },
            None => seq![synthetic_answer(qs[0])],
        };
        head + merged_answers(qs.drop_first(), results.drop_first())
    }
}

/// Handles one query when an upstream resolver is configured, given the
/// per-question results of the sub-queries (`None` for a sub-query that
/// timed out or whose reply did not decode).  The response echoes the
/// request's identifier, opcode, rd bit and questions, sets `qr`, and its
/// answer section is the merge of the upstream results with the synthetic
/// fallback, with `ancount` the number of answers carried.
#[verifier::loop_isolation(false)]
pub fn build_response(query: UdpPacket, results: Vec<Option<Vec<Answer>>>) -> (r: UdpPacket)
    requires
        results@.len() == query@.question.len(),
        merged_answers(query@.question, view_results(results@)).len() <= u16::MAX,
    ensures
        r@.header == response_header(
            query@.header,
            merged_answers(query@.question, view_results(results@)).len() as u16,
        ),
        r@.header.id == query@.header.id,
        r@.header.qr,
        r@.header.opcode == query@.header.opcode,
        r@.header.rd == query@.header.rd,
        r@.header.qdcount == query@.header.qdcount,
        (r@.header.rcode == 0 <==> query@.header.opcode == 0),
        r@.question == query@.question,
        r@.answer == Some(merged_answers(query@.question, view_results(results@))),
{
    let ghost qs = query@.question;
    let ghost rs = view_results(results@);
    let mut results = results;
    let mut answers: Vec<Answer> = Vec::new();
    let mut i: usize = 0;
    proof {
        assert(qs.skip(0) =~= qs);
        assert(rs.skip(0) =~= rs);
        assert(view_answers(answers@) =~= Seq::<AnswerV>::empty());
        assert(Seq::<AnswerV>::empty() + merged_answers(qs, rs) =~= merged_answers(qs, rs));
    }
    while i < query.question.len()
        invariant
            i <= qs.len(),
            results@.len() == qs.len() - i,
            view_results(results@) == rs.skip(i as int),
            merged_answers(qs, rs) == view_answers(answers@) + merged_answers(
                qs.skip(i as int),
                rs.skip(i as int),
            ),
        decreases qs.len() - i,
    {
        let ghost old_answers = answers@;
        let ghost old_results = results@;
        let taken = results.remove(0);
        proof {
            assert(view_results(results@) =~= view_results(old_results).drop_first());
            assert(view_results(results@) =~= rs.skip(i + 1));
            assert(qs.skip(i as int)[0] == qs[i as int]);
            assert(qs.skip(i as int).drop_first() =~= qs.skip(i + 1));
            assert(rs.skip(i as int)[0] == rs[i as int]);
            assert(rs.skip(i as int).drop_first() =~= rs.skip(i + 1));
        }
        let ghost head = (match rs[i as int] {
            Some(ans) => if ans.len() > 0 {
                ans
            } else {
                seq![synthetic_answer(qs[i as int])]
            },
            None => seq![synthetic_answer(qs[i as int])],
        });
        proof {
            assert(merged_answers(qs.skip(i as int), rs.skip(i as int)) == head + merged_answers(
                qs.skip(i + 1),
                rs.skip(i + 1),
            ));
        }
        match taken {
            Some(mut ans) => {
                if ans.len() > 0 {
                    proof {
                        assert(view_answers(ans@) == rs[i as int]->0);
                    }
                    answers.append(&mut ans);
                    proof {
                        assert(view_answers(answers@) =~= view_answers(old_answers) + head);
                    }
                } else {
                    answers.push(synthesize_answer(&query.question[i]));
                    proof {
                        assert(rs[i as int]->0.len() == 0);
                        assert(view_answers(answers@) =~= view_answers(old_answers) + head);
                    }
                }
            },
            None => {
                answers.push(synthesize_answer(&query.question[i]));
                proof {
                    assert(rs[i as int] is None);
                    assert(view_answers(answers@) =~= view_answers(old_answers) + head);
                }
            },
        }
        proof {
            assert(view_answers(answers@) + merged_answers(qs.skip(i + 1), rs.skip(i + 1))
                =~= (view_answers(old_answers) + head) + merged_answers(
                qs.skip(i + 1),
                rs.skip(i + 1),
            ));
        }
        i = i + 1;
    }
    proof {
        assert(qs.skip(qs.len() as int) =~= Seq::<QuestionV>::empty());
        assert(merged_answers(qs, rs) =~= view_answers(answers@));
    }
    let count = answers.len() as u16;
    let header = build_response_header(&query.header, count);
    UdpPacket { header, question: query.question, answer: Some(answers) }
}

} // verus!
