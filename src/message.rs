//! Whole messages: parsing a query datagram and serializing the response.
use vstd::prelude::*;

use crate::answer::{answer_bytes, answer_for, AnswerView, DnsAnswer};
use crate::error::DecodeError;
use crate::header::{header_bytes, response_header, DnsHeader, HEADER_LEN};
use crate::name::{
    is_label_run, is_label_seq, is_pointer_byte, lemma_label_run_then,
    lemma_plain_name_decodes_to_itself, pointer_target,
};
use crate::question::{
    lemma_question_in_bounds, lemma_question_round_trip, question_at, question_bytes, DnsQuestion,
    QuestionView,
};
use crate::wire::{be16_at, lemma_u16_bytes_round_trip, push_all, u16_bytes};

verus! {

/// The largest message this codec accepts, in bytes.
pub const MAX_MESSAGE_LEN: usize = 65535;

/// A message: its header (absent until a datagram is parsed), its questions
/// and one answer per question.
#[derive(Debug)]
pub struct DNSMessage {
    pub header: Option<DnsHeader>,
    pub questions: Vec<DnsQuestion>,
    pub answers: Vec<DnsAnswer>,
}

/// What a message holds, as plain values.
pub struct MessageView {
    pub header: Option<DnsHeader>,
    pub questions: Seq<QuestionView>,
    pub answers: Seq<AnswerView>,
}

/// The plain values of each question, in order.
pub open spec fn question_views(qs: Seq<DnsQuestion>) -> Seq<QuestionView> {
    qs.map_values(|q: DnsQuestion| q@)
}

/// The plain values of each answer, in order.
pub open spec fn answer_views(a: Seq<DnsAnswer>) -> Seq<AnswerView> {
    a.map_values(|x: DnsAnswer| x@)
}

impl View for DNSMessage {
    type V = MessageView;

    open spec fn view(&self) -> MessageView {
        MessageView {
            header: self.header,
            questions: question_views(self.questions@),
            answers: answer_views(self.answers@),
        }
    }
}

/// Nothing but zero bytes from `off` to the end of the buffer.
pub open spec fn only_padding(buf: Seq<u8>, off: int) -> bool {
    forall|i: int| off <= i < buf.len() ==> buf[i] == 0
}

/// The questions from `off` on, read one after another until the rest of the
/// buffer is empty or all zero.
pub open spec fn questions_from(buf: Seq<u8>, off: int) -> Result<Seq<QuestionView>, DecodeError>
    decreases buf.len() - off,
{
    if only_padding(buf, off) {
        Ok(Seq::empty())
    } else {
        match question_at(buf, off) {
            Err(e) => Err(e),
            Ok((q, next)) => if next <= off || next > buf.len() {
                Err(DecodeError::TruncatedInput)
            } else {
                match questions_from(buf, next) {
                    Err(e) => Err(e),
                    Ok(rest) => Ok(seq![q] + rest),
                }
            },
        }
    }
}

/// The answers synthesized for `qs`, one each, in the same order.
pub open spec fn answers_for(qs: Seq<QuestionView>) -> Seq<AnswerView> {
    qs.map_values(|q: QuestionView| answer_for(q))
}

/// The response header for the query in `buf`, counting `k` questions and
/// `k` answers.
pub open spec fn counted_header(buf: Seq<u8>, k: nat) -> DnsHeader {
    DnsHeader { qdcount: k as u16, ancount: k as u16, ..response_header(buf) }
}

/// The message parsed from the query datagram `buf`.
pub open spec fn parse_message(buf: Seq<u8>) -> Result<MessageView, DecodeError> {
    if buf.len() < 12 {
        Err(DecodeError::TruncatedInput)
    } else {
        match questions_from(buf, 12) {
            Err(e) => Err(e),
            Ok(qs) => Ok(
                MessageView {
                    header: Some(counted_header(buf, qs.len())),
                    questions: qs,
                    answers: answers_for(qs),
                },
            ),
        }
    }
}

/// The questions in wire format, one after another.
pub open spec fn questions_bytes(qs: Seq<QuestionView>) -> Seq<u8>
    decreases qs.len(),
{
    if qs.len() == 0 {
        Seq::empty()
    } else {
        questions_bytes(qs.drop_last()) + question_bytes(qs.last())
    }
}

/// The answers in wire format, one after another.
pub open spec fn answers_bytes(a: Seq<AnswerView>) -> Seq<u8>
    decreases a.len(),
{
    if a.len() == 0 {
        Seq::empty()
    } else {
        answers_bytes(a.drop_last()) + answer_bytes(a.last())
    }
}

/// The header of `m` with its question and answer counts set to the numbers
/// of records that `m` holds.
pub open spec fn header_with_counts(m: MessageView) -> DnsHeader {
    DnsHeader {
        qdcount: m.questions.len() as u16,
        ancount: m.answers.len() as u16,
        ..m.header.unwrap()
    }
}

/// The message in wire format: header, questions, answers.
pub open spec fn message_bytes(m: MessageView) -> Seq<u8> {
    header_bytes(header_with_counts(m)) + questions_bytes(m.questions) + answers_bytes(m.answers)
}

/// Every question read from `off` on takes at least five bytes.
pub proof fn lemma_questions_fit(buf: Seq<u8>, off: int)
    requires
        0 <= off <= buf.len(),
        questions_from(buf, off) is Ok,
    ensures
        questions_from(buf, off)->Ok_0.len() * 5 <= buf.len() - off,
    decreases buf.len() - off,
{
    if !only_padding(buf, off) {
        let next = question_at(buf, off)->Ok_0.1;
        lemma_question_in_bounds(buf, off);
        lemma_questions_fit(buf, next);
    }
}

impl DNSMessage {
    /// A message with no header, questions or answers.
    pub fn new() -> (r: DNSMessage)
        ensures
            r@.header is None,
            r@.questions.len() == 0,
            r@.answers.len() == 0,
    {
        DNSMessage { header: None, questions: Vec::new(), answers: Vec::new() }
    }

    /// Parses the query datagram `buffer` into a response: the response header
    /// for its header, its questions in order, and one synthesized answer per
    /// question.
    pub fn parse(&self, buffer: &[u8]) -> (r: Result<DNSMessage, DecodeError>)
        requires
            buffer@.len() <= MAX_MESSAGE_LEN,
        ensures
            r is Ok ==> parse_message(buffer@) == Ok::<MessageView, DecodeError>(r->Ok_0@),
            r is Err ==> parse_message(buffer@) == Err::<MessageView, DecodeError>(r->Err_0),
    {
        let header = match DnsHeader::new(buffer) {
            Err(e) => return Err(e),
            Ok(h) => h,
        };
        let questions = match Self::parse_questions(buffer) {
            Err(e) => return Err(e),
            Ok(qs) => qs,
        };
        proof {
            lemma_questions_fit(buffer@, 12);
        }
        let answers = Self::parse_answers(&questions);
        let k = questions.len() as u16;
        let header = DnsHeader { qdcount: k, ancount: k, ..header };
        let r = DNSMessage { header: Some(header), questions, answers };
        assert(r@.answers =~= answers_for(r@.questions));
        Ok(r)
    }

    /// The questions of `buffer`, from the end of its header on.
    fn parse_questions(buffer: &[u8]) -> (r: Result<Vec<DnsQuestion>, DecodeError>)
        requires
            buffer@.len() >= 12,
        ensures
            r is Ok ==> questions_from(buffer@, 12) == Ok::<Seq<QuestionView>, DecodeError>(
                question_views(r->Ok_0@),
            ),
            r is Err ==> questions_from(buffer@, 12) == Err::<Seq<QuestionView>, DecodeError>(
                r->Err_0,
            ),
    {
        // Trailing zero bytes are padding, not questions.
        let mut stop: usize = buffer.len();
        while stop > HEADER_LEN && buffer[stop - 1] == 0
            invariant
                HEADER_LEN <= stop <= buffer@.len(),
                only_padding(buffer@, stop as int),
            decreases stop,
        {
            stop = stop - 1;
        }
        let mut questions: Vec<DnsQuestion> = Vec::new();
        let mut off: usize = HEADER_LEN;
        while off < stop
            invariant
                HEADER_LEN <= off <= buffer@.len(),
                HEADER_LEN <= stop <= buffer@.len(),
                only_padding(buffer@, stop as int),
                stop > HEADER_LEN ==> buffer@[stop - 1] != 0,
                questions_from(buffer@, 12) == match questions_from(buffer@, off as int) {
                    Ok(rest) => Ok(question_views(questions@) + rest),
                    Err(e) => Err(e),
                },
            decreases buffer@.len() - off,
        {
            assert(!only_padding(buffer@, off as int)) by {
                assert(buffer@[stop - 1] != 0);
            }
            match DnsQuestion::parse(buffer, off) {
                Err(e) => return Err(e),
                Ok((q, next)) => {
                    proof {
                        lemma_question_in_bounds(buffer@, off as int);
                        if let Ok(rest) = questions_from(buffer@, next as int) {
                            assert(question_views(questions@) + (seq![q@] + rest)
                                =~= question_views(questions@.push(q)) + rest);
                        }
                    }
                    questions.push(q);
                    off = next;
                },
            }
        }
        assert(only_padding(buffer@, off as int));
        assert(question_views(questions@) + Seq::empty() =~= question_views(questions@));
        Ok(questions)
    }

    /// One answer per question, in the same order.
    fn parse_answers(questions: &Vec<DnsQuestion>) -> (r: Vec<DnsAnswer>)
        ensures
            answer_views(r@) == answers_for(question_views(questions@)),
    {
        let mut answers: Vec<DnsAnswer> = Vec::new();
        let mut i: usize = 0;
        while i < questions.len()
            invariant
                i <= questions@.len(),
                answers@.len() == i,
                answer_views(answers@) =~= answers_for(question_views(questions@.subrange(0, i as int))),
            decreases questions@.len() - i,
        {
            let ghost done = answers@;
            answers.push(DnsAnswer::for_question(&questions[i]));
            proof {
                let want = answers_for(question_views(questions@.subrange(0, i + 1)));
                assert forall|j: int| 0 <= j <= i implies answer_views(answers@)[j] == want[j] by {
                    if j < i {
                        assert(answers@[j] == done[j]);
                        assert(answer_views(done)[j] == answers_for(
                            question_views(questions@.subrange(0, i as int)),
                        )[j]);
                    }
                }
                assert(answer_views(answers@) =~= want);
            }
            i = i + 1;
        }
        assert(questions@.subrange(0, i as int) =~= questions@);
        answers
    }

    /// The message in wire format: the header with its counts set to the
    /// numbers of questions and answers, then the questions, then the answers.
    pub fn to_bytes(&self) -> (r: Vec<u8>)
        requires
            self.header is Some,
            forall|i: int| 0 <= i < self.answers@.len() ==> (#[trigger] self.answers@[i])@.wf(),
        ensures
            r@ == message_bytes(self@),
    {
        let h = self.header.unwrap();
        let header = DnsHeader {
            qdcount: self.questions.len() as u16,
            ancount: self.answers.len() as u16,
            ..h
        };
        let mut bytes = header.to_bytes();
        let ghost head = bytes@;
        let mut i: usize = 0;
        while i < self.questions.len()
            invariant
                i <= self.questions@.len(),
                bytes@ == head + questions_bytes(question_views(self.questions@.subrange(0, i as int))),
            decreases self.questions@.len() - i,
        {
            let q = self.questions[i].to_bytes();
            push_all(&mut bytes, q.as_slice());
            proof {
                let before = question_views(self.questions@.subrange(0, i as int));
                let after = question_views(self.questions@.subrange(0, i + 1));
                assert(after.drop_last() =~= before);
                assert(after.last() == self.questions@[i as int]@);
                assert(bytes@ =~= head + questions_bytes(after));
            }
            i = i + 1;
        }
        assert(self.questions@.subrange(0, i as int) =~= self.questions@);
        let ghost mid = bytes@;
        let mut j: usize = 0;
        while j < self.answers.len()
            invariant
                j <= self.answers@.len(),
                forall|i: int| 0 <= i < self.answers@.len() ==> (#[trigger] self.answers@[i])@.wf(),
                bytes@ == mid + answers_bytes(answer_views(self.answers@.subrange(0, j as int))),
            decreases self.answers@.len() - j,
        {
            let a = self.answers[j].to_bytes();
            push_all(&mut bytes, a.as_slice());
            proof {
                let before = answer_views(self.answers@.subrange(0, j as int));
                let after = answer_views(self.answers@.subrange(0, j + 1));
                assert(after.drop_last() =~= before);
                assert(after.last() == self.answers@[j as int]@);
                assert(bytes@ =~= mid + answers_bytes(after));
            }
            j = j + 1;
        }
        assert(self.answers@.subrange(0, j as int) =~= self.answers@);
        bytes
    }
}

/// Count consistency: the response to a parsed query with k questions states
/// k questions and k answers in its header, and holds k answers, the i-th
/// answering the i-th question.
pub proof fn lemma_response_counts(buf: Seq<u8>)
    requires
        buf.len() <= MAX_MESSAGE_LEN,
        parse_message(buf) is Ok,
    ensures
        ({
            let m = parse_message(buf)->Ok_0;
            let out = message_bytes(m);
            &&& be16_at(out, 4) == m.questions.len()
            &&& be16_at(out, 6) == m.questions.len()
            &&& m.answers.len() == m.questions.len()
            &&& forall|i: int|
                0 <= i < m.questions.len() ==> #[trigger] m.answers[i] == answer_for(m.questions[i])
            &&& out == header_bytes(header_with_counts(m)) + questions_bytes(m.questions)
                + answers_bytes(m.answers)
        }),
{
    let m = parse_message(buf)->Ok_0;
    lemma_questions_fit(buf, 12);
    let h = header_with_counts(m);
    let out = message_bytes(m);
    let hb = header_bytes(h);
    assert(out[4] == hb[4] && out[5] == hb[5] && out[6] == hb[6] && out[7] == hb[7]);
    assert(hb.subrange(4, 6) =~= u16_bytes(h.qdcount));
    assert(hb.subrange(6, 8) =~= u16_bytes(h.ancount));
    lemma_u16_bytes_round_trip(h.qdcount);
    lemma_u16_bytes_round_trip(h.ancount);
    assert(be16_at(out, 4) == be16_at(u16_bytes(h.qdcount), 0));
    assert(be16_at(out, 6) == be16_at(u16_bytes(h.ancount), 0));
}

/// Two questions, the second compressed: a datagram holding an uncompressed
/// question `q1` at offset 12, then a question whose name is the labels
/// `labels` followed by a pointer to a label boundary `t` inside `q1`'s name,
/// then only zero bytes, parses into exactly these two questions, each name
/// resolved on its own, and two answers.
pub proof fn lemma_two_questions_second_compressed(
    buf: Seq<u8>,
    q1: QuestionView,
    labels: Seq<u8>,
    t: int,
    qtype: u16,
    class: u16,
    s2: int,
    p: int,
)
    requires
        s2 == 12 + question_bytes(q1).len(),
        p == s2 + labels.len(),
        p + 6 <= buf.len(),
        buf.subrange(12, s2) == question_bytes(q1),
        buf.subrange(s2, p) == labels,
        is_pointer_byte(buf[p]),
        pointer_target(buf, p) == t,
        buf.subrange(p + 2, p + 6) == u16_bytes(qtype) + u16_bytes(class),
        only_padding(buf, p + 6),
        is_label_seq(q1.name),
        12 <= t < 12 + q1.name.len(),
        is_label_seq(q1.name.subrange(t - 12, q1.name.len() as int)),
        is_label_run(labels),
    ensures
        parse_message(buf) is Ok,
        parse_message(buf)->Ok_0.questions == seq![
            q1,
            QuestionView {
                name: labels + q1.name.subrange(t - 12, q1.name.len() as int),
                qtype,
                class,
            },
        ],
        parse_message(buf)->Ok_0.answers.len() == 2,
{
    let len = buf.len() as int;
    let suffix = q1.name.subrange(t - 12, q1.name.len() as int);
    let q2 = QuestionView { name: labels + suffix, qtype, class };
    // The first question reads back as itself.
    assert(buf.subrange(12, 12 + question_bytes(q1).len() as int) == question_bytes(q1));
    lemma_question_round_trip(buf, 12, q1);
    // The second name: its labels, then the pointer into the first name.
    lemma_label_run_then(buf, len, s2, labels);
    assert(buf.subrange(t, t + suffix.len()) =~= suffix) by {
        assert forall|i: int| 0 <= i < suffix.len() implies buf.subrange(t, t + suffix.len())[i]
            == suffix[i] by {
            assert(buf[t + i] == buf.subrange(12, s2)[t - 12 + i]);
        }
    }
    lemma_plain_name_decodes_to_itself(buf, t, t, suffix);
    assert(buf[p + 2] == buf.subrange(p + 2, p + 6)[0]);
    assert(buf[p + 3] == buf.subrange(p + 2, p + 6)[1]);
    assert(buf[p + 4] == buf.subrange(p + 2, p + 6)[2]);
    assert(buf[p + 5] == buf.subrange(p + 2, p + 6)[3]);
    lemma_u16_bytes_round_trip(qtype);
    lemma_u16_bytes_round_trip(class);
    assert(be16_at(buf, p + 2) == qtype);
    assert(be16_at(buf, p + 4) == class);
    assert(question_at(buf, s2) == Ok::<(QuestionView, int), DecodeError>((q2, p + 6)));
    // Neither question start is padding: the pointer byte lies beyond both.
    assert(buf[p] != 0);
    assert(!only_padding(buf, s2));
    assert(!only_padding(buf, 12));
    assert(questions_from(buf, p + 6) == Ok::<Seq<QuestionView>, DecodeError>(Seq::empty()));
    assert(seq![q2] + Seq::<QuestionView>::empty() =~= seq![q2]);
    assert(questions_from(buf, s2) == Ok::<Seq<QuestionView>, DecodeError>(seq![q2]));
    assert(seq![q1] + seq![q2] =~= seq![q1, q2]);
    assert(questions_from(buf, 12) == Ok::<Seq<QuestionView>, DecodeError>(seq![q1, q2]));
}

} // verus!
