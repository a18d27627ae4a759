//! Question records: a name, a query type and a query class.
use vstd::prelude::*;

use crate::error::DecodeError;
use crate::name::{
    decode_name, is_label_seq, lemma_plain_name_decodes_to_itself, lemma_walk_end_in_bounds, name_at,
    name_end,
};
use crate::wire::{be16_at, push_all, push_u16, read_u16, u16_bytes};

verus! {

/// A question; `name` is the resolved wire form of the queried name.
#[derive(Debug)]
pub struct DnsQuestion {
    pub name: Vec<u8>,
    pub qtype: u16,
    pub class: u16,
}

/// What a question holds, as plain values.
pub struct QuestionView {
    pub name: Seq<u8>,
    pub qtype: u16,
    pub class: u16,
}

impl View for DnsQuestion {
    type V = QuestionView;

    open spec fn view(&self) -> QuestionView {
        QuestionView { name: self.name@, qtype: self.qtype, class: self.class }
    }
}

/// A question on the wire: its name uncompressed, then type and class.
pub open spec fn question_bytes(q: QuestionView) -> Seq<u8> {
    q.name + u16_bytes(q.qtype) + u16_bytes(q.class)
}

/// The question at `off`, and the offset just past it.
pub open spec fn question_at(buf: Seq<u8>, off: int) -> Result<(QuestionView, int), DecodeError> {
    match name_at(buf, off) {
        Err(e) => Err(e),
        Ok(name) => {
            let e = name_end(buf, off);
            if e + 4 > buf.len() {
                Err(DecodeError::TruncatedInput)
            } else {
                Ok((QuestionView { name, qtype: be16_at(buf, e), class: be16_at(buf, e + 2) }, e + 4))
            }
        },
    }
}

/// A question ends within the buffer, at least five bytes past its start.
pub proof fn lemma_question_in_bounds(buf: Seq<u8>, off: int)
    requires
        question_at(buf, off) is Ok,
    ensures
        off + 5 <= question_at(buf, off)->Ok_0.1 <= buf.len(),
{
    lemma_walk_end_in_bounds(buf, buf.len() as int, off);
}

/// An encoded question decodes to itself: where a question whose name is a
/// plain sequence of labels stands encoded at `off`, reading the question at
/// `off` gives it back and ends right after it.
pub proof fn lemma_question_round_trip(buf: Seq<u8>, off: int, q: QuestionView)
    requires
        0 <= off,
        off + question_bytes(q).len() <= buf.len(),
        buf.subrange(off, off + question_bytes(q).len()) == question_bytes(q),
        is_label_seq(q.name),
    ensures
        question_at(buf, off) == Ok::<(QuestionView, int), DecodeError>(
            (q, off + question_bytes(q).len()),
        ),
{
    let b = question_bytes(q);
    let k = q.name.len() as int;
    let e = off + k;
    assert(buf.subrange(off, e) =~= q.name) by {
        assert forall|i: int| 0 <= i < q.name.len() implies buf.subrange(off, e)[i] == q.name[i] by {
            assert(buf[off + i] == b[i]);
        }
    }
    lemma_plain_name_decodes_to_itself(buf, buf.len() as int, off, q.name);
    assert(buf[e] == b[k]);
    assert(buf[e + 1] == b[k + 1]);
    assert(buf[e + 2] == b[k + 2]);
    assert(buf[e + 3] == b[k + 3]);
}

impl DnsQuestion {
    /// Decodes the question at `offset`; returns it and the offset just past it.
    pub fn parse(buffer: &[u8], offset: usize) -> (r: Result<(DnsQuestion, usize), DecodeError>)
        ensures
            r is Ok ==> question_at(buffer@, offset as int) == Ok::<
                (QuestionView, int),
                DecodeError,
            >((r->Ok_0.0@, r->Ok_0.1 as int)),
            r is Err ==> question_at(buffer@, offset as int) == Err::<
                (QuestionView, int),
                DecodeError,
            >(r->Err_0),
    {
        match decode_name(buffer, offset) {
            Err(e) => Err(e),
            Ok((name, end)) => {
                proof {
                    lemma_walk_end_in_bounds(buffer@, buffer@.len() as int, offset as int);
                }
                if buffer.len() < 4 || end > buffer.len() - 4 {
                    return Err(DecodeError::TruncatedInput);
                }
                let qtype = read_u16(buffer, end);
                let class = read_u16(buffer, end + 2);
                Ok((DnsQuestion { name, qtype, class }, end + 4))
            },
        }
    }

    /// The question in wire format.
    pub fn to_bytes(&self) -> (r: Vec<u8>)
        ensures
            r@ == question_bytes(self@),
    {
        let mut bytes: Vec<u8> = Vec::new();
        push_all(&mut bytes, self.name.as_slice());
        push_u16(&mut bytes, self.qtype);
        push_u16(&mut bytes, self.class);
        bytes
    }
}

} // verus!
