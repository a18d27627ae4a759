//! Answer (resource) records, synthesized one per question.
use vstd::prelude::*;

use crate::question::{DnsQuestion, QuestionView};
use crate::wire::{push_all, push_u16, push_u32, u16_bytes, u32_bytes};

verus! {

/// Record type of an IPv4 address record.
pub const TYPE_A: u16 = 1;

/// The Internet class.
pub const CLASS_IN: u16 = 1;

/// Time to live of every synthesized answer, in seconds.
pub const ANSWER_TTL: u32 = 60;

/// An answer record; `name` is a resolved wire-form name and `rdlength` gives
/// the length of `rdata`.
#[derive(Debug)]
pub struct DnsAnswer {
    pub name: Vec<u8>,
    pub rtype: u16,
    pub class: u16,
    pub ttl: u32,
    pub rdlength: u16,
    pub rdata: Vec<u8>,
}

/// What an answer holds, as plain values.
pub struct AnswerView {
    pub name: Seq<u8>,
    pub rtype: u16,
    pub class: u16,
    pub ttl: u32,
    pub rdlength: u16,
    pub rdata: Seq<u8>,
}

impl View for DnsAnswer {
    type V = AnswerView;

    open spec fn view(&self) -> AnswerView {
        AnswerView {
            name: self.name@,
            rtype: self.rtype,
            class: self.class,
            ttl: self.ttl,
            rdlength: self.rdlength,
            rdata: self.rdata@,
        }
    }
}

impl AnswerView {
    /// The length field agrees with the resource data.
    pub open spec fn wf(self) -> bool {
        self.rdlength as nat == self.rdata.len()
    }
}

/// The fixed IPv4 address that every synthesized answer carries.
pub open spec fn placeholder_address() -> Seq<u8> {
    seq![8u8, 8u8, 8u8, 8u8]
}

/// The answer synthesized for question `q`: an address record for its name.
pub open spec fn answer_for(q: QuestionView) -> AnswerView {
    AnswerView {
        name: q.name,
        rtype: TYPE_A,
        class: CLASS_IN,
        ttl: ANSWER_TTL,
        rdlength: 4,
        rdata: placeholder_address(),
    }
}

/// An answer on the wire: name, type, class, TTL, data length, data.
pub open spec fn answer_bytes(a: AnswerView) -> Seq<u8> {
    a.name + u16_bytes(a.rtype) + u16_bytes(a.class) + u32_bytes(a.ttl) + u16_bytes(a.rdlength)
        + a.rdata
}

impl DnsAnswer {
    /// The address record that answers `q`.
    pub fn for_question(q: &DnsQuestion) -> (r: DnsAnswer)
        ensures
            r@ == answer_for(q@),
            r@.wf(),
    {
        let mut name: Vec<u8> = Vec::new();
        push_all(&mut name, q.name.as_slice());
        let mut rdata: Vec<u8> = Vec::new();
        rdata.push(8);
        rdata.push(8);
        rdata.push(8);
        rdata.push(8);
        assert(name@ =~= q.name@);
        assert(rdata@ =~= placeholder_address());
        DnsAnswer { name, rtype: TYPE_A, class: CLASS_IN, ttl: ANSWER_TTL, rdlength: 4, rdata }
    }

    /// The answer in wire format, integers in network order.
    pub fn to_bytes(&self) -> (r: Vec<u8>)
        requires
            self@.wf(),
        ensures
            r@ == answer_bytes(self@),
    {
        let mut bytes: Vec<u8> = Vec::new();
        push_all(&mut bytes, self.name.as_slice());
        push_u16(&mut bytes, self.rtype);
        push_u16(&mut bytes, self.class);
        push_u32(&mut bytes, self.ttl);
        push_u16(&mut bytes, self.rdlength);
        push_all(&mut bytes, self.rdata.as_slice());
        bytes
    }
}

} // verus!
