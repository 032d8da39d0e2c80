use vstd::prelude::*;
use crate::reader::{Reader, be16};
use crate::data::{Data, DataView, with_name, empty_data, name_at, data_bytes, plain_name_data, law_name_roundtrip, lemma_name_at_shift, lemma_plain_name_rebuilt};
use crate::header::{u16_bytes, lemma_be16_of_bytes};
pub use crate::header::split_u16;

verus! {

/// Abstract value of a `Question`.
pub struct QuestionView {
    pub qname: DataView,
    pub qtype: u16,
    pub qclass: u16,
}

/// A question of a DNS message: the name asked about, the record type and the class.
pub struct Question {
    pub qname: Data,
    pub qtype: u16,
    pub qclass: u16,
}

impl View for Question {
    type V = QuestionView;

    open spec fn view(&self) -> QuestionView {
        QuestionView { qname: self.qname@, qtype: self.qtype, qclass: self.qclass }
    }
}

/// The question with an empty name, type 0 and class 0.
pub open spec fn empty_question() -> QuestionView {
    QuestionView { qname: empty_data(), qtype: 0, qclass: 0 }
}

/// The question read from `d` at `p` (names may point into `msg`) and the position after it.
pub open spec fn question_at(d: Seq<u8>, p: int, msg: Seq<u8>) -> Option<(QuestionView, int)> {
    match name_at(d, p, msg) {
        Some((ls, q)) => if q + 4 <= d.len() {
            Some((QuestionView { qname: with_name(empty_data(), ls), qtype: be16(d, q), qclass: be16(d, q + 2) }, q + 4))
        } else {
            None
        },
        None => None,
    }
}

/// The bytes written for a question: its name, type and class.
pub open spec fn question_bytes(q: QuestionView) -> Seq<u8> {
    data_bytes(q.qname) + u16_bytes(q.qtype) + u16_bytes(q.qclass)
}

/// The bytes written for a question whose name is plain, found after the bytes `a`,
/// read back as that question, ending where its bytes end.
pub proof fn lemma_question_at_bytes(a: Seq<u8>, q: QuestionView, rest: Seq<u8>, msg: Seq<u8>)
    requires
        plain_name_data(q.qname),
    ensures
        question_at(a + question_bytes(q) + rest, a.len() as int, msg)
            == Some((q, (a.len() + question_bytes(q).len()) as int)),
{
    let d = a + question_bytes(q) + rest;
    let nb = data_bytes(q.qname);
    let tail = u16_bytes(q.qtype) + u16_bytes(q.qclass) + rest;
    law_name_roundtrip(q.qname, tail, msg);
    lemma_name_at_shift(a, nb + tail, 0, msg);
    assert(d =~= a + (nb + tail));
    assert(d =~= (a + nb) + u16_bytes(q.qtype) + (u16_bytes(q.qclass) + rest));
    lemma_be16_of_bytes(a + nb, q.qtype, u16_bytes(q.qclass) + rest, (a.len() + nb.len()) as int);
    assert(d =~= (a + nb + u16_bytes(q.qtype)) + u16_bytes(q.qclass) + rest);
    lemma_be16_of_bytes(a + nb + u16_bytes(q.qtype), q.qclass, rest, (a.len() + nb.len() + 2) as int);
    lemma_plain_name_rebuilt(q.qname);
}

/// Reading back the bytes that `Question::write` writes gives the question written, for a
/// question whose name is plain (each label non-empty, with its length byte), and the
/// reading ends where those bytes end.
pub proof fn law_question_roundtrip(q: QuestionView, rest: Seq<u8>, msg: Seq<u8>)
    requires
        plain_name_data(q.qname),
    ensures
        question_at(question_bytes(q) + rest, 0, msg) == Some((q, question_bytes(q).len() as int)),
{
    lemma_question_at_bytes(Seq::empty(), q, rest, msg);
    assert(Seq::<u8>::empty() + question_bytes(q) + rest =~= question_bytes(q) + rest);
}

impl Question {
    /// A question with an empty name, type 0 and class 0.
    pub fn new() -> (q: Question)
        ensures
            q@ == empty_question(),
    {
        Question { qname: Data::new(), qtype: 0, qclass: 0 }
    }

    /// A copy with the same value.
    pub fn deep_copy(&self) -> (r: Question)
        ensures
            r@ == self@,
    {
        Question { qname: self.qname.deep_copy(), qtype: self.qtype, qclass: self.qclass }
    }

    /// Reads a question from `reader`; names may point into `msg_copy`, the whole message.
    /// Every question type is accepted.
    pub fn read_in(&mut self, reader: &mut Reader, msg_copy: &mut Vec<u8>) -> (r: Result<(), String>)
        requires
            question_at(old(reader).data@, old(reader).pos as int, old(msg_copy)@) is Some,
        ensures
            r is Ok,
            final(self)@ == question_at(old(reader).data@, old(reader).pos as int, old(msg_copy)@).unwrap().0,
            final(reader).pos == question_at(old(reader).data@, old(reader).pos as int, old(msg_copy)@).unwrap().1,
            final(reader).data@ == old(reader).data@,
            final(msg_copy)@ == old(msg_copy)@,
    {
        self.qname = Data::new();
        self.qname.read_hostname(reader, msg_copy);
        self.qtype = reader.read_be_u16();
        if !((self.qtype != 0x0001) || (self.qtype != 0x0002)) {
            return Err(String::from_str("Error: Question Type not supported"));
        }
        self.qclass = reader.read_be_u16();
        Ok(())
    }

    /// Makes this a question of type A, class IN, about the name written in `name`
    /// (whose pointers, if any, refer to `msg_copy`).
    pub fn generate(&mut self, name: Vec<u8>, msg_copy: &mut Vec<u8>)
        requires
            name_at(name@, 0, old(msg_copy)@) is Some,
        ensures
            final(self)@ == (QuestionView {
                qname: with_name(empty_data(), name_at(name@, 0, old(msg_copy)@).unwrap().0),
                qtype: 1,
                qclass: 1,
            }),
            final(msg_copy)@ == old(msg_copy)@,
    {
        self.qname = Data::new();
        let mut reader = Reader::new(name);
        self.qname.read_hostname(&mut reader, msg_copy);
        self.qtype = 0x0001;
        self.qclass = 0x0001;
    }

    /// The bytes of the question: its name, type and class.
    pub fn write(&mut self) -> (buf: Vec<u8>)
        ensures
            buf@ == question_bytes(old(self)@),
            final(self)@ == old(self)@,
    {
        let mut question_buffer: Vec<u8> = Vec::new();
        let mut name = self.qname.write();
        question_buffer.append(&mut name);
        split_u16(self.qtype, &mut question_buffer);
        split_u16(self.qclass, &mut question_buffer);
        assert(question_buffer@ =~= question_bytes(self@));
        question_buffer
    }
}

} // verus!
