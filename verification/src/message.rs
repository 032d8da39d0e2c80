use vstd::prelude::*;
use crate::reader::Reader;
use crate::data::name_at;
use crate::header::{Header, zero_header, header_from, header_bytes, query_header};
use crate::question::{Question, QuestionView, empty_question, question_at, question_bytes};
use crate::resource::{Resource, ResourceView, empty_resource, resource_at, resource_bytes, writable_resource, resource_address, address_readable};
use crate::data::{with_name, empty_data};
use crate::net::SocketAddress;

verus! {

/// Abstract value of a `Message`.
pub struct MessageView {
    pub header: Header,
    pub questions: Seq<QuestionView>,
    pub answers: Seq<ResourceView>,
    pub authority: Seq<ResourceView>,
    pub additional: Seq<ResourceView>,
    pub msg_copy: Seq<u8>,
    pub timestamp: i64,
    pub server: usize,
}

/// A DNS message: header, questions, answer, authority and additional records, a copy of
/// the bytes it was read from, the time (in nanoseconds) it was last sent, and the index
/// of the next additional record to try as a server.
pub struct Message {
    pub header: Header,
    pub questions: Vec<Question>,
    pub answers: Vec<Resource>,
    pub authority: Vec<Resource>,
    pub additional: Vec<Resource>,
    pub msg_copy: Vec<u8>,
    pub timestamp: i64,
    pub server: usize,
}

/// The abstract values of a vector of questions.
pub open spec fn questions_view(v: Seq<Question>) -> Seq<QuestionView> {
    Seq::new(v.len(), |i: int| v[i]@)
}

/// The abstract values of a vector of records.
pub open spec fn resources_view(v: Seq<Resource>) -> Seq<ResourceView> {
    Seq::new(v.len(), |i: int| v[i]@)
}

impl View for Message {
    type V = MessageView;

    open spec fn view(&self) -> MessageView {
        MessageView {
            header: self.header,
            questions: questions_view(self.questions@),
            answers: resources_view(self.answers@),
            authority: resources_view(self.authority@),
            additional: resources_view(self.additional@),
            msg_copy: self.msg_copy@,
            timestamp: self.timestamp,
            server: self.server,
        }
    }
}

/// The message with a zero header, no questions or records, and no copy.
pub open spec fn empty_message() -> MessageView {
    MessageView {
        header: zero_header(),
        questions: Seq::empty(),
        answers: Seq::empty(),
        authority: Seq::empty(),
        additional: Seq::empty(),
        msg_copy: Seq::empty(),
        timestamp: 0,
        server: 0,
    }
}

/// Reading questions number `i` to `n - 1` from `d` at `p` into `qs`: question `k` is read
/// into entry `k` after an empty question has been appended. The questions and the position
/// after them; `None` where they run past the end of `d`.
pub open spec fn questions_at(qs: Seq<QuestionView>, i: nat, n: nat, d: Seq<u8>, p: int, msg: Seq<u8>) -> Option<(Seq<QuestionView>, int)>
    decreases n - i,
{
    if i >= n {
        Some((qs, p))
    } else {
        match question_at(d, p, msg) {
            Some((q, p2)) => questions_at(qs.push(empty_question()).update(i as int, q), i + 1, n, d, p2, msg),
            None => None,
        }
    }
}

/// Reading records number `i` to `n - 1` from `d` at `p` into `rs`: record `k` is read into
/// entry `k` after an empty record has been appended. The records, the position after
/// them, and the error that stopped the reading if one did; `None` where they run past
/// the end of `d`.
pub open spec fn resources_at(rs: Seq<ResourceView>, i: nat, n: nat, d: Seq<u8>, p: int, msg: Seq<u8>) -> Option<(Seq<ResourceView>, int, Option<Seq<char>>)>
    decreases n - i,
{
    if i >= n {
        Some((rs, p, None))
    } else {
        let rs1 = rs.push(empty_resource());
        match resource_at(rs1[i as int], d, p, msg) {
            Some((r, p2, e)) => if e is Some {
                Some((rs1.update(i as int, r), p2, e))
            } else {
                resources_at(rs1.update(i as int, r), i + 1, n, d, p2, msg)
            },
            None => None,
        }
    }
}

/// Reading the message `data` into `old`: the message afterwards and the error that
/// stopped the reading if one did; `None` where the message runs past the end of `data`.
/// The bytes are appended to the copy, and names may point anywhere into that copy.
pub open spec fn message_at(old: MessageView, data: Seq<u8>) -> Option<(MessageView, Option<Seq<char>>)> {
    let msg = old.msg_copy + data;
    if data.len() < 12 {
        None
    } else {
        let h = header_from(zero_header(), data, 0);
        match questions_at(old.questions, 0, h.qdcount as nat, data, 12, msg) {
            Some((qs, p1)) => {
                let m1 = MessageView { header: h, questions: qs, msg_copy: msg, ..old };
                match resources_at(old.answers, 0, h.ancount as nat, data, p1, msg) {
                    Some((ans, p2, e1)) => {
                        let m2 = MessageView { answers: ans, ..m1 };
                        if e1 is Some {
                            Some((m2, e1))
                        } else {
                            match resources_at(old.authority, 0, h.nscount as nat, data, p2, msg) {
                                Some((auth, p3, e2)) => {
                                    let m3 = MessageView { authority: auth, ..m2 };
                                    if e2 is Some {
                                        Some((m3, e2))
                                    } else {
                                        match resources_at(old.additional, 0, h.arcount as nat, data, p3, msg) {
                                            Some((add, p4, e3)) => Some((MessageView { additional: add, ..m3 }, e3)),
                                            None => None,
                                        }
                                    }
                                },
                                None => None,
                            }
                        }
                    },
                    None => None,
                }
            },
            None => None,
        }
    }
}

/// The bytes of the first `n` questions.
pub open spec fn questions_bytes(qs: Seq<QuestionView>, n: nat) -> Seq<u8>
    decreases n,
{
    if n == 0 {
        Seq::empty()
    } else {
        questions_bytes(qs, (n - 1) as nat) + question_bytes(qs[n - 1])
    }
}

/// The bytes of the first `n` records.
pub open spec fn resources_bytes(rs: Seq<ResourceView>, n: nat) -> Seq<u8>
    decreases n,
{
    if n == 0 {
        Seq::empty()
    } else {
        resources_bytes(rs, (n - 1) as nat) + resource_bytes(rs[n - 1])
    }
}

/// The message can be written: it holds as many questions and answers as its header
/// counts, and each counted answer can be written.
pub open spec fn writable_message(m: MessageView) -> bool {
    &&& m.header.qdcount <= m.questions.len()
    &&& m.header.ancount <= m.answers.len()
    &&& forall|i: int| 0 <= i < m.header.ancount ==> #[trigger] writable_resource(m.answers[i])
}

/// The bytes written for a message (whose header's `tc` has been cleared): the header, the
/// counted questions and the counted answers. Authority and additional records are not written.
pub open spec fn message_bytes(m: MessageView) -> Seq<u8> {
    header_bytes(m.header) + questions_bytes(m.questions, m.header.qdcount as nat)
        + resources_bytes(m.answers, m.header.ancount as nat)
}

/// The index of the first A record of `rs` at or after `i`, or `i` if there is none
/// and `i` is past the end, or the length of `rs`.
pub open spec fn first_a_record(rs: Seq<ResourceView>, i: int) -> int
    decreases rs.len() - i,
{
    if i >= rs.len() {
        i
    } else if rs[i].rtype == 1 {
        i
    } else {
        first_a_record(rs, i + 1)
    }
}

/// Some answer among the first `ancount` has type `t`.
pub open spec fn has_answer_type(m: MessageView, t: u16) -> bool {
    exists|i: int| 0 <= i < m.header.ancount && i < m.answers.len() && #[trigger] m.answers[i].rtype == t
}

/// The first A record from `i` on is an A record, and none before it from `i` on is.
pub proof fn lemma_first_a_record(rs: Seq<ResourceView>, i: int)
    ensures
        first_a_record(rs, i) >= i,
        first_a_record(rs, i) < rs.len() ==> rs[first_a_record(rs, i)].rtype == 1,
        first_a_record(rs, i) >= rs.len() ==> first_a_record(rs, i) == if i >= rs.len() { i } else { rs.len() as int },
        forall|k: int| i <= k < first_a_record(rs, i) ==> #[trigger] rs[k].rtype != 1,
    decreases rs.len() - i,
{
    if i < rs.len() && rs[i].rtype != 1 {
        lemma_first_a_record(rs, i + 1);
    }
}

/// Reads `n` questions from `reader` into `qs`, each into the entry of its number after an
/// empty question has been appended.
fn read_questions(qs: &mut Vec<Question>, n: u16, reader: &mut Reader, msg_copy: &mut Vec<u8>)
    requires
        questions_at(questions_view(old(qs)@), 0, n as nat, old(reader).data@, old(reader).pos as int, old(msg_copy)@) is Some,
    ensures
        ({
            let (v, q) = questions_at(questions_view(old(qs)@), 0, n as nat, old(reader).data@, old(reader).pos as int, old(msg_copy)@).unwrap();
            &&& questions_view(final(qs)@) == v
            &&& final(reader).pos == q
        }),
        final(reader).data@ == old(reader).data@,
        final(msg_copy)@ == old(msg_copy)@,
{
    let ghost d = reader.data@;
    let ghost msg = msg_copy@;
    let ghost total = questions_at(questions_view(qs@), 0, n as nat, d, reader.pos as int, msg);
    let mut i: usize = 0;
    while i < n as usize
        invariant
            i <= n,
            reader.data@ == d,
            msg_copy@ == msg,
            qs@.len() == old(qs)@.len() + i,
            questions_at(questions_view(qs@), i as nat, n as nat, d, reader.pos as int, msg) == total,
            total is Some,
        decreases n - i,
    {
        let ghost before = questions_view(qs@);
        qs.push(Question::new());
        let r = qs[i].read_in(reader, msg_copy);
        match r {
            Ok(()) => {},
            Err(_) => {},
        }
        assert(questions_view(qs@) =~= before.push(empty_question()).update(i as int, qs@[i as int]@));
        i = i + 1;
    }
}

/// Reads `n` records from `reader` into `rs`, each into the entry of its number after an
/// empty record has been appended; stops at the first record that gives an error.
fn read_resources(rs: &mut Vec<Resource>, n: u16, reader: &mut Reader, msg_copy: &mut Vec<u8>) -> (r: Result<(), String>)
    requires
        resources_at(resources_view(old(rs)@), 0, n as nat, old(reader).data@, old(reader).pos as int, old(msg_copy)@) is Some,
    ensures
        ({
            let (v, q, e) = resources_at(resources_view(old(rs)@), 0, n as nat, old(reader).data@, old(reader).pos as int, old(msg_copy)@).unwrap();
            &&& resources_view(final(rs)@) == v
            &&& final(reader).pos == q
            &&& (r is Ok <==> e is None)
            &&& (r matches Err(s) ==> e == Some(s@))
        }),
        final(reader).data@ == old(reader).data@,
        final(msg_copy)@ == old(msg_copy)@,
{
    let ghost d = reader.data@;
    let ghost msg = msg_copy@;
    let ghost total = resources_at(resources_view(rs@), 0, n as nat, d, reader.pos as int, msg);
    let mut i: usize = 0;
    while i < n as usize
        invariant
            i <= n,
            reader.data@ == d,
            msg_copy@ == msg,
            rs@.len() == old(rs)@.len() + i,
            d == old(reader).data@,
            msg == old(msg_copy)@,
            total == resources_at(resources_view(old(rs)@), 0, n as nat, d, old(reader).pos as int, msg),
            resources_at(resources_view(rs@), i as nat, n as nat, d, reader.pos as int, msg) == total,
            total is Some,
        decreases n - i,
    {
        let ghost before = resources_view(rs@);
        rs.push(Resource::new());
        assert(resources_view(rs@) =~= before.push(empty_resource()));
        let r = rs[i].read_in(reader, msg_copy);
        assert(resources_view(rs@) =~= before.push(empty_resource()).update(i as int, rs@[i as int]@));
        match r {
            Ok(()) => {},
            Err(a) => {
                return Err(a);
            },
        }
        i = i + 1;
    }
    Ok(())
}

/// Copies the first `length` bytes of `data`.
fn copy_prefix(data: &[u8], length: usize) -> (r: Vec<u8>)
    requires
        length <= data@.len(),
    ensures
        r@ == data@.take(length as int),
{
    let mut r: Vec<u8> = Vec::new();
    let mut i: usize = 0;
    while i < length
        invariant
            i <= length,
            length <= data@.len(),
            r@ == data@.take(i as int),
        decreases length - i,
    {
        r.push(data[i]);
        i = i + 1;
        assert(r@ =~= data@.take(i as int));
    }
    r
}

/// A copy of each record of `rs`.
pub fn copy_resources(rs: &Vec<Resource>) -> (r: Vec<Resource>)
    ensures
        resources_view(r@) == resources_view(rs@),
{
    let mut r: Vec<Resource> = Vec::new();
    let mut i: usize = 0;
    while i < rs.len()
        invariant
            i <= rs@.len(),
            r@.len() == i,
            resources_view(r@) == resources_view(rs@).take(i as int),
        decreases rs@.len() - i,
    {
        let c = rs[i].deep_copy();
        let ghost before = r@;
        r.push(c);
        assert(r@ == before.push(c));
        i = i + 1;
        assert(resources_view(r@) =~= resources_view(rs@).take(i as int));
    }
    assert(resources_view(rs@).take(i as int) =~= resources_view(rs@));
    r
}

/// A copy of a byte vector.
pub fn copy_bytes(v: &Vec<u8>) -> (r: Vec<u8>)
    ensures
        r@ == v@,
{
    let mut r: Vec<u8> = Vec::new();
    let mut i: usize = 0;
    while i < v.len()
        invariant
            i <= v@.len(),
            r@ == v@.take(i as int),
        decreases v@.len() - i,
    {
        r.push(v[i]);
        i = i + 1;
        assert(r@ =~= v@.take(i as int));
    }
    assert(v@.take(i as int) =~= v@);
    r
}

impl Message {
    /// A message with a zero header, no questions or records, and no copy.
    pub fn new() -> (m: Message)
        ensures
            m@ == empty_message(),
    {
        let m = Message {
            header: Header::new(),
            questions: Vec::new(),
            answers: Vec::new(),
            authority: Vec::new(),
            additional: Vec::new(),
            msg_copy: Vec::new(),
            timestamp: 0,
            server: 0,
        };
        assert(m@.questions =~= Seq::<QuestionView>::empty());
        assert(m@.answers =~= Seq::<ResourceView>::empty());
        assert(m@.authority =~= Seq::<ResourceView>::empty());
        assert(m@.additional =~= Seq::<ResourceView>::empty());
        m
    }

    /// Appends the first `length` bytes of `data` to the copy of the message.
    pub fn make_copy(&mut self, data: &[u8], length: usize)
        requires
            length <= data@.len(),
        ensures
            final(self)@ == (MessageView { msg_copy: old(self)@.msg_copy + data@.take(length as int), ..old(self)@ }),
    {
        let mut i: usize = 0;
        while i < length
            invariant
                i <= length,
                length <= data@.len(),
                self@ == (MessageView { msg_copy: old(self)@.msg_copy + data@.take(i as int), ..old(self)@ }),
            decreases length - i,
        {
            self.msg_copy.push(data[i]);
            i = i + 1;
            assert(self@.msg_copy =~= old(self)@.msg_copy + data@.take(i as int));
        }
    }

    /// Whether one of the first `ancount` answers has type `t`.
    pub fn contains_type(&mut self, t: u16) -> (r: bool)
        requires
            old(self)@.header.ancount <= old(self)@.answers.len()
                || exists|i: int| 0 <= i < old(self)@.answers.len() && #[trigger] old(self)@.answers[i].rtype == t,
        ensures
            r == has_answer_type(old(self)@, t),
            final(self)@ == old(self)@,
    {
        let mut i: u16 = 0;
        while i < self.header.ancount
            invariant
                self@ == old(self)@,
                i <= self.header.ancount,
                self@.header.ancount <= self@.answers.len()
                    || exists|k: int| 0 <= k < self@.answers.len() && #[trigger] self@.answers[k].rtype == t,
                forall|k: int| 0 <= k < i ==> k < self@.answers.len() && #[trigger] self@.answers[k].rtype != t,
            decreases self.header.ancount - i,
        {
            if i as usize >= self.answers.len() {
                let ghost k = choose|k: int| 0 <= k < self@.answers.len() && #[trigger] self@.answers[k].rtype == t;
                assert(self@.answers[k].rtype != t);
            }
            if self.answers[i as usize].rtype == t {
                assert(self@.answers[i as int].rtype == t);
                return true;
            }
            i = i + 1;
        }
        false
    }

    /// Removes the answers and sets the answer count to zero.
    pub fn drop_records(&mut self)
        ensures
            final(self)@ == (MessageView {
                header: Header { ancount: 0, ..old(self)@.header },
                answers: if old(self)@.header.ancount > 0 { Seq::empty() } else { old(self)@.answers },
                ..old(self)@
            }),
    {
        if self.header.ancount > 0 {
            self.answers.clear();
        }
        self.header.ancount = 0x0000;
        assert(self@.answers =~= (if old(self)@.header.ancount > 0 { Seq::empty() } else { old(self)@.answers }));
    }

    /// The address of the next server given by an A record among the additional records,
    /// starting at record `server`; the records looked at are passed over.
    pub fn next_server(&mut self) -> (r: Option<SocketAddress>)
        requires
            first_a_record(old(self)@.additional, old(self).server as int) < old(self)@.additional.len()
                ==> address_readable(old(self)@.additional[first_a_record(old(self)@.additional, old(self).server as int)]),
        ensures
            ({
                let k = first_a_record(old(self)@.additional, old(self).server as int);
                &&& k < old(self)@.additional.len() ==> r == Some(resource_address(old(self)@.additional[k]))
                    && final(self)@ == (MessageView { server: (k + 1) as usize, ..old(self)@ })
                &&& k >= old(self)@.additional.len() ==> r is None
                    && final(self)@ == (MessageView { server: k as usize, ..old(self)@ })
            }),
    {
        let ghost k = first_a_record(self@.additional, self.server as int);
        proof {
            lemma_first_a_record(self@.additional, self.server as int);
        }
        while self.server < self.additional.len()
            invariant
                self@ == (MessageView { server: self.server, ..old(self)@ }),
                old(self).server <= self.server <= k,
                k == first_a_record(self@.additional, old(self).server as int),
                k < self@.additional.len() ==> self@.additional[k].rtype == 1 && address_readable(self@.additional[k]),
                k >= self@.additional.len() ==> k == if old(self).server >= self@.additional.len() { old(self).server as int } else { self@.additional.len() as int },
                forall|j: int| old(self).server <= j < k ==> #[trigger] self@.additional[j].rtype != 1,
            decreases self@.additional.len() - self.server,
        {
            let s = self.server;
            assert(self@.additional[s as int] == self.additional@[s as int]@);
            let ghost before = self@;
            let a = self.additional[s].ip_addr();
            assert(self@.additional =~= before.additional);
            match a {
                Some(ip) => {
                    self.server = self.server + 1;
                    return Some(ip);
                },
                None => {
                    self.server = self.server + 1;
                },
            }
        }
        None
    }

    /// Reads the message held by the first `length` bytes of `data`: the bytes are appended
    /// to the copy, then the header, the questions and the answer, authority and additional
    /// records are read. A record whose type cannot be read stops the reading with an error.
    pub fn read_in(&mut self, data: &[u8], length: usize) -> (r: Result<(), String>)
        requires
            length <= data@.len(),
            message_at(old(self)@, data@.take(length as int)) is Some,
        ensures
            ({
                let (v, e) = message_at(old(self)@, data@.take(length as int)).unwrap();
                &&& final(self)@ == v
                &&& (r is Ok <==> e is None)
                &&& (r matches Err(s) ==> e == Some(s@))
            }),
    {
        let ghost bytes = data@.take(length as int);
        self.make_copy(data, length);
        let mut reader = Reader::new(copy_prefix(data, length));
        self.header = Header::new();
        self.header.read_in(&mut reader);
        let ghost h = self.header;
        let qdcount = self.header.qdcount;
        read_questions(&mut self.questions, qdcount, &mut reader, &mut self.msg_copy);
        let ancount = self.header.ancount;
        match read_resources(&mut self.answers, ancount, &mut reader, &mut self.msg_copy) {
            Ok(()) => {},
            Err(a) => {
                return Err(a);
            },
        }
        let nscount = self.header.nscount;
        match read_resources(&mut self.authority, nscount, &mut reader, &mut self.msg_copy) {
            Ok(()) => {},
            Err(a) => {
                return Err(a);
            },
        }
        let arcount = self.header.arcount;
        match read_resources(&mut self.additional, arcount, &mut reader, &mut self.msg_copy) {
            Ok(()) => {},
            Err(a) => {
                return Err(a);
            },
        }
        Ok(())
    }

    /// Makes this a query with transaction id `id` for the name written in `name`: a query
    /// header, and an A question about the name in the first entry of the questions after an
    /// empty question has been appended.
    pub fn generate_query_with_id(&mut self, name: Vec<u8>, id: u16)
        requires
            name_at(name@, 0, old(self)@.msg_copy) is Some,
        ensures
            final(self)@ == (MessageView {
                header: query_header(id),
                questions: old(self)@.questions.push(empty_question()).update(0, QuestionView {
                    qname: with_name(empty_data(), name_at(name@, 0, old(self)@.msg_copy).unwrap().0),
                    qtype: 1,
                    qclass: 1,
                }),
                ..old(self)@
            }),
    {
        self.header.generate_query_header_with_id(id);
        let ghost before = self@.questions;
        self.questions.push(Question::new());
        assert(self@.questions =~= before.push(empty_question()));
        self.questions[0].generate(name, &mut self.msg_copy);
        assert(self@.questions =~= before.push(empty_question()).update(0, self.questions@[0]@));
    }

    /// Makes this a query with a random transaction id for the name written in `name` (see
    /// `generate_query_with_id`, whose contract holds for the id chosen).
    pub fn generate_query(&mut self, name: Vec<u8>)
        requires
            name_at(name@, 0, old(self)@.msg_copy) is Some,
        ensures
            final(self)@ == (MessageView {
                header: query_header(final(self).header.id),
                questions: old(self)@.questions.push(empty_question()).update(0, QuestionView {
                    qname: with_name(empty_data(), name_at(name@, 0, old(self)@.msg_copy).unwrap().0),
                    qtype: 1,
                    qclass: 1,
                }),
                ..old(self)@
            }),
    {
        let id = crate::sources::random_id();
        self.generate_query_with_id(name, id);
    }

    /// Clears the truncated flag and returns the bytes of the message: the header, the
    /// counted questions and the counted answers.
    pub fn write(&mut self) -> (buf: Vec<u8>)
        requires
            writable_message(old(self)@),
        ensures
            final(self)@ == (MessageView { header: Header { tc: 0, ..old(self)@.header }, ..old(self)@ }),
            buf@ == message_bytes(final(self)@),
    {
        let mut message_buffer = self.header.write();
        let mut i: usize = 0;
        while i < self.header.qdcount as usize
            invariant
                i <= self.header.qdcount,
                self@ == (MessageView { header: Header { tc: 0, ..old(self)@.header }, ..old(self)@ }),
                writable_message(self@),
                message_buffer@ == header_bytes(self.header) + questions_bytes(self@.questions, i as nat),
            decreases self.header.qdcount - i,
        {
            let ghost before = self@;
            let mut q = self.questions[i].write();
            assert(self@.questions =~= before.questions);
            message_buffer.append(&mut q);
            i = i + 1;
        }
        let mut j: usize = 0;
        while j < self.header.ancount as usize
            invariant
                j <= self.header.ancount,
                self@ == (MessageView { header: Header { tc: 0, ..old(self)@.header }, ..old(self)@ }),
                writable_message(self@),
                message_buffer@ == header_bytes(self.header) + questions_bytes(self@.questions, self.header.qdcount as nat)
                    + resources_bytes(self@.answers, j as nat),
            decreases self.header.ancount - j,
        {
            let ghost before = self@;
            assert(writable_resource(self@.answers[j as int]));
            let mut a = self.answers[j].write();
            assert(self@.answers =~= before.answers);
            message_buffer.append(&mut a);
            j = j + 1;
        }
        message_buffer
    }

    /// A copy with the same value.
    pub fn deep_copy(&self) -> (r: Message)
        ensures
            r@ == self@,
    {
        let mut questions: Vec<Question> = Vec::new();
        let mut i: usize = 0;
        while i < self.questions.len()
            invariant
                i <= self.questions@.len(),
                questions@.len() == i,
                questions_view(questions@) == questions_view(self.questions@).take(i as int),
            decreases self.questions@.len() - i,
        {
            let c = self.questions[i].deep_copy();
            let ghost before = questions@;
            questions.push(c);
            assert(questions@ == before.push(c));
            i = i + 1;
            assert(questions_view(questions@) =~= questions_view(self.questions@).take(i as int));
        }
        assert(questions_view(self.questions@).take(i as int) =~= questions_view(self.questions@));
        let r = Message {
            header: self.header,
            questions,
            answers: copy_resources(&self.answers),
            authority: copy_resources(&self.authority),
            additional: copy_resources(&self.additional),
            msg_copy: copy_bytes(&self.msg_copy),
            timestamp: self.timestamp,
            server: self.server,
        };
        r
    }
}

} // verus!
