use vstd::prelude::*;
use std::collections::HashMap;
use crate::data::{Data, data_bytes, consistent_data};
use crate::header::Header;
use crate::resource::{Resource, ResourceView, resource_address};
use crate::message::{Message, MessageView, message_at, empty_message, resources_view, first_a_record, lemma_first_a_record};
use crate::net::{SocketAddress, Ipv4Addr, root_server, root_server_spec};
use crate::wellformed::{wf_message, wf_record, wf_records, wf_question, lemma_wf_writable, lemma_read_message_wf};
use crate::server::{Action, ActionView, actions_view, send, stamped, with_qr, dropped, query_for, next_server_of,
    without_first, first_with_id, messages_map, lemma_wf_variants,
    lemma_wf_records_concat, lemma_first_with_id};
use crate::sources::{precise_time_ns, random_id};

verus! {

broadcast use vstd::std_specs::hash::group_hash_axioms;

/// Abstract value of the resolver without a cache.
pub struct BasicView {
    pub address: SocketAddress,
    pub ip_lookup: Map<u16, SocketAddress>,
    pub msg_lookup: Map<u16, MessageView>,
    pub waiting_resp: Seq<MessageView>,
}

/// A resolver without a cache, which asks the root server for every A, NS or AAAA query and
/// follows referrals and canonical names: the address it serves on, the client that asked
/// each outstanding query (by transaction id), the messages waiting on a query of the
/// resolver (by the id of that query), and the queries waiting for an answer.
pub struct Server {
    pub address: SocketAddress,
    pub ip_lookup: HashMap<u16, SocketAddress>,
    pub msg_lookup: HashMap<u16, Message>,
    pub waiting_resp: Vec<Message>,
}

impl View for Server {
    type V = BasicView;

    open spec fn view(&self) -> BasicView {
        BasicView {
            address: self.address,
            ip_lookup: self.ip_lookup@,
            msg_lookup: messages_map(self.msg_lookup@),
            waiting_resp: Seq::new(self.waiting_resp@.len(), |i: int| self.waiting_resp@[i]@),
        }
    }
}

/// Every message the resolver keeps is well formed, and a message waiting on a query of the
/// resolver has a question.
pub open spec fn wf_basic(s: BasicView) -> bool {
    &&& forall|k: u16| #[trigger] s.msg_lookup.contains_key(k) ==> wf_message(s.msg_lookup[k])
        && s.msg_lookup[k].questions.len() > 0
    &&& forall|i: int| 0 <= i < s.waiting_resp.len() ==> #[trigger] wf_message(s.waiting_resp[i])
    &&& s.msg_lookup.dom().finite()
}

/// The address the resolver serves on: 172.30.159.85, port 53.
pub open spec fn basic_address() -> SocketAddress {
    SocketAddress { ip: Ipv4Addr(172, 30, 159, 85), port: 53 }
}

/// The index of the first of records `i` to `n - 1` of `rs` with type `t`, or `n`.
pub open spec fn first_of_type(rs: Seq<ResourceView>, t: u16, i: int, n: int) -> int
    decreases n - i,
{
    if i >= n {
        n
    } else if rs[i].rtype == t {
        i
    } else {
        first_of_type(rs, t, i + 1, n)
    }
}

/// A client's query `m` from `src`: the client is recorded under the query's id, the query
/// is passed on to the root server and waits for an answer.
pub open spec fn basic_request(s: BasicView, m: MessageView, src: SocketAddress, now: i64) -> (BasicView, Seq<ActionView>) {
    (
        BasicView { ip_lookup: s.ip_lookup.insert(m.header.id, src), waiting_resp: s.waiting_resp.push(stamped(m, now)), ..s },
        seq![send(m, root_server_spec())],
    )
}

/// Sends `m` to the client that asked it, if one is recorded, and forgets the client.
pub open spec fn basic_answer_origin(s: BasicView, m: MessageView) -> (BasicView, Seq<ActionView>) {
    if s.ip_lookup.contains_key(m.header.id) {
        (BasicView { ip_lookup: s.ip_lookup.remove(m.header.id), ..s }, seq![send(m, s.ip_lookup[m.header.id])])
    } else {
        (s, Seq::empty())
    }
}

/// A response `m` whose answer `idx` is an address. Where a message waits on `m`'s query
/// and holds a canonical name, the first answer of `m`, renamed to the message's question,
/// is added to its answers and the message goes back, as a response, to its client if one
/// is recorded. Where the waiting message holds no canonical name, it is sent as a query,
/// without its answers, to that address, and waits again in place of its entry. Where no
/// message waits, `m` goes back to its client.
pub open spec fn basic_answer(s: BasicView, m: MessageView, idx: int, now: i64) -> (BasicView, Seq<ActionView>) {
    let id = m.header.id;
    if s.msg_lookup.contains_key(id) {
        let msg = s.msg_lookup[id];
        if first_of_type(msg.answers, 5, 0, msg.header.ancount as int) < msg.header.ancount {
            let rec = ResourceView { rname: msg.questions[0].qname, ..m.answers[0] };
            let msg2 = MessageView {
                header: Header { qr: 0x8000, ancount: msg.header.ancount.wrapping_add(1), ..msg.header },
                answers: msg.answers.push(rec),
                ..msg
            };
            basic_answer_origin(s, msg2)
        } else {
            let msg2 = dropped(with_qr(msg, 0));
            (
                BasicView {
                    msg_lookup: s.msg_lookup.remove(id),
                    waiting_resp: s.waiting_resp.push(stamped(msg2, now)),
                    ..s
                },
                seq![send(msg2, resource_address(m.answers[idx]))],
            )
        }
    } else {
        basic_answer_origin(s, m)
    }
}

/// Asks the root server, with a query of id `id`, for the name written in `name`; `m` waits
/// on that query.
pub open spec fn basic_ask(s: BasicView, m: MessageView, name: Seq<u8>, now: i64, id: u16) -> (BasicView, Seq<ActionView>) {
    let q = query_for(name, id);
    (
        BasicView { msg_lookup: s.msg_lookup.insert(id, m), waiting_resp: s.waiting_resp.push(stamped(q, now)), ..s },
        seq![send(q, root_server_spec())],
    )
}

/// A response with additional records only: the query is sent on, without answers, to the
/// next server named by an address among them, where it waits again; without one, "NO" is
/// reported.
pub open spec fn basic_additional(s: BasicView, m: MessageView, now: i64) -> (BasicView, Seq<ActionView>) {
    let (m2, r) = next_server_of(m);
    match r {
        Some(a) => {
            let m3 = with_qr(dropped(m2), 0);
            (BasicView { waiting_resp: s.waiting_resp.push(stamped(m3, now)), ..s }, seq![send(m3, a)])
        },
        None => (s, seq![ActionView::Report("NO"@)]),
    }
}

/// A response `m`: the first address among its counted answers, else the first canonical
/// name (whose target is asked for), else its additional records, else its name servers
/// (the first of which is asked for).
pub open spec fn basic_response(s: BasicView, m: MessageView, now: i64, id: u16) -> (BasicView, Seq<ActionView>) {
    let an = m.header.ancount as int;
    if an > 0 {
        let a = first_of_type(m.answers, 1, 0, an);
        let c = first_of_type(m.answers, 5, 0, an);
        if a < an {
            basic_answer(s, m, a, now)
        } else if c < an {
            basic_ask(s, m, data_bytes(m.answers[c].rdata), now, id)
        } else {
            (s, Seq::empty())
        }
    } else if m.header.arcount > 0 {
        basic_additional(s, m, now)
    } else if m.header.nscount > 0 {
        basic_ask(s, m, data_bytes(m.authority[0].rdata), now, id)
    } else {
        (s, Seq::empty())
    }
}

/// Handling the message held by `data` from `src` at time `now`, with `id` as the id of any
/// query the resolver makes: the message is read (an error is reported), removed from the
/// waiting queries, and, for an A, NS or AAAA question, handled as a query or a response by
/// its response flag. `None` where the message runs past the end of `data` or has no question.
pub open spec fn handle_event(s: BasicView, data: Seq<u8>, src: SocketAddress, now: i64, id: u16) -> Option<(BasicView, Seq<ActionView>)> {
    match message_at(empty_message(), data) {
        None => None,
        Some((m, Some(e))) => Some((s, seq![ActionView::Report(e)])),
        Some((m, None)) => {
            let s1 = BasicView { waiting_resp: without_first(s.waiting_resp, m.header.id), ..s };
            if m.questions.len() == 0 {
                None
            } else {
                let t = m.questions[0].qtype;
                if !(t == 1 || t == 2 || t == 28) {
                    Some((s1, Seq::empty()))
                } else if m.header.qr == 0 {
                    Some(basic_request(s1, m, src, now))
                } else if m.header.qr == 0x8000 {
                    Some(basic_response(s1, m, now, id))
                } else {
                    Some((s1, Seq::empty()))
                }
            }
        },
    }
}

/// More than 5 s (wrapping, as the elapsed time is an absolute difference) have passed
/// between `ts` and `now`.
pub open spec fn waited_five_seconds(now: i64, ts: i64) -> bool {
    let d = now.wrapping_sub(ts);
    d != i64::MIN && (if d < 0 { -d } else { d as int }) > 5000000000
}

/// Passing over the waiting queries from `i` on: a query that has waited more than 5 s is
/// sent to the next server named among its additional records and waits again from `now`,
/// or leaves the queue where there is none.
pub open spec fn retry_stale(wq: Seq<MessageView>, i: nat, now: i64) -> (Seq<MessageView>, Seq<ActionView>)
    decreases wq.len() - i,
{
    if i >= wq.len() {
        (wq, Seq::empty())
    } else if waited_five_seconds(now, wq[i as int].timestamp) {
        let (m2, r) = next_server_of(wq[i as int]);
        match r {
            Some(a) => {
                let (wq2, acts) = retry_stale(wq.update(i as int, stamped(m2, now)), i + 1, now);
                (wq2, seq![send(wq[i as int], a)] + acts)
            },
            None => retry_stale(wq.remove(i as int), i, now),
        }
    } else {
        retry_stale(wq, i + 1, now)
    }
}

proof fn lemma_first_of_type(rs: Seq<ResourceView>, t: u16, i: int, n: int)
    requires
        0 <= i <= n,
    ensures
        i <= first_of_type(rs, t, i, n) <= n,
        first_of_type(rs, t, i, n) < n ==> rs[first_of_type(rs, t, i, n)].rtype == t,
        forall|k: int| i <= k < first_of_type(rs, t, i, n) ==> #[trigger] rs[k].rtype != t,
    decreases n - i,
{
    if i < n && rs[i].rtype != t {
        lemma_first_of_type(rs, t, i + 1, n);
    }
}

proof fn lemma_wf_with_record(msg: MessageView, rec: ResourceView)
    requires
        wf_message(msg),
        wf_record(rec),
    ensures
        wf_message(MessageView {
            header: Header { qr: 0x8000, ancount: msg.header.ancount.wrapping_add(1), ..msg.header },
            answers: msg.answers.push(rec),
            ..msg
        }),
{
    assert(wf_records(seq![rec]));
    lemma_wf_records_concat(msg.answers, seq![rec]);
    assert(msg.answers + seq![rec] =~= msg.answers.push(rec));
}

/// The index of the first of the first `n` records of `rs` with type `t`, or `n`.
fn find_type(rs: &Vec<Resource>, t: u16, n: u16) -> (i: usize)
    requires
        n <= rs@.len(),
    ensures
        i == first_of_type(resources_view(rs@), t, 0, n as int),
{
    proof {
        lemma_first_of_type(resources_view(rs@), t, 0, n as int);
    }
    let mut i: usize = 0;
    while i < n as usize && rs[i].rtype != t
        invariant
            i <= n <= rs@.len(),
            forall|k: int| 0 <= k < i ==> #[trigger] resources_view(rs@)[k].rtype != t,
        decreases n - i,
    {
        i = i + 1;
    }
    proof {
        let rv = resources_view(rs@);
        let f = first_of_type(rv, t, 0, n as int);
        if i < n {
            assert(rv[i as int].rtype == t);
            if f < i {
                assert(rv[f].rtype != t);
            }
            if f > i {
                assert(rv[i as int].rtype != t);
            }
        } else if f < n {
            assert(rv[f].rtype != t);
        }
    }
    i
}

impl Server {
    /// The resolver's state is well formed (see `wf_basic`).
    pub open spec fn wf(&self) -> bool {
        wf_basic(self@)
    }

    /// A resolver serving on 172.30.159.85, port 53, with nothing recorded.
    pub fn new() -> (s: Server)
        ensures
            s.wf(),
            s@ == (BasicView {
                address: basic_address(),
                ip_lookup: Map::empty(),
                msg_lookup: Map::empty(),
                waiting_resp: Seq::empty(),
            }),
    {
        let s = Server {
            address: SocketAddress { ip: Ipv4Addr(172, 30, 159, 85), port: 53 },
            ip_lookup: HashMap::new(),
            msg_lookup: HashMap::new(),
            waiting_resp: Vec::new(),
        };
        assert(s@.msg_lookup =~= Map::<u16, MessageView>::empty());
        assert(s@.waiting_resp =~= Seq::<MessageView>::empty());
        s
    }

    /// Appends `message`, stamped with `now`, to the waiting queries.
    fn wait(&mut self, message: Message, now: i64)
        requires
            old(self).wf(),
            wf_message(message@),
        ensures
            final(self).wf(),
            final(self)@ == (BasicView { waiting_resp: old(self)@.waiting_resp.push(stamped(message@, now)), ..old(self)@ }),
    {
        let mut message = message;
        proof {
            lemma_wf_variants(message@, 0, now);
        }
        message.timestamp = now;
        let ghost before = self@.waiting_resp;
        let ghost mv = message@;
        self.waiting_resp.push(message);
        assert(self@.waiting_resp =~= before.push(mv));
    }

    /// A client's query (see `basic_request`).
    fn request(&mut self, message: Message, src: SocketAddress, now: i64, acts: &mut Vec<Action>)
        requires
            old(self).wf(),
            wf_message(message@),
        ensures
            final(self).wf(),
            final(self)@ == basic_request(old(self)@, message@, src, now).0,
            actions_view(final(acts)@) == actions_view(old(acts)@) + basic_request(old(self)@, message@, src, now).1,
    {
        self.ip_lookup.insert(message.header.id, src);
        assert(self@.msg_lookup =~= old(self)@.msg_lookup);
        assert(self@.waiting_resp =~= old(self)@.waiting_resp);
        proof {
            lemma_wf_writable(message@);
        }
        crate::server::Server::send_message(&message, root_server(), acts);
        let ghost m0 = message@;
        self.wait(message, now);
        assert(actions_view(acts@) =~= actions_view(old(acts)@) + basic_request(old(self)@, m0, src, now).1);
    }

    /// Sends `message` to its client, if one is recorded (see `basic_answer_origin`).
    fn answer_origin(&mut self, message: &Message, acts: &mut Vec<Action>)
        requires
            old(self).wf(),
            wf_message(message@),
        ensures
            final(self).wf(),
            final(self)@ == basic_answer_origin(old(self)@, message@).0,
            actions_view(final(acts)@) == actions_view(old(acts)@) + basic_answer_origin(old(self)@, message@).1,
    {
        let id = message.header.id;
        if self.ip_lookup.contains_key(&id) {
            let sock = *self.ip_lookup.get(&id).unwrap();
            proof {
                lemma_wf_writable(message@);
            }
            crate::server::Server::send_message(message, sock, acts);
            self.ip_lookup.remove(&id);
            assert(actions_view(acts@) =~= actions_view(old(acts)@) + basic_answer_origin(old(self)@, message@).1);
        } else {
            assert(actions_view(acts@) =~= actions_view(old(acts)@) + Seq::<ActionView>::empty());
        }
    }

    /// A response whose answer `idx` is an address (see `basic_answer`).
    fn response_answer(&mut self, message: Message, idx: usize, now: i64, acts: &mut Vec<Action>)
        requires
            old(self).wf(),
            wf_message(message@),
            idx < message@.header.ancount,
            message@.answers[idx as int].rtype == 1,
        ensures
            final(self).wf(),
            final(self)@ == basic_answer(old(self)@, message@, idx as int, now).0,
            actions_view(final(acts)@) == actions_view(old(acts)@) + basic_answer(old(self)@, message@, idx as int, now).1,
    {
        let id = message.header.id;
        let ghost m = message@;
        if self.msg_lookup.contains_key(&id) {
            let mut msg = self.msg_lookup.get(&id).unwrap().deep_copy();
            let ghost mv = msg@;
            assert(self@.msg_lookup.contains_key(id));
            assert(mv == self@.msg_lookup[id]);
            assert(wf_message(mv) && mv.questions.len() > 0);
            let c = find_type(&msg.answers, 5, msg.header.ancount);
            if c < msg.header.ancount as usize {
                assert(wf_question(mv.questions[0]));
                assert(wf_record(m.answers[0]));
                let mut rec = message.answers[0].deep_copy();
                rec.rname = msg.questions[0].qname.deep_copy();
                let ghost r = rec@;
                assert(wf_record(r));
                msg.header.qr = 0x8000;
                msg.header.ancount = msg.header.ancount.wrapping_add(1);
                msg.answers.push(rec);
                assert(msg@.answers =~= mv.answers.push(r));
                proof {
                    lemma_wf_with_record(mv, r);
                }
                self.answer_origin(&msg, acts);
            } else {
                proof {
                    lemma_wf_variants(mv, 0, now);
                    lemma_wf_variants(with_qr(mv, 0), 0, now);
                    lemma_wf_writable(dropped(with_qr(mv, 0)));
                    assert(wf_record(m.answers[idx as int]));
                }
                msg.header.qr = 0x0000;
                msg.drop_records();
                let mut a = message.answers[idx].deep_copy();
                let addr = a.ip_addr().unwrap();
                crate::server::Server::send_message(&msg, addr, acts);
                self.msg_lookup.remove(&id);
                assert(self@.msg_lookup =~= old(self)@.msg_lookup.remove(id));
                assert(self@.waiting_resp =~= old(self)@.waiting_resp);
                assert forall|k: u16| #[trigger] self@.msg_lookup.contains_key(k) implies wf_message(self@.msg_lookup[k])
                    && self@.msg_lookup[k].questions.len() > 0 by {
                    assert(old(self)@.msg_lookup.contains_key(k));
                }
                self.wait(msg, now);
                assert(actions_view(acts@) =~= actions_view(old(acts)@) + basic_answer(old(self)@, m, idx as int, now).1);
            }
        } else {
            self.answer_origin(&message, acts);
        }
    }

    /// Asks the root server for `name`, with a query of id `id` on which `message` waits
    /// (see `basic_ask`).
    fn ask(&mut self, message: Message, name: &Data, now: i64, id: u16, acts: &mut Vec<Action>)
        requires
            old(self).wf(),
            wf_message(message@),
            message@.questions.len() > 0,
            consistent_data(name@),
        ensures
            final(self).wf(),
            final(self)@ == basic_ask(old(self)@, message@, data_bytes(name@), now, id).0,
            actions_view(final(acts)@) == actions_view(old(acts)@) + basic_ask(old(self)@, message@, data_bytes(name@), now, id).1,
    {
        let query = crate::server::Server::query_from(name, id);
        let ghost q = query@;
        let ghost m = message@;
        self.msg_lookup.insert(id, message);
        assert(self@.msg_lookup =~= old(self)@.msg_lookup.insert(id, m));
        assert(self@.waiting_resp =~= old(self)@.waiting_resp);
        assert forall|k: u16| #[trigger] self@.msg_lookup.contains_key(k) implies wf_message(self@.msg_lookup[k])
            && self@.msg_lookup[k].questions.len() > 0 by {
            if k != id {
                assert(old(self)@.msg_lookup.contains_key(k));
            }
        }
        proof {
            lemma_wf_writable(q);
        }
        crate::server::Server::send_message(&query, root_server(), acts);
        self.wait(query, now);
        assert(actions_view(acts@) =~= actions_view(old(acts)@) + basic_ask(old(self)@, m, data_bytes(name@), now, id).1);
    }

    /// A response with additional records only (see `basic_additional`).
    fn response_additional_record(&mut self, message: Message, now: i64, acts: &mut Vec<Action>)
        requires
            old(self).wf(),
            wf_message(message@),
        ensures
            final(self).wf(),
            final(self)@ == basic_additional(old(self)@, message@, now).0,
            actions_view(final(acts)@) == actions_view(old(acts)@) + basic_additional(old(self)@, message@, now).1,
    {
        let mut message = message;
        let ghost m = message@;
        proof {
            let k = first_a_record(m.additional, m.server as int);
            lemma_first_a_record(m.additional, m.server as int);
            if k < m.additional.len() {
                assert(wf_record(m.additional[k]));
            }
            lemma_wf_variants(m, 0, now);
            let m2 = next_server_of(m).0;
            lemma_wf_variants(m2, 0, now);
            lemma_wf_variants(dropped(m2), 0, now);
            lemma_wf_writable(with_qr(dropped(m2), 0));
        }
        match message.next_server() {
            Some(addr) => {
                message.drop_records();
                message.header.qr = 0x0000;
                crate::server::Server::send_message(&message, addr, acts);
                self.wait(message, now);
            },
            None => {
                acts.push(Action::Report(String::from_str("NO")));
                assert(actions_view(acts@) =~= actions_view(old(acts)@) + basic_additional(old(self)@, m, now).1);
            },
        }
    }

    /// A response (see `basic_response`).
    fn response(&mut self, message: Message, now: i64, id: u16, acts: &mut Vec<Action>)
        requires
            old(self).wf(),
            wf_message(message@),
            message@.questions.len() > 0,
        ensures
            final(self).wf(),
            final(self)@ == basic_response(old(self)@, message@, now, id).0,
            actions_view(final(acts)@) == actions_view(old(acts)@) + basic_response(old(self)@, message@, now, id).1,
    {
        let ghost m = message@;
        let an = message.header.ancount;
        if an > 0 {
            let a = find_type(&message.answers, 1, an);
            if a < an as usize {
                proof {
                    lemma_first_of_type(m.answers, 1, 0, an as int);
                }
                self.response_answer(message, a, now, acts);
                return;
            }
            let c = find_type(&message.answers, 5, an);
            if c < an as usize {
                proof {
                    lemma_first_of_type(m.answers, 5, 0, an as int);
                    assert(wf_record(m.answers[c as int]));
                }
                let name = message.answers[c].rdata.deep_copy();
                self.ask(message, &name, now, id, acts);
                return;
            }
            assert(actions_view(acts@) =~= actions_view(old(acts)@) + Seq::<ActionView>::empty());
        } else if message.header.arcount > 0 {
            self.response_additional_record(message, now, acts);
        } else if message.header.nscount > 0 {
            assert(wf_record(m.authority[0]));
            let name = message.authority[0].rdata.deep_copy();
            self.ask(message, &name, now, id, acts);
        } else {
            assert(actions_view(acts@) =~= actions_view(old(acts)@) + Seq::<ActionView>::empty());
        }
    }

    /// Removes the first waiting query with transaction id `id`.
    fn remove_waiting(&mut self, id: u16)
        requires
            old(self).wf(),
        ensures
            final(self).wf(),
            final(self)@ == (BasicView { waiting_resp: without_first(old(self)@.waiting_resp, id), ..old(self)@ }),
    {
        let mut i: usize = 0;
        while i < self.waiting_resp.len() && self.waiting_resp[i].header.id != id
            invariant
                i <= self@.waiting_resp.len(),
                forall|j: int| 0 <= j < i ==> #[trigger] self@.waiting_resp[j].header.id != id,
            decreases self@.waiting_resp.len() - i,
        {
            i = i + 1;
        }
        let ghost wq = self@.waiting_resp;
        proof {
            lemma_first_with_id(wq, id, 0);
            let f = first_with_id(wq, id, 0);
            if i < wq.len() {
                assert(wq[i as int].header.id == id);
                assert(f == i) by {
                    if f < i {
                        assert(wq[f].header.id != id);
                    }
                    if f > i {
                        assert(wq[i as int].header.id != id);
                    }
                }
            } else {
                assert(f >= wq.len()) by {
                    if f < wq.len() {
                        assert(wq[f].header.id != id);
                    }
                }
            }
        }
        if i < self.waiting_resp.len() {
            self.waiting_resp.remove(i);
            assert(self@.waiting_resp =~= wq.remove(i as int));
        }
    }

    /// Handles the message held by the first `length` bytes of `buffer`, from `src`, at time
    /// `now`, with `id` as the id of any query the resolver makes (see `handle_event`); `None`
    /// where the message runs past the end of the bytes or has no question.
    pub fn handle_at(&mut self, buffer: &[u8], length: usize, src: SocketAddress, now: i64, id: u16) -> (r: Option<Vec<Action>>)
        requires
            old(self).wf(),
            length <= buffer@.len(),
        ensures
            match handle_event(old(self)@, buffer@.take(length as int), src, now, id) {
                Some((s, a)) => r matches Some(v) && final(self).wf() && final(self)@ == s && actions_view(v@) == a,
                None => r is None,
            },
    {
        let ghost data = buffer@.take(length as int);
        let mut acts: Vec<Action> = Vec::new();
        assert(actions_view(acts@) =~= Seq::<ActionView>::empty());
        let mut message = Message::new();
        if !message.can_read(buffer, length) {
            return None;
        }
        proof {
            lemma_read_message_wf(data);
        }
        match message.read_in(buffer, length) {
            Ok(()) => {},
            Err(a) => {
                acts.push(Action::Report(a));
                assert(actions_view(acts@) =~= seq![ActionView::Report(message_at(empty_message(), data).unwrap().1.unwrap())]);
                return Some(acts);
            },
        }
        self.remove_waiting(message.header.id);
        if message.questions.len() == 0 {
            return None;
        }
        let t = message.questions[0].qtype;
        if t == 0x0001 || t == 0x0002 || t == 0x001c {
            if message.header.qr == 0x0000 {
                self.request(message, src, now, &mut acts);
            } else if message.header.qr == 0x8000 {
                self.response(message, now, id, &mut acts);
            }
        }
        Some(acts)
    }

    /// Handles the message held by the first `length` bytes of `buffer`, from `src`, at the
    /// current time, with a random id for any query the resolver makes (see `handle_event`).
    pub fn handle_message(&mut self, buffer: &[u8], length: usize, src: SocketAddress) -> (r: Option<Vec<Action>>)
        requires
            old(self).wf(),
            length <= buffer@.len(),
        ensures
            exists|now: i64, id: u16| match #[trigger] handle_event(old(self)@, buffer@.take(length as int), src, now, id) {
                Some((s, a)) => r matches Some(v) && final(self).wf() && final(self)@ == s && actions_view(v@) == a,
                None => r is None,
            },
    {
        let now = precise_time_ns() as i64;
        let id = random_id();
        self.handle_at(buffer, length, src, now, id)
    }

    /// Retries the waiting queries that have waited more than 5 s at time `now` (see
    /// `retry_stale`), and returns what is to be sent.
    #[verifier::rlimit(60)]
    pub fn retry_at(&mut self, now: i64) -> (acts: Vec<Action>)
        requires
            old(self).wf(),
        ensures
            final(self).wf(),
            final(self)@ == (BasicView { waiting_resp: retry_stale(old(self)@.waiting_resp, 0, now).0, ..old(self)@ }),
            actions_view(acts@) == retry_stale(old(self)@.waiting_resp, 0, now).1,
    {
        let mut acts: Vec<Action> = Vec::new();
        let ghost total = retry_stale(self@.waiting_resp, 0, now);
        assert(actions_view(acts@) =~= Seq::<ActionView>::empty());
        let mut i: usize = 0;
        while i < self.waiting_resp.len()
            invariant
                self.wf(),
                total == retry_stale(old(self)@.waiting_resp, 0, now),
                self@ == (BasicView { waiting_resp: self@.waiting_resp, ..old(self)@ }),
                i <= self@.waiting_resp.len(),
                retry_stale(self@.waiting_resp, i as nat, now).0 == total.0,
                actions_view(acts@) + retry_stale(self@.waiting_resp, i as nat, now).1 == total.1,
            decreases self@.waiting_resp.len() - i,
        {
            let ghost wq0 = self@.waiting_resp;
            let ghost a0 = actions_view(acts@);
            let ts = self.waiting_resp[i].timestamp;
            let d = now.wrapping_sub(ts);
            let stale = d != i64::MIN && (if d < 0 { -d } else { d }) > 5000000000;
            assert(stale == waited_five_seconds(now, wq0[i as int].timestamp));
            if stale {
                let msg = self.waiting_resp[i].deep_copy();
                proof {
                    let m = wq0[i as int];
                    assert(wf_message(m));
                    lemma_first_a_record(m.additional, m.server as int);
                    let k = first_a_record(m.additional, m.server as int);
                    if k < m.additional.len() {
                        assert(wf_record(m.additional[k]));
                    }
                    lemma_wf_variants(m, 0, now);
                    lemma_wf_variants(next_server_of(m).0, 0, now);
                    lemma_wf_writable(m);
                }
                let sock = self.waiting_resp[i].next_server();
                match sock {
                    Some(addr) => {
                        crate::server::Server::send_message(&msg, addr, &mut acts);
                        self.waiting_resp[i].timestamp = now;
                        assert(self@.waiting_resp =~= wq0.update(i as int, stamped(next_server_of(wq0[i as int]).0, now)));
                        assert(actions_view(acts@) =~= a0 + seq![send(wq0[i as int], addr)]);
                        assert(a0 + retry_stale(wq0, i as nat, now).1 =~= actions_view(acts@) + retry_stale(self@.waiting_resp, (i + 1) as nat, now).1);
                        i = i + 1;
                    },
                    None => {
                        self.waiting_resp.remove(i);
                        assert(self@.waiting_resp =~= wq0.remove(i as int));
                    },
                }
            } else {
                i = i + 1;
            }
        }
        acts
    }

    /// Retries the waiting queries that have waited more than 5 s, by the clock (see
    /// `retry_stale`), and returns what is to be sent.
    pub fn retry(&mut self) -> (acts: Vec<Action>)
        requires
            old(self).wf(),
        ensures
            final(self).wf(),
            exists|now: i64| {
                &&& final(self)@ == (BasicView { waiting_resp: #[trigger] retry_stale(old(self)@.waiting_resp, 0, now).0, ..old(self)@ })
                &&& actions_view(acts@) == retry_stale(old(self)@.waiting_resp, 0, now).1
            },
    {
        let now = precise_time_ns() as i64;
        self.retry_at(now)
    }
}

} // verus!
