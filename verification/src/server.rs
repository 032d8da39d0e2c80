use vstd::prelude::*;
use std::collections::HashMap;
use crate::data::{Data, DataView, data_bytes, empty_data, name_at, with_name, lemma_written_name_readable, consistent_data};
use crate::header::Header;
use crate::question::QuestionView;
use crate::resource::{Resource, ResourceView, resource_address};
use crate::message::{Message, MessageView, message_bytes, empty_message, first_a_record, has_answer_type,
    resources_view, message_at};
use crate::cache::Cache;
use crate::net::{SocketAddress, Ipv4Addr, root_server, root_server_spec};
use crate::wellformed::{wf_message, wf_record, wf_records, wf_question, lemma_wf_writable, lemma_read_message_wf};
use crate::header::query_header;

verus! {

broadcast use vstd::std_specs::hash::group_hash_axioms;

/// What the resolver asks its environment to do.
pub enum Action {
    /// Send these bytes to this address.
    Send(Vec<u8>, SocketAddress),
    /// Report this error.
    Report(String),
    /// Show the details of this message.
    ShowMessage(Message),
    /// Show this host name.
    ShowHostname(Data),
}

/// Abstract value of an `Action`.
pub enum ActionView {
    Send(Seq<u8>, SocketAddress),
    Report(Seq<char>),
    ShowMessage(MessageView),
    ShowHostname(DataView),
}

impl View for Action {
    type V = ActionView;

    open spec fn view(&self) -> ActionView {
        match self {
            Action::Send(b, a) => ActionView::Send(b@, *a),
            Action::Report(s) => ActionView::Report(s@),
            Action::ShowMessage(m) => ActionView::ShowMessage(m@),
            Action::ShowHostname(d) => ActionView::ShowHostname(d@),
        }
    }
}

/// The abstract values of a vector of actions.
pub open spec fn actions_view(a: Seq<Action>) -> Seq<ActionView> {
    Seq::new(a.len(), |i: int| a[i]@)
}

/// Abstract value of a `Server`.
pub struct ServerView {
    pub address: SocketAddress,
    pub ip_lookup: Map<u16, SocketAddress>,
    pub msg_lookup: Map<u16, MessageView>,
    pub waiting_queue: Seq<MessageView>,
    pub cache: Map<Seq<u8>, ResourceView>,
    pub soa_cache: Map<Seq<u8>, ResourceView>,
    pub option: i64,
}

/// The state of the resolver: the address it serves on, the client that asked each
/// outstanding query (by transaction id), the messages waiting on a query of the resolver
/// (by the id of that query), the queries waiting for an answer, the cache of records by
/// name, and what to show of each message (1: details, 2: host name).
pub struct Server {
    pub address: SocketAddress,
    pub ip_lookup: HashMap<u16, SocketAddress>,
    pub msg_lookup: HashMap<u16, Message>,
    pub waiting_queue: Vec<Message>,
    pub cache: Cache,
    pub soa_cache: Cache,
    pub option: i64,
}

/// The abstract values of the messages of a map.
pub open spec fn messages_map(m: Map<u16, Message>) -> Map<u16, MessageView> {
    Map::new(|k: u16| m.contains_key(k), |k: u16| m[k]@)
}

impl View for Server {
    type V = ServerView;

    open spec fn view(&self) -> ServerView {
        ServerView {
            address: self.address,
            ip_lookup: self.ip_lookup@,
            msg_lookup: messages_map(self.msg_lookup@),
            waiting_queue: Seq::new(self.waiting_queue@.len(), |i: int| self.waiting_queue@[i]@),
            cache: self.cache@,
            soa_cache: self.soa_cache@,
            option: self.option,
        }
    }
}

/// Every message the resolver keeps is well formed and so is every cached record.
pub open spec fn wf_server_view(s: ServerView) -> bool {
    &&& forall|k: u16| #[trigger] s.msg_lookup.contains_key(k) ==> wf_message(s.msg_lookup[k])
    &&& forall|i: int| 0 <= i < s.waiting_queue.len() ==> #[trigger] wf_message(s.waiting_queue[i])
    &&& forall|k: Seq<u8>| #[trigger] s.cache.contains_key(k) ==> wf_record(s.cache[k])
    &&& s.msg_lookup.dom().finite()
    &&& s.cache.dom().finite()
}

// ---------------------------------------------------------------------------------------
// The decisions of the resolver, as functions of its state.

/// The bytes sent for a message: those it writes once its truncated flag is cleared.
pub open spec fn sent_bytes(m: MessageView) -> Seq<u8> {
    message_bytes(MessageView { header: Header { tc: 0, ..m.header }, ..m })
}

/// Sending `m` to `a`.
pub open spec fn send(m: MessageView, a: SocketAddress) -> ActionView {
    ActionView::Send(sent_bytes(m), a)
}

/// `m` with its response flag set to `qr`.
pub open spec fn with_qr(m: MessageView, qr: u16) -> MessageView {
    MessageView { header: Header { qr: qr, ..m.header }, ..m }
}

/// `m` sent at time `now`.
pub open spec fn stamped(m: MessageView, now: i64) -> MessageView {
    MessageView { timestamp: now, ..m }
}

/// Takes the client that asked query `id`, if one is recorded.
pub open spec fn take_origin(s: ServerView, id: u16) -> (ServerView, Option<SocketAddress>) {
    if s.ip_lookup.contains_key(id) {
        (ServerView { ip_lookup: s.ip_lookup.remove(id), ..s }, Some(s.ip_lookup[id]))
    } else {
        (s, None)
    }
}

/// Takes the message waiting on the resolver's query `id`, if one is recorded.
pub open spec fn take_pending(s: ServerView, id: u16) -> (ServerView, Option<MessageView>) {
    if s.msg_lookup.contains_key(id) {
        (ServerView { msg_lookup: s.msg_lookup.remove(id), ..s }, Some(s.msg_lookup[id]))
    } else {
        (s, None)
    }
}

/// A cached record has expired at `now`: its time to live, in nanoseconds, added (wrapping)
/// to the time it was cached, is before `now`.
pub open spec fn expired(r: ResourceView, now: i64) -> bool {
    ((r.ttl as int * 1000000000) as i64).wrapping_add(r.cache_timeout) < now
}

/// Following the cache from `name`: while a record is cached under the bytes of the name,
/// an expired one is removed and ends the walk, and a live one is collected and its data
/// becomes the name. The cache afterwards, and the records collected (`None` where the first
/// name is not cached at all); `None` where the walk does not end within `fuel` steps, as
/// happens where the cached records form a cycle.
pub open spec fn retrieve(cache: Map<Seq<u8>, ResourceView>, name: DataView, acc: Seq<ResourceView>, now: i64, fuel: nat)
    -> Option<(Map<Seq<u8>, ResourceView>, Option<Seq<ResourceView>>)>
    decreases fuel,
{
    if fuel == 0 {
        None
    } else {
        let k = data_bytes(name);
        if !cache.contains_key(k) {
            Some((cache, if acc.len() > 0 { Some(acc) } else { None }))
        } else if expired(cache[k], now) {
            Some((cache.remove(k), Some(acc)))
        } else {
            retrieve(cache, cache[k].rdata, acc.push(cache[k]), now, (fuel - 1) as nat)
        }
    }
}

/// Following the cache from `name`. A walk that ends visits each key at most once, so one
/// step more than the number of cached records is enough.
pub open spec fn retrieve_from(cache: Map<Seq<u8>, ResourceView>, name: DataView, now: i64)
    -> Option<(Map<Seq<u8>, ResourceView>, Option<Seq<ResourceView>>)> {
    retrieve(cache, name, Seq::empty(), now, cache.dom().len() + 1)
}

/// The name at which a walk of the cache from `name` stops (see `retrieve`): the first
/// name not cached, the name of the expired record removed, or the name reached when
/// `fuel` runs out.
pub open spec fn walk_end(cache: Map<Seq<u8>, ResourceView>, name: DataView, now: i64, fuel: nat) -> DataView
    decreases fuel,
{
    if fuel == 0 {
        name
    } else {
        let k = data_bytes(name);
        if !cache.contains_key(k) || expired(cache[k], now) {
            name
        } else {
            walk_end(cache, cache[k].rdata, now, (fuel - 1) as nat)
        }
    }
}

/// The last label of a name alone, with its length byte.
pub open spec fn tld_of(v: DataView) -> DataView {
    DataView { labels: seq![v.labels.last()], lengths: seq![v.lengths[v.labels.len() - 1]] }
}

/// Looking up the first question of `m` in the cache: the name itself, and where nothing is
/// cached under it, the last label of the name (or the empty name).
pub open spec fn check_cache(cache: Map<Seq<u8>, ResourceView>, m: MessageView, now: i64)
    -> Option<(Map<Seq<u8>, ResourceView>, Option<Seq<ResourceView>>)> {
    if m.header.qdcount > 0 {
        let q = m.questions[0].qname;
        match retrieve_from(cache, q, now) {
            None => None,
            Some((c1, Some(res))) => Some((c1, Some(res))),
            Some((c1, None)) => retrieve_from(c1, if q.labels.len() > 1 { tld_of(q) } else { empty_data() }, now),
        }
    } else {
        Some((cache, None))
    }
}

/// Caching records `i` to `n - 1` of `rs`: each record whose name is not cached yet is
/// stamped with `now` and cached under the bytes of its name.
pub open spec fn cache_records(cache: Map<Seq<u8>, ResourceView>, rs: Seq<ResourceView>, i: nat, n: nat, now: i64)
    -> (Map<Seq<u8>, ResourceView>, Seq<ResourceView>)
    decreases n - i,
{
    if i >= n {
        (cache, rs)
    } else {
        let k = data_bytes(rs[i as int].rname);
        if cache.contains_key(k) {
            cache_records(cache, rs, i + 1, n, now)
        } else {
            let r = ResourceView { cache_timeout: now, ..rs[i as int] };
            cache_records(cache.insert(k, r), rs.update(i as int, r), i + 1, n, now)
        }
    }
}

/// Caching the counted answers and additional records of `m`.
pub open spec fn update_cache(cache: Map<Seq<u8>, ResourceView>, m: MessageView, now: i64)
    -> (Map<Seq<u8>, ResourceView>, MessageView) {
    let (c1, ans) = cache_records(cache, m.answers, 0, m.header.ancount as nat, now);
    let (c2, add) = cache_records(c1, m.additional, 0, m.header.arcount as nat, now);
    (c2, MessageView { answers: ans, additional: add, ..m })
}

/// `Message::next_server` on `m`: the message afterwards and the address found.
pub open spec fn next_server_of(m: MessageView) -> (MessageView, Option<SocketAddress>) {
    let k = first_a_record(m.additional, m.server as int);
    if k < m.additional.len() {
        (MessageView { server: (k + 1) as usize, ..m }, Some(resource_address(m.additional[k])))
    } else {
        (MessageView { server: k as usize, ..m }, None)
    }
}

/// The query with transaction id `id` for the name written at the start of `name`.
pub open spec fn query_for(name: Seq<u8>, id: u16) -> MessageView {
    MessageView {
        header: query_header(id),
        questions: seq![QuestionView {
            qname: with_name(empty_data(), name_at(name, 0, Seq::empty()).unwrap().0),
            qtype: 1,
            qclass: 1,
        }],
        ..empty_message()
    }
}

/// `Message::drop_records` on `m`.
pub open spec fn dropped(m: MessageView) -> MessageView {
    MessageView {
        header: Header { ancount: 0, ..m.header },
        answers: if m.header.ancount > 0 { Seq::empty() } else { m.answers },
        ..m
    }
}

/// A client's query `m` from `src`: the client is recorded under the query's id, the query
/// is passed on to the root server and waits for an answer.
pub open spec fn request(s: ServerView, m: MessageView, src: SocketAddress, now: i64) -> (ServerView, Seq<ActionView>) {
    (
        ServerView { ip_lookup: s.ip_lookup.insert(m.header.id, src), waiting_queue: s.waiting_queue.push(stamped(m, now)), ..s },
        seq![send(m, root_server_spec())],
    )
}

/// Sends `m` to the client that asked it, if one is recorded, and forgets the client.
pub open spec fn answer_origin(s: ServerView, m: MessageView) -> (ServerView, Seq<ActionView>) {
    let (s1, o) = take_origin(s, m.header.id);
    (s1, match o { Some(a) => seq![send(m, a)], None => Seq::empty() })
}

/// A response with several answers: its records are cached, and where an answer is an
/// address it goes back to the client.
pub open spec fn multiple_answers(s: ServerView, m: MessageView, now: i64) -> (ServerView, Seq<ActionView>) {
    let (c, m1) = update_cache(s.cache, m, now);
    let s1 = ServerView { cache: c, ..s };
    if has_answer_type(m1, 1) {
        answer_origin(s1, m1)
    } else {
        (s1, Seq::empty())
    }
}

/// A response with additional records only: its records are cached, and the query is sent
/// on to the next server named by an address among them, where it waits again.
pub open spec fn additional_records(s: ServerView, m: MessageView, now: i64) -> (ServerView, Seq<ActionView>) {
    let (c, m1) = update_cache(s.cache, m, now);
    let s1 = ServerView { cache: c, ..s };
    let (m2, r) = next_server_of(m1);
    match r {
        Some(a) => {
            let m3 = with_qr(m2, 0);
            (ServerView { waiting_queue: s1.waiting_queue.push(stamped(m3, now)), ..s1 }, seq![send(m3, a)])
        },
        None => (s1, Seq::empty()),
    }
}

/// The address given by the first A record among `res`, if any.
pub open spec fn address_among(res: Option<Seq<ResourceView>>) -> Option<SocketAddress> {
    match res {
        Some(rs) => if first_a_record(rs, 0) < rs.len() { Some(resource_address(rs[first_a_record(rs, 0)])) } else { None },
        None => None,
    }
}

/// Asks for the address of a name server with a query of id `id` for `name`: where the cache
/// gives an address among the records it holds for the name, `m` is sent there as a query;
/// otherwise `m` waits on the new query, which is sent to the root server and waits for an answer.
pub open spec fn ask_name_server(s: ServerView, m: MessageView, name: DataView, now: i64, id: u16) -> Option<(ServerView, Seq<ActionView>)> {
    let q = query_for(data_bytes(name), id);
    match check_cache(s.cache, q, now) {
        None => None,
        Some((c2, res)) => {
            let s2 = ServerView { cache: c2, ..s };
            match address_among(res) {
                Some(a) => Some((s2, seq![send(with_qr(m, 0), a)])),
                None => Some((
                    ServerView {
                        msg_lookup: s2.msg_lookup.insert(id, m),
                        waiting_queue: s2.waiting_queue.push(stamped(q, now)),
                        ..s2
                    },
                    seq![send(q, root_server_spec())],
                )),
            }
        },
    }
}

/// A response with name servers only: its records are cached; a query for an SOA record
/// goes back to the client (which must be recorded); otherwise the address of the first
/// name server is looked for. `None` where the message has no question.
pub open spec fn name_servers(s: ServerView, m: MessageView, now: i64, id: u16) -> Option<(ServerView, Seq<ActionView>)> {
    let (c, m1) = update_cache(s.cache, m, now);
    let s1 = ServerView { cache: c, ..s };
    if m1.questions.len() == 0 {
        None
    } else if m1.questions[0].qtype == 6 {
        let (s2, o) = take_origin(s1, m1.header.id);
        match o {
            Some(a) => Some((s2, seq![send(m1, a)])),
            None => None,
        }
    } else {
        ask_name_server(s1, m1, m1.authority[0].rdata, now, id)
    }
}

/// The answer `m` to a query of the resolver, on which the message `pending` waited.
/// Where `pending` holds a canonical name, the answers of `m` complete it: it becomes a
/// response, goes to its client if one is recorded, and otherwise is handled as the answer
/// to the query it waits on in turn. Otherwise `pending` is sent as a query, without its
/// answers, to the address that `m` answers (if its first answer is one), and waits.
pub open spec fn resolve_pending(s: ServerView, m: MessageView, now: i64) -> (ServerView, Seq<ActionView>)
    decreases s.msg_lookup.dom().len(),
{
    if s.msg_lookup.dom().finite() && s.msg_lookup.contains_key(m.header.id) {
        let (s1, p) = take_pending(s, m.header.id);
        let msg = p.unwrap();
        if has_answer_type(msg, 5) {
            let msg2 = MessageView {
                header: Header { qr: 0x8000, ancount: msg.header.ancount.wrapping_add(m.header.ancount), ..msg.header },
                answers: msg.answers + m.answers,
                ..msg
            };
            let (s2, o) = take_origin(s1, msg2.header.id);
            match o {
                Some(a) => (s2, seq![send(msg2, a)]),
                None => resolve_pending(s2, msg2, now),
            }
        } else {
            let msg2 = dropped(with_qr(msg, 0));
            let acts = if m.answers[0].rtype == 1 { seq![send(msg2, resource_address(m.answers[0]))] } else { Seq::empty() };
            (ServerView { waiting_queue: s1.waiting_queue.push(stamped(msg2, now)), ..s1 }, acts)
        }
    } else {
        answer_origin(s, m)
    }
}

/// A response with a single answer: its records are cached. A lone canonical name is looked
/// up in turn (from the cache, or with a new query of id `id` on which `m` waits); any other
/// answer resolves the messages waiting on it, then goes to its client.
pub open spec fn single_answer(s: ServerView, m: MessageView, now: i64, id: u16) -> Option<(ServerView, Seq<ActionView>)> {
    let (c, m1) = update_cache(s.cache, m, now);
    let s1 = ServerView { cache: c, ..s };
    if has_answer_type(m1, 5) && m1.header.ancount == 1 {
        let q = query_for(data_bytes(m1.answers[0].rdata), id);
        match check_cache(s1.cache, q, now) {
            None => None,
            Some((c2, Some(res))) => {
                let m2 = MessageView {
                    header: Header { ancount: res.len() as u16, ..m1.header },
                    answers: m1.answers + res,
                    ..m1
                };
                Some(answer_origin(ServerView { cache: c2, ..s1 }, m2))
            },
            Some((c2, None)) => Some((
                ServerView {
                    cache: c2,
                    msg_lookup: s1.msg_lookup.insert(id, m1),
                    waiting_queue: s1.waiting_queue.push(stamped(q, now)),
                    ..s1
                },
                seq![send(q, root_server_spec())],
            )),
        }
    } else {
        Some(resolve_pending(s1, m1, now))
    }
}

/// A response `m`, by its counts of answers, name servers and additional records.
pub open spec fn response(s: ServerView, m: MessageView, now: i64, id: u16) -> Option<(ServerView, Seq<ActionView>)> {
    let an = m.header.ancount;
    let ns = m.header.nscount;
    let ar = m.header.arcount;
    if an == 0 && ns == 0 && ar == 0 {
        Some((s, Seq::empty()))
    } else if an == 1 {
        single_answer(s, m, now, id)
    } else if 2 <= an <= 999 {
        Some(multiple_answers(s, m, now))
    } else if an == 0 && 1 <= ns <= 999 && ar == 0 {
        name_servers(s, m, now, id)
    } else if an == 0 && 1 <= ar <= 999 {
        Some(additional_records(s, m, now))
    } else {
        Some((s, Seq::empty()))
    }
}

/// A message that nothing cached answers: a query or a response, by its response flag.
pub open spec fn message_direction(s: ServerView, m: MessageView, src: SocketAddress, now: i64, id: u16) -> Option<(ServerView, Seq<ActionView>)> {
    if m.header.qr == 0 {
        Some(request(s, m, src, now))
    } else if m.header.qr == 0x8000 {
        response(s, m, now, id)
    } else {
        Some((s, Seq::empty()))
    }
}

/// More than 0.8 s (wrapping, as the elapsed time is an absolute difference) have passed
/// between `ts` and `now`.
pub open spec fn waited_too_long(now: i64, ts: i64) -> bool {
    let d = now.wrapping_sub(ts);
    d != i64::MIN && (if d < 0 { -d } else { d as int }) > 800000000
}

/// Passing over the waiting queries from `i` on: a query that has waited too long is sent
/// to the next server named among its additional records and waits again from `now`, or
/// leaves the queue where there is none.
pub open spec fn retry_waiting(wq: Seq<MessageView>, i: nat, now: i64) -> (Seq<MessageView>, Seq<ActionView>)
    decreases wq.len() - i,
{
    if i >= wq.len() {
        (wq, Seq::empty())
    } else if waited_too_long(now, wq[i as int].timestamp) {
        let (m2, r) = next_server_of(wq[i as int]);
        match r {
            Some(a) => {
                let (wq2, acts) = retry_waiting(wq.update(i as int, stamped(m2, now)), i + 1, now);
                (wq2, seq![send(wq[i as int], a)] + acts)
            },
            None => retry_waiting(wq.remove(i as int), i, now),
        }
    } else {
        retry_waiting(wq, i + 1, now)
    }
}

/// The index of the first query of `wq` with transaction id `id`, or the length of `wq`.
pub open spec fn first_with_id(wq: Seq<MessageView>, id: u16, i: int) -> int
    decreases wq.len() - i,
{
    if i >= wq.len() {
        wq.len() as int
    } else if wq[i].header.id == id {
        i
    } else {
        first_with_id(wq, id, i + 1)
    }
}

/// The queue without its first query of id `id`.
pub open spec fn without_first(wq: Seq<MessageView>, id: u16) -> Seq<MessageView> {
    let i = first_with_id(wq, id, 0);
    if i < wq.len() { wq.remove(i) } else { wq }
}

/// What is shown of a message read: its details, its host name, or nothing; `None` where the
/// host name is to be shown and the message has no question.
pub open spec fn shown(option: i64, m: MessageView) -> Option<Seq<ActionView>> {
    if option == 1 {
        Some(seq![ActionView::ShowMessage(m)])
    } else if option == 2 {
        if m.questions.len() > 0 { Some(seq![ActionView::ShowHostname(m.questions[0].qname)]) } else { None }
    } else {
        Some(Seq::empty())
    }
}

/// The index of the first record of `res` that is an address for the name `t`.
pub open spec fn first_address_for(res: Seq<ResourceView>, t: DataView, i: int) -> int
    decreases res.len() - i,
{
    if i >= res.len() {
        res.len() as int
    } else if res[i].rname.labels == t.labels && res[i].rtype == 1 {
        i
    } else {
        first_address_for(res, t, i + 1)
    }
}

/// A message that the cache answers with the records `res`: where they give an address for
/// the last label of the name asked, the message goes there; otherwise the records become
/// its answers and the message goes back to `src` as a response.
pub open spec fn cached_answer(m: MessageView, res: Seq<ResourceView>, src: SocketAddress) -> ActionView {
    let q = m.questions[0].qname;
    if q.labels.len() > 1 && first_address_for(res, tld_of(q), 0) < res.len() {
        send(m, resource_address(res[first_address_for(res, tld_of(q), 0)]))
    } else {
        send(MessageView {
            header: Header { qr: 0x8000, ancount: res.len() as u16, ..m.header },
            answers: m.answers + res,
            ..m
        }, src)
    }
}

/// Handling the message held by `data` from `src` at time `now`, with `id` as the id of any
/// query the resolver makes: the waiting queries are retried, the message is read (an error
/// is reported), shown, removed from the waiting queries, and answered from the cache or
/// passed on. `None` where the resolver cannot complete: the message runs past the end of
/// `data`, a host name is to be shown of a message without question, a walk of the cache
/// does not end, or an SOA query has no recorded client.
pub open spec fn process_event(s: ServerView, data: Seq<u8>, src: SocketAddress, now: i64, id: u16) -> Option<(ServerView, Seq<ActionView>)> {
    let (wq, acts0) = retry_waiting(s.waiting_queue, 0, now);
    let s1 = ServerView { waiting_queue: wq, ..s };
    match message_at(empty_message(), data) {
        None => None,
        Some((m, Some(e))) => Some((s1, acts0.push(ActionView::Report(e)))),
        Some((m, None)) => match shown(s.option, m) {
            None => None,
            Some(acts1) => {
                let s2 = ServerView { waiting_queue: without_first(wq, m.header.id), ..s1 };
                match check_cache(s2.cache, m, now) {
                    None => None,
                    Some((c, Some(res))) => Some((ServerView { cache: c, ..s2 }, acts0 + acts1 + seq![cached_answer(m, res, src)])),
                    Some((c, None)) => match message_direction(ServerView { cache: c, ..s2 }, m, src, now, id) {
                        None => None,
                        Some((s3, acts2)) => Some((s3, acts0 + acts1 + acts2)),
                    },
                }
            },
        },
    }
}

// ---------------------------------------------------------------------------------------
// The resolver.

/// Lemmas on how the resolver's operations keep messages well formed.
pub proof fn lemma_wf_update(m: MessageView, now: i64, cache: Map<Seq<u8>, ResourceView>)
    requires
        wf_message(m),
        forall|k: Seq<u8>| #[trigger] cache.contains_key(k) ==> wf_record(cache[k]),
    ensures
        wf_message(update_cache(cache, m, now).1),
        forall|k: Seq<u8>| #[trigger] update_cache(cache, m, now).0.contains_key(k) ==> wf_record(update_cache(cache, m, now).0[k]),
        update_cache(cache, m, now).1.header == m.header,
        update_cache(cache, m, now).1.questions == m.questions,
        update_cache(cache, m, now).1.authority == m.authority,
        update_cache(cache, m, now).1.server == m.server,
        update_cache(cache, m, now).1.answers.len() == m.answers.len(),
        update_cache(cache, m, now).1.additional.len() == m.additional.len(),
        forall|i: int| 0 <= i < m.answers.len() ==> (#[trigger] update_cache(cache, m, now).1.answers[i]).rtype == m.answers[i].rtype
            && update_cache(cache, m, now).1.answers[i].rdata == m.answers[i].rdata,
        forall|i: int| 0 <= i < m.additional.len() ==> (#[trigger] update_cache(cache, m, now).1.additional[i]).rtype == m.additional[i].rtype
            && update_cache(cache, m, now).1.additional[i].rdata == m.additional[i].rdata,
{
    lemma_cache_records_wf(cache, m.answers, 0, m.header.ancount as nat, now);
    let (c1, ans) = cache_records(cache, m.answers, 0, m.header.ancount as nat, now);
    lemma_cache_records_wf(c1, m.additional, 0, m.header.arcount as nat, now);
}

proof fn lemma_cache_records_wf(cache: Map<Seq<u8>, ResourceView>, rs: Seq<ResourceView>, i: nat, n: nat, now: i64)
    requires
        wf_records(rs),
        n <= rs.len(),
        forall|k: Seq<u8>| #[trigger] cache.contains_key(k) ==> wf_record(cache[k]),
    ensures
        wf_records(cache_records(cache, rs, i, n, now).1),
        forall|k: Seq<u8>| #[trigger] cache_records(cache, rs, i, n, now).0.contains_key(k) ==> wf_record(cache_records(cache, rs, i, n, now).0[k]),
        cache_records(cache, rs, i, n, now).1.len() == rs.len(),
        forall|j: int| 0 <= j < rs.len() ==> (#[trigger] cache_records(cache, rs, i, n, now).1[j]).rtype == rs[j].rtype
            && cache_records(cache, rs, i, n, now).1[j].rdata == rs[j].rdata,
    decreases n - i,
{
    if i < n {
        let k = data_bytes(rs[i as int].rname);
        if cache.contains_key(k) {
            lemma_cache_records_wf(cache, rs, i + 1, n, now);
        } else {
            let r = ResourceView { cache_timeout: now, ..rs[i as int] };
            assert(wf_record(rs[i as int]));
            let rs2 = rs.update(i as int, r);
            assert forall|j: int| 0 <= j < rs2.len() implies #[trigger] wf_record(rs2[j]) by {
                if j != i {
                    assert(rs2[j] == rs[j]);
                }
            }
            lemma_cache_records_wf(cache.insert(k, r), rs2, i + 1, n, now);
        }
    }
}

pub(crate) proof fn lemma_query_wf(name: Seq<u8>, id: u16)
    requires
        name_at(name, 0, Seq::empty()) is Some,
    ensures
        wf_message(query_for(name, id)),
        query_for(name, id).header.id == id,
{
    crate::wellformed::lemma_name_labels_short(name, 0, Seq::empty());
    crate::wellformed::lemma_short_labels_name(name_at(name, 0, Seq::empty()).unwrap().0);
    let q = query_for(name, id);
    assert forall|i: int| 0 <= i < q.questions.len() implies #[trigger] wf_question(q.questions[i]) by {}
}

/// A query that the resolver makes for a name (`Message::generate_query` on a new
/// message), written and read back into an empty message, gives the same message, with
/// the written bytes as its copy, and no error.
pub proof fn law_query_roundtrip(name: Seq<u8>, id: u16)
    requires
        name_at(name, 0, Seq::empty()) is Some,
    ensures
        message_at(empty_message(), message_bytes(query_for(name, id)))
            == Some((MessageView { msg_copy: message_bytes(query_for(name, id)), ..query_for(name, id) }, None::<Seq<char>>)),
{
    let ls = name_at(name, 0, Seq::empty()).unwrap().0;
    crate::wellformed::lemma_name_labels_short(name, 0, Seq::empty());
    crate::wellformed::lemma_short_labels_name(ls);
    let m = query_for(name, id);
    assert(crate::roundtrip::rereadable_question(m.questions[0]));
    crate::roundtrip::law_message_roundtrip(m);
    assert(m.questions.take(1) =~= m.questions);
    assert(Seq::new(0, |k: int| crate::roundtrip::reread_record(m.answers[k])) =~= Seq::<ResourceView>::empty());
}

pub(crate) proof fn lemma_written_readable(v: DataView)
    requires
        consistent_data(v),
    ensures
        name_at(data_bytes(v), 0, Seq::empty()) is Some,
{
    lemma_written_name_readable(v, Seq::empty(), Seq::empty());
    assert(data_bytes(v) + Seq::<u8>::empty() =~= data_bytes(v));
}

pub(crate) proof fn lemma_wf_records_concat(a: Seq<ResourceView>, b: Seq<ResourceView>)
    requires
        wf_records(a),
        wf_records(b),
    ensures
        wf_records(a + b),
{
    assert forall|i: int| 0 <= i < (a + b).len() implies #[trigger] wf_record((a + b)[i]) by {
        if i < a.len() {
            assert((a + b)[i] == a[i]);
        } else {
            assert((a + b)[i] == b[i - a.len()]);
        }
    }
}

pub(crate) proof fn lemma_wf_variants(m: MessageView, qr: u16, now: i64)
    requires
        wf_message(m),
    ensures
        wf_message(with_qr(m, qr)),
        wf_message(stamped(m, now)),
        wf_message(dropped(m)),
        wf_message(next_server_of(m).0),
{
    assert forall|i: int| 0 <= i < dropped(m).answers.len() implies #[trigger] wf_record(dropped(m).answers[i]) by {}
}

proof fn lemma_wf_merged(msg: MessageView, m: MessageView)
    requires
        wf_message(msg),
        wf_message(m),
    ensures
        wf_message(MessageView {
            header: Header { qr: 0x8000, ancount: msg.header.ancount.wrapping_add(m.header.ancount), ..msg.header },
            answers: msg.answers + m.answers,
            ..msg
        }),
{
    lemma_wf_records_concat(msg.answers, m.answers);
}

proof fn lemma_wf_with_answers(m: MessageView, res: Seq<ResourceView>, qr: u16)
    requires
        wf_message(m),
        wf_records(res),
    ensures
        wf_message(MessageView {
            header: Header { ancount: res.len() as u16, ..m.header },
            answers: m.answers + res,
            ..m
        }),
        wf_message(MessageView {
            header: Header { qr: qr, ancount: res.len() as u16, ..m.header },
            answers: m.answers + res,
            ..m
        }),
{
    lemma_wf_records_concat(m.answers, res);
}

/// The cache's records, and those a walk of it collects, stay well formed.
proof fn lemma_retrieve_wf(cache: Map<Seq<u8>, ResourceView>, name: DataView, acc: Seq<ResourceView>, now: i64, fuel: nat)
    requires
        forall|k: Seq<u8>| #[trigger] cache.contains_key(k) ==> wf_record(cache[k]),
        wf_records(acc),
        cache.dom().finite(),
    ensures
        retrieve(cache, name, acc, now, fuel) matches Some((c, o)) ==>
            (forall|k: Seq<u8>| #[trigger] c.contains_key(k) ==> wf_record(c[k]))
            && c.dom().finite()
            && (o matches Some(rs) ==> wf_records(rs)),
    decreases fuel,
{
    if fuel > 0 {
        let k = data_bytes(name);
        if cache.contains_key(k) && !expired(cache[k], now) {
            let acc2 = acc.push(cache[k]);
            assert forall|i: int| 0 <= i < acc2.len() implies #[trigger] wf_record(acc2[i]) by {
                if i < acc.len() {
                    assert(acc2[i] == acc[i]);
                }
            }
            lemma_retrieve_wf(cache, cache[k].rdata, acc2, now, (fuel - 1) as nat);
        }
    }
}

proof fn lemma_check_cache_wf(cache: Map<Seq<u8>, ResourceView>, m: MessageView, now: i64)
    requires
        forall|k: Seq<u8>| #[trigger] cache.contains_key(k) ==> wf_record(cache[k]),
        cache.dom().finite(),
    ensures
        check_cache(cache, m, now) matches Some((c, o)) ==>
            (forall|k: Seq<u8>| #[trigger] c.contains_key(k) ==> wf_record(c[k]))
            && c.dom().finite()
            && (o matches Some(rs) ==> wf_records(rs)),
{
    if m.header.qdcount > 0 {
        let q = m.questions[0].qname;
        lemma_retrieve_wf(cache, q, Seq::empty(), now, cache.dom().len() + 1);
        if let Some((c1, None)) = retrieve_from(cache, q, now) {
            lemma_retrieve_wf(c1, if q.labels.len() > 1 { tld_of(q) } else { empty_data() }, Seq::empty(), now, c1.dom().len() + 1);
        }
    }
}

pub(crate) proof fn lemma_first_with_id(wq: Seq<MessageView>, id: u16, i: int)
    requires
        0 <= i <= wq.len(),
    ensures
        i <= first_with_id(wq, id, i) <= (if i <= wq.len() { wq.len() as int } else { i }),
        first_with_id(wq, id, i) < wq.len() ==> first_with_id(wq, id, i) >= i && wq[first_with_id(wq, id, i)].header.id == id,
        forall|k: int| i <= k < first_with_id(wq, id, i) && k < wq.len() ==> #[trigger] wq[k].header.id != id,
    decreases wq.len() - i,
{
    if i < wq.len() && wq[i].header.id != id {
        lemma_first_with_id(wq, id, i + 1);
    }
}

proof fn lemma_first_address_for(res: Seq<ResourceView>, t: DataView, i: int)
    requires
        0 <= i <= res.len(),
    ensures
        i <= first_address_for(res, t, i),
        first_address_for(res, t, i) < res.len() ==> res[first_address_for(res, t, i)].rname.labels == t.labels
            && res[first_address_for(res, t, i)].rtype == 1,
        forall|k: int| i <= k < first_address_for(res, t, i) && k < res.len() ==> !(#[trigger] res[k].rname.labels == t.labels && res[k].rtype == 1),
    decreases res.len() - i,
{
    if i < res.len() && !(res[i].rname.labels == t.labels && res[i].rtype == 1) {
        lemma_first_address_for(res, t, i + 1);
    }
}

impl Server {
    /// The resolver's state is well formed: its caches hold each key once and every message
    /// and record it keeps is well formed.
    pub open spec fn wf(&self) -> bool {
        &&& self.cache.wf()
        &&& self.soa_cache.wf()
        &&& wf_server_view(self@)
    }

    /// Sends `message` to `sock`: the bytes it writes once its truncated flag is cleared.
    pub(crate) fn send_message(message: &Message, sock: SocketAddress, acts: &mut Vec<Action>)
        requires
            crate::message::writable_message(message@),
        ensures
            actions_view(final(acts)@) == actions_view(old(acts)@).push(send(message@, sock)),
    {
        let mut copy = message.deep_copy();
        let bytes = copy.write();
        acts.push(Action::Send(bytes, sock));
        assert(actions_view(acts@) =~= actions_view(old(acts)@).push(send(message@, sock)));
    }

    /// Takes the client that asked the query `message` answers, if one is recorded.
    fn query_origin_addr(&mut self, message: &Message) -> (r: Option<SocketAddress>)
        requires
            old(self).wf(),
        ensures
            final(self).wf(),
            (final(self)@, r) == take_origin(old(self)@, message.header.id),
    {
        let id = message.header.id;
        if self.ip_lookup.contains_key(&id) {
            let addr = *self.ip_lookup.get(&id).unwrap();
            self.ip_lookup.remove(&id);
            assert(self@ == take_origin(old(self)@, id).0);
            Some(addr)
        } else {
            None
        }
    }

    /// Takes the message waiting on the query `message` answers, if one is recorded.
    fn server_query_response(&mut self, message: &Message) -> (r: Option<Message>)
        requires
            old(self).wf(),
        ensures
            final(self).wf(),
            final(self)@ == take_pending(old(self)@, message.header.id).0,
            r matches Some(m) ==> take_pending(old(self)@, message.header.id).1 == Some(m@),
            r is None ==> take_pending(old(self)@, message.header.id).1 is None,
    {
        let id = message.header.id;
        let r = self.msg_lookup.remove(&id);
        assert(self@.msg_lookup =~= take_pending(old(self)@, id).0.msg_lookup);
        r
    }

    /// Whether a message waits on the query `message` answers.
    fn is_server_query_server(&self, message: &Message) -> (r: bool)
        ensures
            r == self@.msg_lookup.contains_key(message.header.id),
    {
        self.msg_lookup.contains_key(&message.header.id)
    }

    /// Follows the cache from `name` (see `retrieve`); `None` where the walk would not end.
    /// `name` is left at the name where the walk stops (see `walk_end`).
    fn retrieve_from_cache(&mut self, name: &mut Data, now: i64) -> (r: Option<Option<Vec<Resource>>>)
        requires
            old(self).wf(),
        ensures
            final(self).wf(),
            final(name)@ == walk_end(old(self)@.cache, old(name)@, now, old(self)@.cache.dom().len() + 1),
            retrieve_from(old(self)@.cache, old(name)@, now) is None <==> r is None,
            retrieve_from(old(self)@.cache, old(name)@, now) matches Some((c, o)) ==> r matches Some(ro)
                && final(self)@ == (ServerView { cache: c, ..old(self)@ })
                && (o is None <==> ro is None)
                && (ro matches Some(v) ==> o == Some(resources_view(v@))),
    {
        let mut res: Vec<Resource> = Vec::new();
        let mut fuel: u128 = self.cache.len() as u128 + 1;
        let ghost total = retrieve_from(self@.cache, name@, now);
        let ghost end = walk_end(self@.cache, name@, now, self@.cache.dom().len() + 1);
        assert(resources_view(res@) =~= Seq::<ResourceView>::empty());
        loop
            invariant
                self.cache.wf(),
                self.soa_cache.wf(),
                self@ == (ServerView { cache: self@.cache, ..old(self)@ }),
                self@.cache == old(self)@.cache,
                total == retrieve(self@.cache, name@, resources_view(res@), now, fuel as nat),
                total == retrieve_from(old(self)@.cache, old(name)@, now),
                end == walk_end(self@.cache, name@, now, fuel as nat),
                end == walk_end(old(self)@.cache, old(name)@, now, old(self)@.cache.dom().len() + 1),
                wf_server_view(old(self)@),
            decreases fuel,
        {
            if fuel == 0 {
                return None;
            }
            let mut key = name.write();
            if !self.cache.contains_key(&key) {
                if res.len() > 0 {
                    return Some(Some(res));
                } else {
                    return Some(None);
                }
            }
            let temp_res = self.cache.get(&key);
            let num: i64 = (temp_res.ttl as i64) * 1000000000;
            if num.wrapping_add(temp_res.cache_timeout) < now {
                self.cache.remove(&key);
                assert(self@.cache == old(self)@.cache.remove(key@));
                return Some(Some(res));
            } else {
                let ghost before = resources_view(res@);
                let next = temp_res.rdata.deep_copy();
                res.push(temp_res);
                assert(resources_view(res@) =~= before.push(self@.cache[key@]));
                *name = next;
                fuel = fuel - 1;
            }
        }
    }

    /// Looks up the first question of `message` in the cache (see `check_cache`); `None`
    /// where a walk of the cache would not end.
    fn check_cache(&mut self, message: &Message, now: i64) -> (r: Option<Option<Vec<Resource>>>)
        requires
            old(self).wf(),
            wf_message(message@),
        ensures
            final(self).wf(),
            check_cache(old(self)@.cache, message@, now) is None <==> r is None,
            check_cache(old(self)@.cache, message@, now) matches Some((c, o)) ==> r matches Some(ro)
                && final(self)@ == (ServerView { cache: c, ..old(self)@ })
                && (o is None <==> ro is None)
                && (ro matches Some(v) ==> o == Some(resources_view(v@))),
    {
        if message.header.qdcount > 0 {
            assert(wf_question(message@.questions[0]));
            let mut name = message.questions[0].qname.deep_copy();
            match self.retrieve_from_cache(&mut name, now) {
                None => None,
                Some(Some(res)) => Some(Some(res)),
                Some(None) => {
                    let mut q = message.questions[0].qname.deep_copy();
                    name = match q.tld() {
                        Some(n) => n,
                        None => Data::new(),
                    };
                    self.retrieve_from_cache(&mut name, now)
                },
            }
        } else {
            Some(None)
        }
    }

    /// Caches the counted answers and additional records of `message` whose names are not
    /// cached yet, each stamped with `now` (see `update_cache`).
    fn update_cache(&mut self, message: &mut Message, now: i64)
        requires
            old(self).wf(),
            wf_message(old(message)@),
        ensures
            final(self).wf(),
            (final(self)@.cache, final(message)@) == update_cache(old(self)@.cache, old(message)@, now),
            final(self)@ == (ServerView { cache: final(self)@.cache, ..old(self)@ }),
    {
        proof {
            lemma_wf_update(message@, now, self@.cache);
        }
        let ghost total1 = cache_records(self@.cache, message@.answers, 0, message.header.ancount as nat, now);
        let mut i: usize = 0;
        while i < message.header.ancount as usize
            invariant
                self.cache.wf(),
                self.soa_cache.wf(),
                self@ == (ServerView { cache: self@.cache, ..old(self)@ }),
                message@ == (MessageView { answers: message@.answers, ..old(message)@ }),
                message@.answers.len() == old(message)@.answers.len(),
                i <= message.header.ancount,
                message.header.ancount <= message@.answers.len(),
                total1 == cache_records(self@.cache, message@.answers, i as nat, message.header.ancount as nat, now),
            decreases message.header.ancount - i,
        {
            let ghost mv = message@;
            let key = message.answers[i].rname.write();
            assert(message@.answers =~= mv.answers);
            if !self.cache.contains_key(&key) {
                message.answers[i].cache_timeout = now;
                assert(message@.answers =~= mv.answers.update(i as int, ResourceView { cache_timeout: now, ..mv.answers[i as int] }));
                let c = message.answers[i].deep_copy();
                self.cache.insert(key, c);
            }
            i = i + 1;
        }
        let ghost total2 = cache_records(self@.cache, message@.additional, 0, message.header.arcount as nat, now);
        let mut j: usize = 0;
        while j < message.header.arcount as usize
            invariant
                self.cache.wf(),
                self.soa_cache.wf(),
                self@ == (ServerView { cache: self@.cache, ..old(self)@ }),
                message@ == (MessageView { answers: total1.1, additional: message@.additional, ..old(message)@ }),
                message@.additional.len() == old(message)@.additional.len(),
                j <= message.header.arcount,
                message.header.arcount <= message@.additional.len(),
                total2 == cache_records(self@.cache, message@.additional, j as nat, message.header.arcount as nat, now),
            decreases message.header.arcount - j,
        {
            let ghost mv = message@;
            let key = message.additional[j].rname.write();
            assert(message@.additional =~= mv.additional);
            if !self.cache.contains_key(&key) {
                message.additional[j].cache_timeout = now;
                assert(message@.additional =~= mv.additional.update(j as int, ResourceView { cache_timeout: now, ..mv.additional[j as int] }));
                let c = message.additional[j].deep_copy();
                self.cache.insert(key, c);
            }
            j = j + 1;
        }
        proof {
            self.cache.lemma_finite();
            let u = update_cache(old(self)@.cache, old(message)@, now);
            assert(self@.cache == u.0);
            assert forall|k: Seq<u8>| #[trigger] self@.cache.contains_key(k) implies wf_record(self@.cache[k]) by {
                assert(u.0.contains_key(k));
            }
        }
    }

    /// Sends `message` to the client that asked it, if one is recorded, and forgets the client.
    fn answer_origin(&mut self, message: &Message, acts: &mut Vec<Action>)
        requires
            old(self).wf(),
            wf_message(message@),
        ensures
            final(self).wf(),
            final(self)@ == answer_origin(old(self)@, message@).0,
            actions_view(final(acts)@) == actions_view(old(acts)@) + answer_origin(old(self)@, message@).1,
    {
        proof {
            lemma_wf_writable(message@);
        }
        match self.query_origin_addr(message) {
            Some(addr) => {
                Self::send_message(message, addr, acts);
            },
            None => {
                assert(actions_view(acts@) =~= actions_view(old(acts)@) + Seq::<ActionView>::empty());
            },
        }
    }

    /// A client's query: recorded under its id, passed on to the root server, and kept
    /// waiting for an answer.
    fn request(&mut self, message: Message, src: SocketAddress, now: i64, acts: &mut Vec<Action>)
        requires
            old(self).wf(),
            wf_message(message@),
        ensures
            final(self).wf(),
            final(self)@ == request(old(self)@, message@, src, now).0,
            actions_view(final(acts)@) == actions_view(old(acts)@) + request(old(self)@, message@, src, now).1,
    {
        let mut message = message;
        let ghost m0 = message@;
        self.ip_lookup.insert(message.header.id, src);
        proof {
            lemma_wf_writable(message@);
            lemma_wf_variants(message@, 0, now);
        }
        Self::send_message(&message, root_server(), acts);
        message.timestamp = now;
        let ghost before = self@.waiting_queue;
        self.waiting_queue.push(message);
        assert(self@.waiting_queue =~= before.push(stamped(m0, now)));
        assert(actions_view(acts@) =~= actions_view(old(acts)@) + request(old(self)@, m0, src, now).1);
    }

    /// A response with several answers (see `multiple_answers`).
    fn process_multiple_answers(&mut self, message: Message, now: i64, acts: &mut Vec<Action>)
        requires
            old(self).wf(),
            wf_message(message@),
        ensures
            final(self).wf(),
            final(self)@ == multiple_answers(old(self)@, message@, now).0,
            actions_view(final(acts)@) == actions_view(old(acts)@) + multiple_answers(old(self)@, message@, now).1,
    {
        let mut message = message;
        proof {
            lemma_wf_update(message@, now, self@.cache);
        }
        self.update_cache(&mut message, now);
        if message.contains_type(1) && message.contains_type(5) {
            self.answer_origin(&message, acts);
            return;
        }
        if message.contains_type(1) {
            self.answer_origin(&message, acts);
            return;
        }
        assert(actions_view(acts@) =~= actions_view(old(acts)@) + Seq::<ActionView>::empty());
    }

    /// A response with additional records only (see `additional_records`).
    fn process_additional_records(&mut self, message: Message, now: i64, acts: &mut Vec<Action>)
        requires
            old(self).wf(),
            wf_message(message@),
        ensures
            final(self).wf(),
            final(self)@ == additional_records(old(self)@, message@, now).0,
            actions_view(final(acts)@) == actions_view(old(acts)@) + additional_records(old(self)@, message@, now).1,
    {
        let mut message = message;
        proof {
            lemma_wf_update(message@, now, self@.cache);
        }
        self.update_cache(&mut message, now);
        let ghost m1 = message@;
        proof {
            let k = first_a_record(m1.additional, m1.server as int);
            crate::message::lemma_first_a_record(m1.additional, m1.server as int);
            if k < m1.additional.len() {
                assert(wf_record(m1.additional[k]));
            }
            lemma_wf_variants(m1, 0, now);
        }
        match message.next_server() {
            Some(addr) => {
                proof {
                    lemma_wf_variants(message@, 0, now);
                }
                message.header.qr = 0x0000;
                proof {
                    lemma_wf_writable(message@);
                    lemma_wf_variants(message@, 0, now);
                }
                Self::send_message(&message, addr, acts);
                message.timestamp = now;
                let ghost before = self@.waiting_queue;
                let ghost mv = message@;
                self.waiting_queue.push(message);
                assert(self@.waiting_queue =~= before.push(mv));
            },
            None => {
                assert(actions_view(acts@) =~= actions_view(old(acts)@) + Seq::<ActionView>::empty());
            },
        }
    }

    /// The query with transaction id `id` for the name `name` holds.
    pub(crate) fn query_from(name: &Data, id: u16) -> (q: Message)
        requires
            consistent_data(name@),
        ensures
            q@ == query_for(data_bytes(name@), id),
            wf_message(q@),
    {
        let mut n = name.deep_copy();
        let bytes = n.write();
        proof {
            lemma_written_readable(name@);
            lemma_query_wf(bytes@, id);
        }
        let mut q = Message::new();
        q.generate_query_with_id(bytes, id);
        assert(q@.questions =~= query_for(data_bytes(name@), id).questions);
        q
    }

    /// Asks for the address of a name server (see `ask_name_server`); `false` where a walk of
    /// the cache would not end.
    fn ask_name_server(&mut self, message: Message, name: &Data, now: i64, id: u16, acts: &mut Vec<Action>) -> (ok: bool)
        requires
            old(self).wf(),
            wf_message(message@),
            consistent_data(name@),
        ensures
            ok == ask_name_server(old(self)@, message@, name@, now, id) is Some,
            ask_name_server(old(self)@, message@, name@, now, id) matches Some((s, a)) ==> final(self).wf()
                && final(self)@ == s && actions_view(final(acts)@) == actions_view(old(acts)@) + a,
    {
        let mut message = message;
        let ghost m_in = message@;
        let mut ns_query = Self::query_from(name, id);
        let ghost q = ns_query@;
        proof {
            lemma_check_cache_wf(self@.cache, q, now);
        }
        match self.check_cache(&ns_query, now) {
            None => false,
            Some(res) => {
                if let Some(rs) = res {
                    let mut i: usize = 0;
                    while i < rs.len() && rs[i].rtype != 1
                        invariant
                            i <= rs@.len(),
                            forall|j: int| 0 <= j < i ==> #[trigger] rs@[j].rtype != 1,
                        decreases rs@.len() - i,
                    {
                        i = i + 1;
                    }
                    proof {
                        crate::message::lemma_first_a_record(resources_view(rs@), 0);
                        let k = first_a_record(resources_view(rs@), 0);
                        if i < rs@.len() {
                            assert(resources_view(rs@)[i as int].rtype == 1);
                            assert(k == i) by {
                                if k < i {
                                    assert(resources_view(rs@)[k].rtype == 1);
                                    assert(rs@[k].rtype != 1);
                                }
                            }
                        } else {
                            assert(k >= rs@.len()) by {
                                if k < rs@.len() {
                                    assert(resources_view(rs@)[k].rtype == 1);
                                    assert(rs@[k].rtype != 1);
                                }
                            }
                        }
                    }
                    if i < rs.len() {
                        let ghost r0 = rs@[i as int]@;
                        proof {
                            assert(wf_records(resources_view(rs@)));
                            assert(wf_record(resources_view(rs@)[i as int]));
                        }
                        let mut r = rs[i].deep_copy();
                        let ip = r.ip_addr();
                        match ip {
                            Some(ip) => {
                                proof {
                                    lemma_wf_variants(message@, 0, now);
                                }
                                message.header.qr = 0x0000;
                                proof {
                                    lemma_wf_writable(message@);
                                }
                                Self::send_message(&message, ip, acts);
                                assert(actions_view(acts@) =~= actions_view(old(acts)@) + seq![send(message@, ip)]);
                                return true;
                            },
                            None => {},
                        }
                    }
                }
                let ghost before = self@;
                self.msg_lookup.insert(ns_query.header.id, message);
                assert(self@.msg_lookup =~= before.msg_lookup.insert(id, m_in));
                proof {
                    lemma_wf_writable(q);
                    lemma_wf_variants(q, 0, now);
                }
                Self::send_message(&ns_query, root_server(), acts);
                ns_query.timestamp = now;
                let ghost before2 = self@.waiting_queue;
                self.waiting_queue.push(ns_query);
                assert(self@.waiting_queue =~= before2.push(stamped(q, now)));
                proof {
                    self.cache.lemma_finite();
                }
                true
            },
        }
    }

    /// A response with name servers only (see `name_servers`); `false` where the resolver
    /// cannot complete.
    fn process_name_servers(&mut self, message: Message, now: i64, id: u16, acts: &mut Vec<Action>) -> (ok: bool)
        requires
            old(self).wf(),
            wf_message(message@),
            message@.header.nscount >= 1,
        ensures
            ok == name_servers(old(self)@, message@, now, id) is Some,
            name_servers(old(self)@, message@, now, id) matches Some((s, a)) ==> final(self).wf()
                && final(self)@ == s && actions_view(final(acts)@) == actions_view(old(acts)@) + a,
    {
        let mut message = message;
        proof {
            lemma_wf_update(message@, now, self@.cache);
        }
        self.update_cache(&mut message, now);
        if message.questions.len() == 0 {
            return false;
        }
        if message.questions[0].qtype == 0x0006 {
            match self.query_origin_addr(&message) {
                Some(sa) => {
                    proof {
                        lemma_wf_writable(message@);
                    }
                    Self::send_message(&message, sa, acts);
                    assert(actions_view(acts@) =~= actions_view(old(acts)@) + seq![send(message@, sa)]);
                    return true;
                },
                None => {
                    return false;
                },
            }
        }
        assert(wf_record(message@.authority[0]));
        let name = message.authority[0].rdata.deep_copy();
        self.ask_name_server(message, &name, now, id, acts)
    }

    /// Resolves the messages waiting on the query that `message` answers (see `resolve_pending`).
    fn resolve_pending(&mut self, message: Message, now: i64, acts: &mut Vec<Action>)
        requires
            old(self).wf(),
            wf_message(message@),
            message@.answers.len() >= 1,
        ensures
            final(self).wf(),
            final(self)@ == resolve_pending(old(self)@, message@, now).0,
            actions_view(final(acts)@) == actions_view(old(acts)@) + resolve_pending(old(self)@, message@, now).1,
    {
        let mut cur = message;
        let ghost total = resolve_pending(self@, cur@, now);
        assert(actions_view(acts@) =~= actions_view(old(acts)@) + Seq::<ActionView>::empty());
        while self.is_server_query_server(&cur)
            invariant
                self.wf(),
                total == resolve_pending(old(self)@, message@, now),
                wf_message(cur@),
                cur@.answers.len() >= 1,
                resolve_pending(self@, cur@, now).0 == total.0,
                actions_view(acts@) + resolve_pending(self@, cur@, now).1 == actions_view(old(acts)@) + total.1,
            decreases self@.msg_lookup.dom().len(),
        {
            let ghost s0 = self@;
            let ghost a0 = actions_view(acts@);
            let ghost m0 = cur@;
            match self.server_query_response(&cur) {
                Some(msg) => {
                    let mut msg = msg;
                    assert(wf_message(msg@));
                    if msg.contains_type(5) {
                        let ghost mv = msg@;
                        msg.header.qr = 0x8000;
                        let mut extra = crate::message::copy_resources(&cur.answers);
                        msg.answers.append(&mut extra);
                        msg.header.ancount = msg.header.ancount.wrapping_add(cur.header.ancount);
                        assert(msg@.answers =~= mv.answers + cur@.answers);
                        let ghost msg2 = MessageView {
                            header: Header { qr: 0x8000, ancount: mv.header.ancount.wrapping_add(m0.header.ancount), ..mv.header },
                            answers: mv.answers + m0.answers,
                            ..mv
                        };
                        assert(msg@ == msg2);
                        proof {
                            lemma_wf_merged(mv, cur@);
                            lemma_wf_writable(msg@);
                        }
                        let ghost s1 = self@;
                        assert(s1 == take_pending(s0, m0.header.id).0);
                        match self.query_origin_addr(&msg) {
                            Some(addr) => {
                                Self::send_message(&msg, addr, acts);
                                assert(actions_view(acts@) =~= a0 + seq![send(msg@, addr)]);
                                assert(resolve_pending(s0, m0, now) == (self@, seq![send(msg2, addr)]));
                                return;
                            },
                            None => {
                                assert(resolve_pending(s0, m0, now) == resolve_pending(self@, msg2, now));
                                cur = msg;
                            },
                        }
                    } else {
                        let ghost mv = msg@;
                        msg.header.qr = 0x0000;
                        msg.drop_records();
                        proof {
                            lemma_wf_variants(mv, 0, now);
                            lemma_wf_variants(with_qr(mv, 0), 0, now);
                            lemma_wf_writable(msg@);
                            assert(msg@ == dropped(with_qr(mv, 0)));
                            assert(wf_record(cur@.answers[0]));
                        }
                        let ghost before_m = cur@;
                        let ip = cur.answers[0].ip_addr();
                        assert(cur@.answers =~= before_m.answers);
                        match ip {
                            Some(ip) => {
                                Self::send_message(&msg, ip, acts);
                            },
                            None => {},
                        }
                        self.msg_lookup.remove(&cur.header.id);
                        msg.timestamp = now;
                        let ghost before = self@.waiting_queue;
                        let ghost mv2 = msg@;
                        self.waiting_queue.push(msg);
                        assert(self@.waiting_queue =~= before.push(mv2));
                        assert(self@.msg_lookup =~= s0.msg_lookup.remove(before_m.header.id));
                        assert(actions_view(acts@) =~= a0 + resolve_pending(s0, before_m, now).1);
                        return;
                    }
                },
                None => {
                    self.answer_origin(&cur, acts);
                    return;
                },
            }
        }
        self.answer_origin(&cur, acts);
    }

    /// A response with a single answer (see `single_answer`); `false` where a walk of the
    /// cache would not end.
    fn process_single_answer(&mut self, message: Message, now: i64, id: u16, acts: &mut Vec<Action>) -> (ok: bool)
        requires
            old(self).wf(),
            wf_message(message@),
            message@.header.ancount == 1,
        ensures
            ok == single_answer(old(self)@, message@, now, id) is Some,
            single_answer(old(self)@, message@, now, id) matches Some((s, a)) ==> final(self).wf()
                && final(self)@ == s && actions_view(final(acts)@) == actions_view(old(acts)@) + a,
    {
        let mut message = message;
        proof {
            lemma_wf_update(message@, now, self@.cache);
        }
        self.update_cache(&mut message, now);
        let ghost m1 = message@;
        if message.contains_type(5) && message.header.ancount == 1 {
            assert(wf_record(m1.answers[0]));
            let name = message.answers[0].rdata.deep_copy();
            let mut ns_query = Self::query_from(&name, id);
            let ghost q = ns_query@;
            proof {
                lemma_check_cache_wf(self@.cache, q, now);
            }
            match self.check_cache(&ns_query, now) {
                None => {
                    return false;
                },
                Some(Some(res)) => {
                    let n = res.len();
                    let mut res = res;
                    let ghost rv = resources_view(res@);
                    let ghost before_answers = message.answers@;
                    message.answers.append(&mut res);
                    message.header.ancount = n as u16;
                    proof {
                        lemma_wf_with_answers(m1, rv, 0);
                    }
                    assert(message@.answers =~= m1.answers + rv);
                    self.answer_origin(&message, acts);
                    return true;
                },
                Some(None) => {
                    let ghost before = self@;
                    self.msg_lookup.insert(ns_query.header.id, message);
                    assert(self@.msg_lookup =~= before.msg_lookup.insert(id, m1));
                    proof {
                        lemma_wf_writable(q);
                        lemma_wf_variants(q, 0, now);
                    }
                    Self::send_message(&ns_query, root_server(), acts);
                    ns_query.timestamp = now;
                    let ghost before2 = self@.waiting_queue;
                    self.waiting_queue.push(ns_query);
                    assert(self@.waiting_queue =~= before2.push(stamped(q, now)));
                    assert(actions_view(acts@) =~= actions_view(old(acts)@) + seq![send(q, root_server_spec())]);
                    return true;
                },
            }
        }
        self.resolve_pending(message, now, acts);
        true
    }

    /// A response (see `response`); `false` where the resolver cannot complete.
    fn response(&mut self, message: Message, now: i64, id: u16, acts: &mut Vec<Action>) -> (ok: bool)
        requires
            old(self).wf(),
            wf_message(message@),
        ensures
            ok == response(old(self)@, message@, now, id) is Some,
            response(old(self)@, message@, now, id) matches Some((s, a)) ==> final(self).wf()
                && final(self)@ == s && actions_view(final(acts)@) == actions_view(old(acts)@) + a,
    {
        let an = message.header.ancount;
        let ns = message.header.nscount;
        let ar = message.header.arcount;
        if an == 0 && ns == 0 && ar == 0 {
            assert(actions_view(acts@) =~= actions_view(old(acts)@) + Seq::<ActionView>::empty());
            true
        } else if an == 1 {
            self.process_single_answer(message, now, id, acts)
        } else if 2 <= an && an <= 999 {
            self.process_multiple_answers(message, now, acts);
            true
        } else if an == 0 && 1 <= ns && ns <= 999 && ar == 0 {
            self.process_name_servers(message, now, id, acts)
        } else if an == 0 && 1 <= ar && ar <= 999 {
            self.process_additional_records(message, now, acts);
            true
        } else {
            assert(actions_view(acts@) =~= actions_view(old(acts)@) + Seq::<ActionView>::empty());
            true
        }
    }

    /// A message that nothing cached answers: a query or a response, by its response flag.
    fn message_direction(&mut self, message: Message, src: SocketAddress, now: i64, id: u16, acts: &mut Vec<Action>) -> (ok: bool)
        requires
            old(self).wf(),
            wf_message(message@),
        ensures
            ok == message_direction(old(self)@, message@, src, now, id) is Some,
            message_direction(old(self)@, message@, src, now, id) matches Some((s, a)) ==> final(self).wf()
                && final(self)@ == s && actions_view(final(acts)@) == actions_view(old(acts)@) + a,
    {
        match message.header.qr {
            0x0000 => {
                self.request(message, src, now, acts);
                true
            },
            0x8000 => self.response(message, now, id, acts),
            _ => {
                assert(actions_view(acts@) =~= actions_view(old(acts)@) + Seq::<ActionView>::empty());
                true
            },
        }
    }

    /// Retries the waiting queries that have waited too long (see `retry_waiting`).
    #[verifier::rlimit(60)]
    fn update_waiting_queue(&mut self, now: i64, acts: &mut Vec<Action>)
        requires
            old(self).wf(),
        ensures
            final(self).wf(),
            final(self)@ == (ServerView { waiting_queue: retry_waiting(old(self)@.waiting_queue, 0, now).0, ..old(self)@ }),
            actions_view(final(acts)@) == actions_view(old(acts)@) + retry_waiting(old(self)@.waiting_queue, 0, now).1,
    {
        let ghost total = retry_waiting(self@.waiting_queue, 0, now);
        assert(actions_view(acts@) =~= actions_view(old(acts)@) + Seq::<ActionView>::empty());
        let mut i: usize = 0;
        while i < self.waiting_queue.len()
            invariant
                self.wf(),
                total == retry_waiting(old(self)@.waiting_queue, 0, now),
                self@ == (ServerView { waiting_queue: self@.waiting_queue, ..old(self)@ }),
                i <= self@.waiting_queue.len(),
                retry_waiting(self@.waiting_queue, i as nat, now).0 == total.0,
                actions_view(acts@) + retry_waiting(self@.waiting_queue, i as nat, now).1 == actions_view(old(acts)@) + total.1,
            decreases self@.waiting_queue.len() - i,
        {
            let ghost wq0 = self@.waiting_queue;
            let ghost a0 = actions_view(acts@);
            let ts = self.waiting_queue[i].timestamp;
            let d = now.wrapping_sub(ts);
            let too_long = d != i64::MIN && (if d < 0 { -d } else { d }) > 800000000;
            assert(too_long == waited_too_long(now, wq0[i as int].timestamp));
            if too_long {
                let msg = self.waiting_queue[i].deep_copy();
                proof {
                    let m = wq0[i as int];
                    assert(wf_message(m));
                    crate::message::lemma_first_a_record(m.additional, m.server as int);
                    let k = first_a_record(m.additional, m.server as int);
                    if k < m.additional.len() {
                        assert(wf_record(m.additional[k]));
                    }
                    lemma_wf_variants(m, 0, now);
                    lemma_wf_variants(next_server_of(m).0, 0, now);
                    lemma_wf_writable(m);
                }
                let sock = self.waiting_queue[i].next_server();
                match sock {
                    Some(addr) => {
                        Self::send_message(&msg, addr, acts);
                        self.waiting_queue[i].timestamp = now;
                        assert(self@.waiting_queue =~= wq0.update(i as int, stamped(next_server_of(wq0[i as int]).0, now)));
                        assert(actions_view(acts@) =~= a0 + seq![send(wq0[i as int], addr)]);
                        assert(a0 + retry_waiting(wq0, i as nat, now).1 =~= actions_view(acts@) + retry_waiting(self@.waiting_queue, (i + 1) as nat, now).1);
                        i = i + 1;
                    },
                    None => {
                        self.waiting_queue.remove(i);
                        assert(self@.waiting_queue =~= wq0.remove(i as int));
                    },
                }
            } else {
                i = i + 1;
            }
        }
    }

    /// Handles the message held by the first `length` bytes of `buffer`, from `src`, at time
    /// `now`, with `id` as the id of any query the resolver makes (see `process_event`); `None`
    /// where the resolver cannot complete.
    #[verifier::rlimit(60)]
    pub fn process_at(&mut self, buffer: &[u8], length: usize, src: SocketAddress, now: i64, id: u16) -> (r: Option<Vec<Action>>)
        requires
            old(self).wf(),
            length <= buffer@.len(),
        ensures
            match process_event(old(self)@, buffer@.take(length as int), src, now, id) {
                Some((s, a)) => r matches Some(v) && final(self).wf() && final(self)@ == s && actions_view(v@) == a,
                None => r is None,
            },
    {
        let ghost data = buffer@.take(length as int);
        let mut acts: Vec<Action> = Vec::new();
        assert(actions_view(acts@) =~= Seq::<ActionView>::empty());
        self.update_waiting_queue(now, &mut acts);
        let ghost s1 = self@;
        let ghost acts0 = actions_view(acts@);
        let mut message = Message::new();
        if !message.can_read(buffer, length) {
            return None;
        }
        proof {
            lemma_read_message_wf(data);
        }
        match message.read_in(buffer, length) {
            Ok(()) => {},
            Err(a) => {
                acts.push(Action::Report(a));
                assert(actions_view(acts@) =~= acts0.push(ActionView::Report(message_at(empty_message(), data).unwrap().1.unwrap())));
                return Some(acts);
            },
        }
        let ghost m = message@;
        if !self.show(&message, &mut acts) {
            return None;
        }
        let ghost acts1 = shown(self.option, m).unwrap();
        assert(actions_view(acts@) =~= acts0 + acts1);
        self.remove_waiting(message.header.id);
        proof {
            lemma_check_cache_wf(self@.cache, m, now);
        }
        match self.check_cache(&message, now) {
            None => None,
            Some(Some(res)) => {
                Self::answer_from_cache(message, res, src, &mut acts);
                assert(actions_view(acts@) =~= acts0 + acts1 + seq![cached_answer(m, check_cache(old(self)@.cache, m, now).unwrap().1.unwrap(), src)]);
                Some(acts)
            },
            Some(None) => {
                if self.message_direction(message, src, now, id, &mut acts) {
                    Some(acts)
                } else {
                    None
                }
            },
        }
    }

    /// Shows `message` as the option asks (see `shown`); `false` where the host name is to be
    /// shown and the message has no question.
    fn show(&self, message: &Message, acts: &mut Vec<Action>) -> (ok: bool)
        ensures
            ok == shown(self.option, message@) is Some,
            shown(self.option, message@) matches Some(a) ==> actions_view(final(acts)@) == actions_view(old(acts)@) + a,
    {
        match self.option {
            1 => {
                acts.push(Action::ShowMessage(message.deep_copy()));
            },
            2 => {
                if message.questions.len() == 0 {
                    return false;
                }
                acts.push(Action::ShowHostname(message.questions[0].qname.deep_copy()));
            },
            _ => {},
        }
        assert(actions_view(acts@) =~= actions_view(old(acts)@) + shown(self.option, message@).unwrap());
        true
    }

    /// Removes the first waiting query with transaction id `id`.
    fn remove_waiting(&mut self, id: u16)
        requires
            old(self).wf(),
        ensures
            final(self).wf(),
            final(self)@ == (ServerView { waiting_queue: without_first(old(self)@.waiting_queue, id), ..old(self)@ }),
    {
        let mut i: usize = 0;
        while i < self.waiting_queue.len() && self.waiting_queue[i].header.id != id
            invariant
                i <= self@.waiting_queue.len(),
                forall|j: int| 0 <= j < i ==> #[trigger] self@.waiting_queue[j].header.id != id,
            decreases self@.waiting_queue.len() - i,
        {
            i = i + 1;
        }
        let ghost wq = self@.waiting_queue;
        proof {
            lemma_first_with_id(wq, id, 0);
            let f = first_with_id(wq, id, 0);
            if i < wq.len() {
                assert(wq[i as int].header.id == id);
                assert(f == i) by {
                    if f < i {
                        assert(wq[f].header.id != id);
                    }
                    if f > i {
                        assert(wq[i as int].header.id != id);
                    }
                }
            } else {
                assert(f >= wq.len()) by {
                    if f < wq.len() {
                        assert(wq[f].header.id != id);
                    }
                }
            }
        }
        if i < self.waiting_queue.len() {
            self.waiting_queue.remove(i);
        }
        assert(self@.waiting_queue =~= without_first(wq, id));
    }

    /// Answers `message` from the cached records `res` (see `cached_answer`).
    fn answer_from_cache(message: Message, res: Vec<Resource>, src: SocketAddress, acts: &mut Vec<Action>)
        requires
            wf_message(message@),
            wf_records(resources_view(res@)),
            message@.header.qdcount > 0,
        ensures
            actions_view(final(acts)@) == actions_view(old(acts)@).push(cached_answer(message@, resources_view(res@), src)),
    {
        let ghost m = message@;
        let ghost rv = resources_view(res@);
        let mut reply = message;
        let mut records = res;
        assert(wf_question(m.questions[0]));
        let mut q = reply.questions[0].qname.deep_copy();
        match q.tld() {
            Some(tld) => {
                let mut k: usize = 0;
                while k < records.len()
                    invariant
                        k <= records@.len(),
                        rv == resources_view(records@),
                        wf_records(rv),
                        reply@ == m,
                        m == message@,
                        rv == resources_view(res@),
                        wf_message(m),
                        m.header.qdcount > 0,
                        m.questions[0].qname.labels.len() > 1,
                        tld@ == tld_of(m.questions[0].qname),
                        actions_view(acts@) == actions_view(old(acts)@),
                        forall|j: int| 0 <= j < k ==> !(#[trigger] rv[j].rname.labels == tld@.labels && rv[j].rtype == 1),
                    decreases records@.len() - k,
                {
                    let mut r = records[k].deep_copy();
                    assert(r@ == rv[k as int]);
                    assert(wf_record(rv[k as int]));
                    if r.rname.equals(tld.deep_copy()) {
                        match r.ip_addr() {
                            Some(ip) => {
                                proof {
                                    lemma_first_address_for(rv, tld@, 0);
                                    let f = first_address_for(rv, tld@, 0);
                                    assert(f == k) by {
                                        if f < k {
                                            assert(rv[f].rname.labels == tld@.labels && rv[f].rtype == 1);
                                        }
                                    }
                                    lemma_wf_writable(m);
                                    assert(cached_answer(m, rv, src) == send(m, ip));
                                }
                                Self::send_message(&reply, ip, acts);
                                return;
                            },
                            None => {},
                        }
                    }
                    k = k + 1;
                }
                proof {
                    lemma_first_address_for(rv, tld@, 0);
                    let f = first_address_for(rv, tld@, 0);
                    if f < rv.len() {
                        assert(rv[f].rname.labels == tld@.labels && rv[f].rtype == 1);
                    }
                }
            },
            None => {},
        }
        reply.header.qr = 0x8000;
        reply.header.ancount = #[verifier::truncate] (records.len() as u16);
        reply.answers.append(&mut records);
        assert(reply@.answers =~= m.answers + rv);
        proof {
            lemma_wf_with_answers(m, rv, 0x8000);
            lemma_wf_writable(reply@);
        }
        Self::send_message(&reply, src, acts);
    }

    /// Handles the message held by the first `length` bytes of `buffer`, from `src`, at the
    /// current time, with a random id for any query the resolver makes (see `process_event`);
    /// `None` where the resolver cannot complete.
    pub fn process(&mut self, buffer: &[u8], length: usize, src: SocketAddress) -> (r: Option<Vec<Action>>)
        requires
            old(self).wf(),
            length <= buffer@.len(),
        ensures
            exists|now: i64, id: u16| match #[trigger] process_event(old(self)@, buffer@.take(length as int), src, now, id) {
                Some((s, a)) => r matches Some(v) && final(self).wf() && final(self)@ == s && actions_view(v@) == a,
                None => r is None,
            },
    {
        let now = crate::sources::precise_time_ns() as i64;
        let id = crate::sources::random_id();
        self.process_at(buffer, length, src, now, id)
    }

    /// A resolver serving on the address of the first four bytes of `addr`, port 53, with
    /// nothing recorded or cached; `opt` says what to show of each message.
    pub fn new(addr: Vec<u8>, opt: i64) -> (s: Server)
        requires
            addr@.len() >= 4,
        ensures
            s.wf(),
            s@ == (ServerView {
                address: SocketAddress { ip: Ipv4Addr(addr@[0], addr@[1], addr@[2], addr@[3]), port: 53 },
                ip_lookup: Map::empty(),
                msg_lookup: Map::empty(),
                waiting_queue: Seq::empty(),
                cache: Map::empty(),
                soa_cache: Map::empty(),
                option: opt,
            }),
    {
        let sock = SocketAddress { ip: Ipv4Addr(addr[0], addr[1], addr[2], addr[3]), port: 53 };
        let s = Server {
            address: sock,
            ip_lookup: HashMap::new(),
            msg_lookup: HashMap::new(),
            waiting_queue: Vec::new(),
            cache: Cache::new(),
            soa_cache: Cache::new(),
            option: opt,
        };
        assert(s@.msg_lookup =~= Map::<u16, MessageView>::empty());
        assert(s@.waiting_queue =~= Seq::<MessageView>::empty());
        s
    }
}

} // verus!
