use vstd::prelude::*;
use crate::data::{DataView, data_bytes};
use crate::resource::ResourceView;
use crate::message::MessageView;
use crate::header::Header;
use crate::net::{SocketAddress, root_server_spec};
use crate::message::{message_at, empty_message};
use crate::server::{ServerView, take_origin, take_pending, expired, retrieve, retrieve_from, cache_records, update_cache,
    retry_waiting, waited_too_long, next_server_of, stamped, process_event, shown, check_cache, send,
    first_address_for, tld_of, multiple_answers, name_servers, single_answer, query_for, walk_end, with_qr};
use crate::message::{has_answer_type, first_a_record};
use crate::resource::resource_address;

verus! {

/// Taking the client of a query forgets it: a second take for the same id finds none, so
/// the resolver answers each client's query at most once.
pub proof fn law_origin_taken_once(s: ServerView, id: u16)
    ensures
        take_origin(s, id).0.ip_lookup == s.ip_lookup.remove(id),
        take_origin(take_origin(s, id).0, id).1 is None,
{
    if !s.ip_lookup.contains_key(id) {
        assert(s.ip_lookup.remove(id) =~= s.ip_lookup);
    }
}

proof fn lemma_cache_records_keeps(cache: Map<Seq<u8>, ResourceView>, rs: Seq<ResourceView>, i: nat, n: nat, now: i64, k: Seq<u8>)
    requires
        n <= rs.len(),
    ensures
        cache.contains_key(k) ==> cache_records(cache, rs, i, n, now).0.contains_key(k)
            && cache_records(cache, rs, i, n, now).0[k] == cache[k],
        forall|j: int| i <= j < n ==> #[trigger] cache_records(cache, rs, i, n, now).0.contains_key(data_bytes(rs[j].rname)),
        cache_records(cache, rs, i, n, now).1.len() == rs.len(),
        forall|j: int| 0 <= j < rs.len() ==> (#[trigger] cache_records(cache, rs, i, n, now).1[j]).rname == rs[j].rname
            && cache_records(cache, rs, i, n, now).1[j].rtype == rs[j].rtype
            && cache_records(cache, rs, i, n, now).1[j].rdata == rs[j].rdata,
    decreases n - i,
{
    if i < n {
        let key = data_bytes(rs[i as int].rname);
        if cache.contains_key(key) {
            lemma_cache_records_keeps(cache, rs, i + 1, n, now, k);
            lemma_cache_records_keeps(cache, rs, i + 1, n, now, key);
        } else {
            let r = ResourceView { cache_timeout: now, ..rs[i as int] };
            let c2 = cache.insert(key, r);
            let rs2 = rs.update(i as int, r);
            lemma_cache_records_keeps(c2, rs2, i + 1, n, now, k);
            lemma_cache_records_keeps(c2, rs2, i + 1, n, now, key);
            assert forall|j: int| i <= j < n implies #[trigger] cache_records(cache, rs, i, n, now).0.contains_key(data_bytes(rs[j].rname)) by {
                if j > i {
                    assert(rs2[j].rname == rs[j].rname);
                }
            }
        }
    }
}

/// Caching the records of a message never replaces a record already cached, and
/// afterwards a record is cached under the name of each counted answer and additional record.
pub proof fn law_cache_keeps_first(cache: Map<Seq<u8>, ResourceView>, m: MessageView, now: i64, k: Seq<u8>)
    requires
        m.header.ancount <= m.answers.len(),
        m.header.arcount <= m.additional.len(),
    ensures
        cache.contains_key(k) ==> update_cache(cache, m, now).0.contains_key(k) && update_cache(cache, m, now).0[k] == cache[k],
        forall|j: int| 0 <= j < m.header.ancount ==> #[trigger] update_cache(cache, m, now).0.contains_key(data_bytes(m.answers[j].rname)),
        forall|j: int| 0 <= j < m.header.arcount ==> #[trigger] update_cache(cache, m, now).0.contains_key(data_bytes(m.additional[j].rname)),
{
    let an = m.header.ancount as nat;
    let ar = m.header.arcount as nat;
    lemma_cache_records_keeps(cache, m.answers, 0, an, now, k);
    let c1 = cache_records(cache, m.answers, 0, an, now).0;
    lemma_cache_records_keeps(c1, m.additional, 0, ar, now, k);
    assert forall|j: int| 0 <= j < m.header.ancount implies #[trigger] update_cache(cache, m, now).0.contains_key(data_bytes(m.answers[j].rname)) by {
        lemma_cache_records_keeps(c1, m.additional, 0, ar, now, data_bytes(m.answers[j].rname));
    }
}

proof fn lemma_retrieve_live(cache: Map<Seq<u8>, ResourceView>, name: DataView, acc: Seq<ResourceView>, now: i64, fuel: nat)
    requires
        forall|j: int| 0 <= j < acc.len() ==> !expired(#[trigger] acc[j], now),
    ensures
        retrieve(cache, name, acc, now, fuel) matches Some((c, Some(rs))) ==>
            (forall|j: int| 0 <= j < rs.len() ==> !expired(#[trigger] rs[j], now)),
        retrieve(cache, name, acc, now, fuel) matches Some((c, _)) ==>
            forall|k: Seq<u8>| #[trigger] c.contains_key(k) ==> cache.contains_key(k) && c[k] == cache[k],
    decreases fuel,
{
    if fuel > 0 {
        let k = data_bytes(name);
        if cache.contains_key(k) && !expired(cache[k], now) {
            let acc2 = acc.push(cache[k]);
            assert forall|j: int| 0 <= j < acc2.len() implies !expired(#[trigger] acc2[j], now) by {
                if j < acc.len() {
                    assert(acc2[j] == acc[j]);
                }
            }
            lemma_retrieve_live(cache, cache[k].rdata, acc2, now, (fuel - 1) as nat);
        }
    }
}

/// A record is served from the cache only while its time to live lasts: every record a
/// walk of the cache collects has not expired at the time of the walk, and the walk only
/// removes records, changing none.
pub proof fn law_cache_serves_live(cache: Map<Seq<u8>, ResourceView>, name: DataView, now: i64)
    ensures
        retrieve_from(cache, name, now) matches Some((c, Some(rs))) ==>
            (forall|j: int| 0 <= j < rs.len() ==> !expired(#[trigger] rs[j], now)),
        retrieve_from(cache, name, now) matches Some((c, _)) ==>
            forall|k: Seq<u8>| #[trigger] c.contains_key(k) ==> cache.contains_key(k) && c[k] == cache[k],
{
    lemma_retrieve_live(cache, name, Seq::empty(), now, cache.dom().len() + 1);
}

/// An expired record found first under a name is removed from the cache, and nothing
/// is served for the name.
pub proof fn law_cache_drops_expired(cache: Map<Seq<u8>, ResourceView>, name: DataView, now: i64)
    requires
        cache.contains_key(data_bytes(name)),
        expired(cache[data_bytes(name)], now),
    ensures
        retrieve_from(cache, name, now) == Some((cache.remove(data_bytes(name)), Some(Seq::<ResourceView>::empty()))),
{
}

proof fn lemma_retry_bounded(wq: Seq<MessageView>, i: nat, now: i64)
    requires
        i <= wq.len(),
    ensures
        retry_waiting(wq, i, now).0.len() <= wq.len(),
        i + retry_waiting(wq, i, now).1.len() <= retry_waiting(wq, i, now).0.len(),
    decreases wq.len() - i, wq.len(),
{
    if i < wq.len() {
        if waited_too_long(now, wq[i as int].timestamp) {
            let (m2, r) = next_server_of(wq[i as int]);
            match r {
                Some(a) => {
                    lemma_retry_bounded(wq.update(i as int, stamped(m2, now)), i + 1, now);
                },
                None => {
                    lemma_retry_bounded(wq.remove(i as int), i, now);
                },
            }
        } else {
            lemma_retry_bounded(wq, i + 1, now);
        }
    }
}

/// Retrying the waiting queries never lengthens the queue, and sends at most one message
/// for each query that stays in it.
pub proof fn law_retry_bounded(wq: Seq<MessageView>, now: i64)
    ensures
        retry_waiting(wq, 0, now).0.len() <= wq.len(),
        retry_waiting(wq, 0, now).1.len() <= retry_waiting(wq, 0, now).0.len(),
{
    lemma_retry_bounded(wq, 0, now);
}

/// A client's query that the cache cannot answer is passed on to the root server: the
/// client is recorded under the query's id, the query waits for an answer, and the last
/// thing done is sending it to the root server.
pub proof fn law_query_forwarded(s: ServerView, data: Seq<u8>, src: SocketAddress, now: i64, id: u16,
    m: MessageView, c: Map<Seq<u8>, ResourceView>)
    requires
        message_at(empty_message(), data) == Some((m, None::<Seq<char>>)),
        m.header.qr == 0,
        shown(s.option, m) is Some,
        check_cache(s.cache, m, now) == Some((c, None::<Seq<ResourceView>>)),
    ensures
        process_event(s, data, src, now, id) matches Some((s2, acts))
            && s2.ip_lookup == s.ip_lookup.insert(m.header.id, src)
            && s2.cache == c
            && s2.waiting_queue.last() == stamped(m, now)
            && acts.last() == send(m, root_server_spec()),
{
}

/// A message that the cache answers, where the records found give no address for the
/// last label of the name asked, goes back to its sender as a response carrying those
/// records as answers; no client is recorded or forgotten.
pub proof fn law_cached_answer(s: ServerView, data: Seq<u8>, src: SocketAddress, now: i64, id: u16,
    m: MessageView, c: Map<Seq<u8>, ResourceView>, res: Seq<ResourceView>)
    requires
        message_at(empty_message(), data) == Some((m, None::<Seq<char>>)),
        shown(s.option, m) is Some,
        check_cache(s.cache, m, now) == Some((c, Some(res))),
        m.questions[0].qname.labels.len() <= 1 || first_address_for(res, tld_of(m.questions[0].qname), 0) >= res.len(),
    ensures
        process_event(s, data, src, now, id) matches Some((s2, acts))
            && s2.ip_lookup == s.ip_lookup
            && s2.cache == c
            && acts.last() == send(MessageView {
                header: Header { qr: 0x8000, ancount: res.len() as u16, ..m.header },
                answers: m.answers + res,
                ..m
            }, src),
{
}

/// A message that cannot be read to its end for a record type that reading does not
/// support is reported and nothing else is done with it: the lookups and the cache stay
/// as they were, and the report is the last thing done.
pub proof fn law_error_reported(s: ServerView, data: Seq<u8>, src: SocketAddress, now: i64, id: u16,
    m: MessageView, e: Seq<char>)
    requires
        message_at(empty_message(), data) == Some((m, Some(e))),
    ensures
        process_event(s, data, src, now, id) matches Some((s2, acts))
            && s2.ip_lookup == s.ip_lookup
            && s2.msg_lookup == s.msg_lookup
            && s2.cache == s.cache
            && acts.last() == crate::server::ActionView::Report(e),
{
}

/// For the resolver without a cache: a client's A, NS or AAAA query is passed on to the
/// root server, the client is recorded under the query's id, and the query waits for an
/// answer; this is all that is done.
pub proof fn law_basic_query_forwarded(s: crate::basic_server::BasicView, data: Seq<u8>, src: SocketAddress,
    now: i64, id: u16, m: MessageView)
    requires
        message_at(empty_message(), data) == Some((m, None::<Seq<char>>)),
        m.header.qr == 0,
        m.questions.len() > 0,
        m.questions[0].qtype == 1 || m.questions[0].qtype == 2 || m.questions[0].qtype == 28,
    ensures
        crate::basic_server::handle_event(s, data, src, now, id) matches Some((s2, acts))
            && s2.ip_lookup == s.ip_lookup.insert(m.header.id, src)
            && s2.msg_lookup == s.msg_lookup
            && s2.waiting_resp.last() == stamped(m, now)
            && acts == seq![send(m, root_server_spec())],
{
}

/// For the resolver without a cache: a response that answers a client's query with an
/// address, where no message waits on it, goes back to that client, who is forgotten.
pub proof fn law_basic_answer_returned(s: crate::basic_server::BasicView, data: Seq<u8>, src: SocketAddress,
    now: i64, id: u16, m: MessageView)
    requires
        message_at(empty_message(), data) == Some((m, None::<Seq<char>>)),
        m.header.qr == 0x8000,
        m.questions.len() > 0,
        m.questions[0].qtype == 1 || m.questions[0].qtype == 2 || m.questions[0].qtype == 28,
        crate::basic_server::first_of_type(m.answers, 1, 0, m.header.ancount as int) < m.header.ancount,
        !s.msg_lookup.contains_key(m.header.id),
        s.ip_lookup.contains_key(m.header.id),
    ensures
        crate::basic_server::handle_event(s, data, src, now, id) matches Some((s2, acts))
            && s2.ip_lookup == s.ip_lookup.remove(m.header.id)
            && acts == seq![send(m, s.ip_lookup[m.header.id])],
{
}

/// After `Message::drop_records` no counted answer of any type is left.
pub proof fn law_dropped_has_no_answers(m: MessageView, t: u16)
    ensures
        !crate::message::has_answer_type(crate::server::dropped(m), t),
{
}

proof fn lemma_basic_retry_bounded(wq: Seq<MessageView>, i: nat, now: i64)
    requires
        i <= wq.len(),
    ensures
        crate::basic_server::retry_stale(wq, i, now).0.len() <= wq.len(),
        i + crate::basic_server::retry_stale(wq, i, now).1.len() <= crate::basic_server::retry_stale(wq, i, now).0.len(),
    decreases wq.len() - i, wq.len(),
{
    if i < wq.len() {
        if crate::basic_server::waited_five_seconds(now, wq[i as int].timestamp) {
            let (m2, r) = next_server_of(wq[i as int]);
            match r {
                Some(a) => {
                    lemma_basic_retry_bounded(wq.update(i as int, stamped(m2, now)), i + 1, now);
                },
                None => {
                    lemma_basic_retry_bounded(wq.remove(i as int), i, now);
                },
            }
        } else {
            lemma_basic_retry_bounded(wq, i + 1, now);
        }
    }
}

/// For the resolver without a cache: retrying the queries that waited more than 5 s never
/// lengthens the queue, and sends at most one message for each query that stays in it.
pub proof fn law_basic_retry_bounded(wq: Seq<MessageView>, now: i64)
    ensures
        crate::basic_server::retry_stale(wq, 0, now).0.len() <= wq.len(),
        crate::basic_server::retry_stale(wq, 0, now).1.len() <= crate::basic_server::retry_stale(wq, 0, now).0.len(),
{
    lemma_basic_retry_bounded(wq, 0, now);
}

/// Taking the message that waits on a query of the resolver gives the message recorded
/// under the query's id exactly when the test for a waiting message (whether the id is
/// recorded) holds, forgets it and changes nothing else; a second take for the same id
/// finds none.
pub proof fn law_pending_taken_once(s: ServerView, id: u16)
    ensures
        (take_pending(s, id).1 is Some) == s.msg_lookup.contains_key(id),
        take_pending(s, id).1 == (if s.msg_lookup.contains_key(id) { Some(s.msg_lookup[id]) } else { None }),
        take_pending(s, id).0 == (ServerView { msg_lookup: s.msg_lookup.remove(id), ..s }),
        take_pending(take_pending(s, id).0, id).1 is None,
{
    if !s.msg_lookup.contains_key(id) {
        assert(s.msg_lookup.remove(id) =~= s.msg_lookup);
    }
}

/// Caching the records of a message leaves its header and questions, and the name, type
/// and data of each of its answers, as they were.
proof fn lemma_update_cache_keeps(cache: Map<Seq<u8>, ResourceView>, m: MessageView, now: i64)
    requires
        m.header.ancount <= m.answers.len(),
        m.header.arcount <= m.additional.len(),
    ensures
        update_cache(cache, m, now).1.header == m.header,
        update_cache(cache, m, now).1.questions == m.questions,
        update_cache(cache, m, now).1.authority == m.authority,
        update_cache(cache, m, now).1.answers.len() == m.answers.len(),
        forall|j: int| 0 <= j < m.answers.len() ==> (#[trigger] update_cache(cache, m, now).1.answers[j]).rtype == m.answers[j].rtype
            && update_cache(cache, m, now).1.answers[j].rdata == m.answers[j].rdata
            && update_cache(cache, m, now).1.answers[j].rname == m.answers[j].rname,
{
    lemma_cache_records_keeps(cache, m.answers, 0, m.header.ancount as nat, now, Seq::empty());
    let c1 = cache_records(cache, m.answers, 0, m.header.ancount as nat, now).0;
    lemma_cache_records_keeps(c1, m.additional, 0, m.header.arcount as nat, now, Seq::empty());
}

/// A response with several answers, one of which (among those counted) is an address,
/// goes back, with its answers as cached, to the client recorded under its id, who is then
/// forgotten; whether a canonical name is among the answers makes no difference.
pub proof fn law_multiple_answers_returned(s: ServerView, m: MessageView, now: i64)
    requires
        m.header.ancount <= m.answers.len(),
        m.header.arcount <= m.additional.len(),
        exists|i: int| 0 <= i < m.header.ancount && #[trigger] m.answers[i].rtype == 1,
        s.ip_lookup.contains_key(m.header.id),
    ensures
        multiple_answers(s, m, now).1 == seq![send(update_cache(s.cache, m, now).1, s.ip_lookup[m.header.id])],
        multiple_answers(s, m, now).0.ip_lookup == s.ip_lookup.remove(m.header.id),
        multiple_answers(s, m, now).0.cache == update_cache(s.cache, m, now).0,
{
    lemma_update_cache_keeps(s.cache, m, now);
    let m1 = update_cache(s.cache, m, now).1;
    let i = choose|i: int| 0 <= i < m.header.ancount && #[trigger] m.answers[i].rtype == 1;
    assert(m1.answers[i].rtype == 1);
    assert(has_answer_type(m1, 1));
}

/// A response that refers a question other than an SOA query to name servers asks for
/// the address of the name server named in the data of its first authority record: where
/// the cache knows nothing of that name, a query for it, with id `id`, is sent to the root
/// server and waits, and the response waits on that query.
pub proof fn law_referral_asks_for_name_server(s: ServerView, m: MessageView, now: i64, id: u16,
    c2: Map<Seq<u8>, ResourceView>)
    requires
        m.header.ancount <= m.answers.len(),
        m.header.arcount <= m.additional.len(),
        m.questions.len() > 0,
        m.questions[0].qtype != 6,
        check_cache(update_cache(s.cache, m, now).0, query_for(data_bytes(m.authority[0].rdata), id), now)
            == Some((c2, None::<Seq<ResourceView>>)),
    ensures
        name_servers(s, m, now, id) == Some((
            ServerView {
                cache: c2,
                msg_lookup: s.msg_lookup.insert(id, update_cache(s.cache, m, now).1),
                waiting_queue: s.waiting_queue.push(stamped(query_for(data_bytes(m.authority[0].rdata), id), now)),
                ..s
            },
            seq![send(query_for(data_bytes(m.authority[0].rdata), id), root_server_spec())],
        )),
{
    lemma_update_cache_keeps(s.cache, m, now);
}

/// A response whose single counted answer is a canonical name looks up the name that the
/// canonical name points to: where the cache knows nothing of it, a query for it, with id
/// `id`, is sent to the root server and waits, the response waits on that query, and the
/// client gets nothing yet.
pub proof fn law_canonical_name_followed(s: ServerView, m: MessageView, now: i64, id: u16,
    c2: Map<Seq<u8>, ResourceView>)
    requires
        m.header.ancount == 1,
        1 <= m.answers.len(),
        m.header.arcount <= m.additional.len(),
        m.answers[0].rtype == 5,
        check_cache(update_cache(s.cache, m, now).0, query_for(data_bytes(m.answers[0].rdata), id), now)
            == Some((c2, None::<Seq<ResourceView>>)),
    ensures
        single_answer(s, m, now, id) == Some((
            ServerView {
                cache: c2,
                msg_lookup: s.msg_lookup.insert(id, update_cache(s.cache, m, now).1),
                waiting_queue: s.waiting_queue.push(stamped(query_for(data_bytes(m.answers[0].rdata), id), now)),
                ..s
            },
            seq![send(query_for(data_bytes(m.answers[0].rdata), id), root_server_spec())],
        )),
{
    lemma_update_cache_keeps(s.cache, m, now);
    let m1 = update_cache(s.cache, m, now).1;
    assert(m1.answers[0].rtype == 5);
    assert(has_answer_type(m1, 5));
}

/// A waiting query that has waited too long, and whose additional records name another
/// server by an A record, is sent first of all to that record's address, and waits again
/// from `now` with the records before and at that one passed over.
pub proof fn law_retry_goes_to_next_server(wq: Seq<MessageView>, i: nat, now: i64)
    requires
        i < wq.len(),
        waited_too_long(now, wq[i as int].timestamp),
        first_a_record(wq[i as int].additional, wq[i as int].server as int) < wq[i as int].additional.len(),
    ensures
        ({
            let m = wq[i as int];
            let k = first_a_record(m.additional, m.server as int);
            &&& retry_waiting(wq, i, now).1.len() > 0
            &&& retry_waiting(wq, i, now).1[0] == send(m, resource_address(m.additional[k]))
        }),
{
    let m = wq[i as int];
    let (m2, r) = next_server_of(m);
    let (wq2, acts) = retry_waiting(wq.update(i as int, stamped(m2, now)), i + 1, now);
    assert((seq![send(m, r.unwrap())] + acts)[0] == send(m, r.unwrap()));
}

/// For the resolver without a cache: a waiting query that has waited more than 5 s, and
/// whose additional records name another server by an A record, is sent first of all to
/// that record's address.
pub proof fn law_basic_retry_goes_to_next_server(wq: Seq<MessageView>, i: nat, now: i64)
    requires
        i < wq.len(),
        crate::basic_server::waited_five_seconds(now, wq[i as int].timestamp),
        first_a_record(wq[i as int].additional, wq[i as int].server as int) < wq[i as int].additional.len(),
    ensures
        ({
            let m = wq[i as int];
            let k = first_a_record(m.additional, m.server as int);
            &&& crate::basic_server::retry_stale(wq, i, now).1.len() > 0
            &&& crate::basic_server::retry_stale(wq, i, now).1[0] == send(m, resource_address(m.additional[k]))
        }),
{
    let m = wq[i as int];
    let (m2, r) = next_server_of(m);
    let (wq2, acts) = crate::basic_server::retry_stale(wq.update(i as int, stamped(m2, now)), i + 1, now);
    assert((seq![send(m, r.unwrap())] + acts)[0] == send(m, r.unwrap()));
}

/// The records collected by a walk that ended with `o`, where `acc` were collected before.
pub open spec fn walk_records(o: Option<Seq<ResourceView>>, acc: Seq<ResourceView>) -> Seq<ResourceView> {
    match o {
        Some(v) => v,
        None => acc,
    }
}

/// From index `from` on, each record of `rs` but the last has its data cached, and the
/// next record is the one cached under that data.
pub open spec fn walk_chain(cache: Map<Seq<u8>, ResourceView>, rs: Seq<ResourceView>, from: int) -> bool {
    forall|j: int| from <= j < rs.len() - 1 ==>
        cache.contains_key(data_bytes(#[trigger] rs[j].rdata)) && rs[j + 1] == cache[data_bytes(rs[j].rdata)]
}

/// The records a walk of the cache collects form a chain: the first is the record cached
/// under the name the walk starts from, and each next one is the record cached under the
/// data of the one before. The walk stops only at a name not cached (the cache is left as
/// it was) or whose record has expired (that record is removed); it collects nothing only
/// where the name it starts from is not cached or has expired, and `walk_end` is the name
/// where it stops.
proof fn lemma_retrieve_chain(cache: Map<Seq<u8>, ResourceView>, name: DataView, acc: Seq<ResourceView>, now: i64, fuel: nat)
    ensures
        retrieve(cache, name, acc, now, fuel) matches Some((c, o)) ==> ({
            let rs = walk_records(o, acc);
            let last = if rs.len() > acc.len() { rs.last().rdata } else { name };
            let k = data_bytes(last);
            &&& rs.len() >= acc.len()
            &&& rs.take(acc.len() as int) == acc
            &&& rs.len() > acc.len() ==> rs[acc.len() as int] == cache[data_bytes(name)]
                && cache.contains_key(data_bytes(name))
            &&& walk_chain(cache, rs, acc.len() as int)
            &&& (!cache.contains_key(k) && c == cache) || (cache.contains_key(k) && expired(cache[k], now) && c == cache.remove(k))
            &&& o is None ==> acc.len() == 0 && !cache.contains_key(k)
            &&& walk_end(cache, name, now, fuel) == last
        }),
    decreases fuel,
{
    if fuel > 0 {
        let k = data_bytes(name);
        if cache.contains_key(k) && !expired(cache[k], now) {
            let acc2 = acc.push(cache[k]);
            lemma_retrieve_chain(cache, cache[k].rdata, acc2, now, (fuel - 1) as nat);
            if let Some((c, o)) = retrieve(cache, name, acc, now, fuel) {
                let rs = walk_records(o, acc2);
                assert(o is Some);
                assert(walk_records(o, acc) == rs);
                assert(walk_chain(cache, rs, acc2.len() as int));
                assert(rs.take(acc2.len() as int) == acc2);
                assert(rs[acc.len() as int] == acc2[acc.len() as int]);
                assert(rs.take(acc.len() as int) =~= acc2.take(acc.len() as int));
                assert(acc2.take(acc.len() as int) =~= acc);
                if rs.len() == acc2.len() {
                    assert(rs.last() == rs[acc.len() as int]);
                }
                assert forall|j: int| acc.len() <= j < rs.len() - 1 implies
                    cache.contains_key(data_bytes(#[trigger] rs[j].rdata)) && rs[j + 1] == cache[data_bytes(rs[j].rdata)] by {
                    if j == acc.len() {
                        assert(rs[j] == cache[k]);
                        assert(rs.len() > acc2.len());
                        assert(rs[acc2.len() as int] == cache[data_bytes(cache[k].rdata)]);
                        assert(cache.contains_key(data_bytes(cache[k].rdata)));
                        assert(rs[j + 1] == cache[data_bytes(rs[j].rdata)]);
                    } else {
                        assert(acc2.len() <= j);
                        assert(cache.contains_key(data_bytes(rs[j].rdata)));
                        assert(rs[j + 1] == cache[data_bytes(rs[j].rdata)]);
                    }
                }
            }
        }
    }
}

/// A walk of the cache from `name` (as a cache hit is looked up) collects the chain of
/// live records from the record cached under `name`, each next one cached under the data
/// of the one before, and stops only at a name that is not cached (the cache is left as it
/// was) or whose record has expired (that record is removed). It finds nothing at all
/// only where `name` is not cached; the name where it stops is `walk_end`.
pub proof fn law_cache_walk_follows_chain(cache: Map<Seq<u8>, ResourceView>, name: DataView, now: i64)
    ensures
        retrieve_from(cache, name, now) matches Some((c, o)) ==> ({
            let rs = walk_records(o, Seq::empty());
            let last = if rs.len() > 0 { rs.last().rdata } else { name };
            let k = data_bytes(last);
            &&& rs.len() > 0 ==> rs[0] == cache[data_bytes(name)] && cache.contains_key(data_bytes(name))
            &&& walk_chain(cache, rs, 0)
            &&& (!cache.contains_key(k) && c == cache) || (cache.contains_key(k) && expired(cache[k], now) && c == cache.remove(k))
            &&& o is None ==> !cache.contains_key(data_bytes(name))
            &&& walk_end(cache, name, now, cache.dom().len() + 1) == last
        }),
{
    let fuel = cache.dom().len() + 1;
    lemma_retrieve_chain(cache, name, Seq::empty(), now, fuel);

}

/// Where the record cached under `name` is live and points to a name whose record is
/// live and points to a name not cached, a walk of the cache from `name` gives both
/// records in order and leaves the cache as it was.
pub proof fn law_cache_walk_two_records(cache: Map<Seq<u8>, ResourceView>, name: DataView, now: i64)
    requires
        cache.dom().finite(),
        cache.contains_key(data_bytes(name)),
        !expired(cache[data_bytes(name)], now),
        cache.contains_key(data_bytes(cache[data_bytes(name)].rdata)),
        !expired(cache[data_bytes(cache[data_bytes(name)].rdata)], now),
        !cache.contains_key(data_bytes(cache[data_bytes(cache[data_bytes(name)].rdata)].rdata)),
    ensures
        retrieve_from(cache, name, now) == Some((cache, Some(seq![
            cache[data_bytes(name)],
            cache[data_bytes(cache[data_bytes(name)].rdata)],
        ]))),
{
    let k0 = data_bytes(name);
    let k1 = data_bytes(cache[k0].rdata);
    let k2 = data_bytes(cache[k1].rdata);
    assert(k0 != k1) by {
        if k0 == k1 {
            assert(cache.contains_key(k2));
        }
    }
    assert(cache.dom().contains(k0) && cache.dom().contains(k1));
    vstd::set_lib::lemma_set_subset_finite(cache.dom(), set![k0, k1]);
    assert(set![k0, k1].subset_of(cache.dom()));
    vstd::set_lib::lemma_len_subset(set![k0, k1], cache.dom());
    assert(set![k0, k1].len() == 2);
    let fuel = cache.dom().len() + 1;
    assert(fuel >= 3);
    let a0 = Seq::<ResourceView>::empty();
    let a1 = a0.push(cache[k0]);
    let a2 = a1.push(cache[k1]);
    assert(a2 =~= seq![cache[k0], cache[k1]]);
    assert(retrieve(cache, cache[k1].rdata, a2, now, (fuel - 2) as nat) == Some((cache, Some(a2))));
    assert(retrieve(cache, cache[k0].rdata, a1, now, (fuel - 1) as nat) == retrieve(cache, cache[k1].rdata, a2, now, (fuel - 2) as nat));
    assert(retrieve(cache, name, a0, now, fuel) == retrieve(cache, cache[k0].rdata, a1, now, (fuel - 1) as nat));
}

} // verus!