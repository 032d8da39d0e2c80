use dns_resolver::net::{root_server, Ipv4Addr, SocketAddress};
use dns_resolver::server::{Action, Server};

fn name_bytes(labels: &[&str]) -> Vec<u8> {
    let mut v = Vec::new();
    for l in labels {
        v.push(l.len() as u8);
        v.extend_from_slice(l.as_bytes());
    }
    v.push(0);
    v
}

fn header_bytes(id: u16, flags: u16, qd: u16, an: u16, ns: u16, ar: u16) -> Vec<u8> {
    let mut v = Vec::new();
    for x in [id, flags, qd, an, ns, ar] {
        v.extend_from_slice(&x.to_be_bytes());
    }
    v
}

fn client() -> SocketAddress {
    SocketAddress { ip: Ipv4Addr(10, 0, 0, 2), port: 5000 }
}

fn query(id: u16) -> Vec<u8> {
    let mut b = header_bytes(id, 0x0100, 1, 0, 0, 0);
    b.extend(name_bytes(&["a", "com"]));
    b.extend_from_slice(&[0, 1, 0, 1]);
    b
}

fn answer(id: u16) -> Vec<u8> {
    let mut b = header_bytes(id, 0x8180, 1, 1, 0, 0);
    b.extend(name_bytes(&["a", "com"]));
    b.extend_from_slice(&[0, 1, 0, 1]);
    b.extend_from_slice(&[0xC0, 12, 0, 1, 0, 1, 0, 0, 0x0E, 0x10, 0, 4, 1, 2, 3, 4]);
    b
}

fn sends(acts: &[Action]) -> Vec<(Vec<u8>, SocketAddress)> {
    let mut v = Vec::new();
    for a in acts {
        if let Action::Send(b, to) = a {
            v.push((b.clone(), *to));
        }
    }
    v
}

#[test]
fn new_server_is_empty() {
    let s = Server::new(vec![127, 0, 0, 1], 0);
    assert_eq!(s.address, SocketAddress { ip: Ipv4Addr(127, 0, 0, 1), port: 53 });
    assert!(s.ip_lookup.is_empty());
    assert!(s.msg_lookup.is_empty());
    assert!(s.waiting_queue.is_empty());
    assert_eq!(s.cache.len(), 0);
}

#[test]
fn unanswered_query_goes_to_root_server() {
    let mut s = Server::new(vec![127, 0, 0, 1], 0);
    let q = query(0x1234);
    let acts = s.process_at(&q, q.len(), client(), 0, 7).unwrap();
    let out = sends(&acts);
    assert_eq!(acts.len(), 1);
    assert_eq!(out, vec![(q.clone(), root_server())]);
    assert_eq!(s.ip_lookup.get(&0x1234), Some(&client()));
    assert_eq!(s.waiting_queue.len(), 1);
    assert_eq!(s.waiting_queue[0].timestamp, 0);
}

#[test]
fn answer_goes_back_to_client_and_is_cached() {
    let mut s = Server::new(vec![127, 0, 0, 1], 0);
    let q = query(0x1234);
    s.process_at(&q, q.len(), client(), 0, 7).unwrap();
    let root = root_server();
    let a = answer(0x1234);
    let acts = s.process_at(&a, a.len(), root, 1000, 8).unwrap();
    let out = sends(&acts);
    assert_eq!(out.len(), 1);
    assert_eq!(out[0].1, client());
    assert_eq!(&out[0].0[2..4], &[0x81u8, 0x80]);
    assert!(out[0].0.ends_with(&[1, 2, 3, 4, 0]));
    assert!(s.ip_lookup.is_empty());
    assert!(s.waiting_queue.is_empty());
    assert_eq!(s.cache.len(), 1);
    assert!(s.cache.contains_key(&name_bytes(&["a", "com"])));
}

#[test]
fn cached_name_is_answered_without_asking() {
    let mut s = Server::new(vec![127, 0, 0, 1], 0);
    let q = query(0x1234);
    s.process_at(&q, q.len(), client(), 0, 7).unwrap();
    let a = answer(0x1234);
    s.process_at(&a, a.len(), root_server(), 1000, 8).unwrap();
    let other = SocketAddress { ip: Ipv4Addr(10, 0, 0, 3), port: 6000 };
    let q2 = query(0x4321);
    let acts = s.process_at(&q2, q2.len(), other, 2_000_000_000, 9).unwrap();
    let out = sends(&acts);
    assert_eq!(out.len(), 1);
    assert_eq!(out[0].1, other);
    let reply = &out[0].0;
    assert_eq!(&reply[0..2], &[0x43u8, 0x21]);
    assert_eq!(&reply[2..4], &[0x81u8, 0x00]);
    assert_eq!(&reply[6..8], &[0u8, 1]);
    assert!(reply.ends_with(&[1, 2, 3, 4, 0]));
    assert!(s.ip_lookup.is_empty());
}

#[test]
fn expired_record_is_dropped_from_cache() {
    let mut s = Server::new(vec![127, 0, 0, 1], 0);
    let q = query(0x1234);
    s.process_at(&q, q.len(), client(), 0, 7).unwrap();
    let a = answer(0x1234);
    s.process_at(&a, a.len(), root_server(), 1000, 8).unwrap();
    let q2 = query(0x4321);
    // one hour and one second later the record has expired
    let later: i64 = 3_601_000_000_000;
    let acts = s.process_at(&q2, q2.len(), client(), later, 9).unwrap();
    assert_eq!(s.cache.len(), 0);
    let out = sends(&acts);
    assert_eq!(out.len(), 1);
    assert_eq!(out[0].1, client());
    assert_eq!(&out[0].0[6..8], &[0u8, 0]);
}

#[test]
fn unreadable_record_type_is_reported() {
    let mut s = Server::new(vec![127, 0, 0, 1], 0);
    let mut b = header_bytes(9, 0x8000, 0, 1, 0, 0);
    b.extend(name_bytes(&["a"]));
    b.extend_from_slice(&[0, 16, 0, 1, 0, 0, 0, 1, 0, 0]);
    let acts = s.process_at(&b, b.len(), root_server(), 0, 1).unwrap();
    assert_eq!(acts.len(), 1);
    match &acts[0] {
        Action::Report(e) => assert_eq!(e, "Error: Resource Type (16) not supported"),
        _ => panic!("expected a report"),
    }
}

#[test]
fn truncated_message_is_refused() {
    let mut s = Server::new(vec![127, 0, 0, 1], 0);
    let q = query(1);
    assert!(s.process_at(&q, q.len() - 2, client(), 0, 1).is_none());
}

#[test]
fn hostname_option_shows_the_name_asked() {
    let mut s = Server::new(vec![127, 0, 0, 1], 2);
    let q = query(0x1234);
    let acts = s.process_at(&q, q.len(), client(), 0, 7).unwrap();
    assert_eq!(acts.len(), 2);
    match &acts[0] {
        Action::ShowHostname(d) => assert_eq!(d.label, vec![b"a".to_vec(), b"com".to_vec()]),
        _ => panic!("expected the host name"),
    }
}

#[test]
fn details_option_shows_the_message() {
    let mut s = Server::new(vec![127, 0, 0, 1], 1);
    let q = query(0x1234);
    let acts = s.process_at(&q, q.len(), client(), 0, 7).unwrap();
    match &acts[0] {
        Action::ShowMessage(m) => assert_eq!(m.header.id, 0x1234),
        _ => panic!("expected the message"),
    }
}

#[test]
fn waiting_query_is_retried_at_next_server() {
    let mut s = Server::new(vec![127, 0, 0, 1], 0);
    // a referral: no answers, one additional A record for the next server
    let q = query(0x1111);
    s.process_at(&q, q.len(), client(), 0, 7).unwrap();
    let mut r = header_bytes(0x1111, 0x8000, 1, 0, 0, 1);
    r.extend(name_bytes(&["a", "com"]));
    r.extend_from_slice(&[0, 1, 0, 1]);
    r.extend(name_bytes(&["ns"]));
    r.extend_from_slice(&[0, 1, 0, 1, 0, 0, 0, 10, 0, 4, 5, 6, 7, 8]);
    let acts = s.process_at(&r, r.len(), root_server(), 100, 8).unwrap();
    let out = sends(&acts);
    assert_eq!(out.len(), 1);
    assert_eq!(out[0].1, SocketAddress { ip: Ipv4Addr(5, 6, 7, 8), port: 53 });
    assert_eq!(s.waiting_queue.len(), 1);
    // nothing comes back within 0.8 s: the next message makes the resolver retry, and with
    // no other server left the query leaves the queue
    let q2 = query(0x2222);
    let acts2 = s.process_at(&q2, q2.len(), client(), 900_000_000, 9).unwrap();
    assert!(s.waiting_queue.iter().all(|m| m.header.id != 0x1111));
    assert_eq!(sends(&acts2).last().unwrap().1, root_server());
}

#[test]
fn process_with_clock_and_random_id() {
    let mut s = Server::new(vec![0, 0, 0, 0], 0);
    let q = query(0x0A0B);
    let acts = s.process(&q, q.len(), client()).unwrap();
    assert_eq!(sends(&acts).len(), 1);
    assert_eq!(s.ip_lookup.get(&0x0A0B), Some(&client()));
}

#[test]
fn cached_record_is_not_replaced_by_a_later_answer() {
    let mut s = Server::new(vec![127, 0, 0, 1], 0);
    let q = query(0x1234);
    s.process_at(&q, q.len(), client(), 0, 7).unwrap();
    let a = answer(0x1234);
    s.process_at(&a, a.len(), root_server(), 1000, 8).unwrap();
    // a response to another question carrying a record for the same name, with another address
    let mut b = header_bytes(0x5555, 0x8000, 1, 1, 0, 0);
    b.extend(name_bytes(&["b", "org"]));
    b.extend_from_slice(&[0, 1, 0, 1]);
    b.extend(name_bytes(&["a", "com"]));
    b.extend_from_slice(&[0, 1, 0, 1, 0, 0, 0x0E, 0x10, 0, 4, 9, 9, 9, 9]);
    s.process_at(&b, b.len(), root_server(), 2000, 9).unwrap();
    let key = name_bytes(&["a", "com"]);
    let kept = s.cache.get(&key);
    assert_eq!(kept.rdata.label, vec![vec![1u8], vec![2], vec![3], vec![4]]);
    assert_eq!(kept.cache_timeout, 1000);
    assert_eq!(s.cache.len(), 1);
}
