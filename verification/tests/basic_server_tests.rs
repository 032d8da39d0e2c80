use dns_resolver::basic_server::Server;
use dns_resolver::net::{root_server, Ipv4Addr, SocketAddress};
use dns_resolver::server::Action;

fn name_bytes(labels: &[&str]) -> Vec<u8> {
    let mut v = Vec::new();
    for l in labels {
        v.push(l.len() as u8);
        v.extend_from_slice(l.as_bytes());
    }
    v.push(0);
    v
}

fn header_bytes(id: u16, flags: u16, qd: u16, an: u16, ns: u16, ar: u16) -> Vec<u8> {
    let mut v = Vec::new();
    for x in [id, flags, qd, an, ns, ar] {
        v.extend_from_slice(&x.to_be_bytes());
    }
    v
}

fn client() -> SocketAddress {
    SocketAddress { ip: Ipv4Addr(10, 1, 1, 1), port: 4000 }
}

fn question(labels: &[&str], qtype: u16) -> Vec<u8> {
    let mut b = name_bytes(labels);
    b.extend_from_slice(&qtype.to_be_bytes());
    b.extend_from_slice(&[0, 1]);
    b
}

fn query(id: u16, labels: &[&str], qtype: u16) -> Vec<u8> {
    let mut b = header_bytes(id, 0, 1, 0, 0, 0);
    b.extend(question(labels, qtype));
    b
}

fn sends(acts: &[Action]) -> Vec<(Vec<u8>, SocketAddress)> {
    let mut v = Vec::new();
    for a in acts {
        if let Action::Send(b, to) = a {
            v.push((b.clone(), *to));
        }
    }
    v
}

#[test]
fn basic_server_starts_empty() {
    let s = Server::new();
    assert_eq!(s.address, SocketAddress { ip: Ipv4Addr(172, 30, 159, 85), port: 53 });
    assert!(s.ip_lookup.is_empty() && s.msg_lookup.is_empty() && s.waiting_resp.is_empty());
}

#[test]
fn basic_query_is_forwarded_to_root() {
    let mut s = Server::new();
    let q = query(0x0101, &["a", "com"], 1);
    let acts = s.handle_at(&q, q.len(), client(), 5, 9).unwrap();
    assert_eq!(sends(&acts), vec![(q.clone(), root_server())]);
    assert_eq!(s.ip_lookup.get(&0x0101), Some(&client()));
    assert_eq!(s.waiting_resp.len(), 1);
    assert_eq!(s.waiting_resp[0].timestamp, 5);
}

#[test]
fn basic_other_question_types_are_ignored() {
    let mut s = Server::new();
    let q = query(0x0101, &["a", "com"], 15);
    let acts = s.handle_at(&q, q.len(), client(), 5, 9).unwrap();
    assert!(acts.is_empty());
    assert!(s.ip_lookup.is_empty());
}

#[test]
fn basic_answer_goes_back_to_client() {
    let mut s = Server::new();
    let q = query(0x0101, &["a", "com"], 1);
    s.handle_at(&q, q.len(), client(), 5, 9).unwrap();
    let mut r = header_bytes(0x0101, 0x8000, 1, 1, 0, 0);
    r.extend(question(&["a", "com"], 1));
    r.extend_from_slice(&[0xC0, 12, 0, 1, 0, 1, 0, 0, 0, 60, 0, 4, 1, 2, 3, 4]);
    let acts = s.handle_at(&r, r.len(), root_server(), 6, 9).unwrap();
    let out = sends(&acts);
    assert_eq!(out.len(), 1);
    assert_eq!(out[0].1, client());
    assert!(out[0].0.ends_with(&[0, 4, 1, 2, 3, 4, 0]));
    assert!(s.ip_lookup.is_empty());
    assert!(s.waiting_resp.is_empty());
}

#[test]
fn basic_canonical_name_is_followed() {
    let mut s = Server::new();
    let q = query(0x0101, &["www", "a", "com"], 1);
    s.handle_at(&q, q.len(), client(), 0, 0x0202).unwrap();
    // the root answers with a canonical name
    let mut r = header_bytes(0x0101, 0x8000, 1, 1, 0, 0);
    r.extend(question(&["www", "a", "com"], 1));
    r.extend_from_slice(&[0xC0, 12, 0, 5, 0, 1, 0, 0, 0, 60, 0, 7]);
    r.extend(name_bytes(&["a", "com"]));
    let acts = s.handle_at(&r, r.len(), root_server(), 1, 0x0202).unwrap();
    let out = sends(&acts);
    assert_eq!(out.len(), 1);
    assert_eq!(out[0].1, root_server());
    assert_eq!(out[0].0, query(0x0202, &["a", "com"], 1));
    assert!(s.msg_lookup.contains_key(&0x0202));
    // the answer for the canonical name completes the client's response
    let mut a = header_bytes(0x0202, 0x8000, 1, 1, 0, 0);
    a.extend(question(&["a", "com"], 1));
    a.extend_from_slice(&[0xC0, 12, 0, 1, 0, 1, 0, 0, 0, 60, 0, 4, 9, 9, 9, 9]);
    let acts = s.handle_at(&a, a.len(), root_server(), 2, 0x0303).unwrap();
    let out = sends(&acts);
    assert_eq!(out.len(), 1);
    assert_eq!(out[0].1, client());
    let reply = &out[0].0;
    assert_eq!(&reply[0..2], &[0x01u8, 0x01]);
    assert_eq!(&reply[6..8], &[0u8, 2]);
    let mut tail = name_bytes(&["www", "a", "com"]);
    tail.extend_from_slice(&[0, 1, 0, 1, 0, 0, 0, 60, 0, 4, 9, 9, 9, 9, 0]);
    assert!(reply.ends_with(&tail));
    assert!(s.ip_lookup.is_empty());
}

#[test]
fn basic_referral_goes_to_next_server() {
    let mut s = Server::new();
    let q = query(0x0101, &["a", "com"], 1);
    s.handle_at(&q, q.len(), client(), 0, 9).unwrap();
    let mut r = header_bytes(0x0101, 0x8000, 1, 0, 0, 1);
    r.extend(question(&["a", "com"], 1));
    r.extend(name_bytes(&["ns"]));
    r.extend_from_slice(&[0, 1, 0, 1, 0, 0, 0, 60, 0, 4, 5, 6, 7, 8]);
    let acts = s.handle_at(&r, r.len(), root_server(), 1, 9).unwrap();
    let out = sends(&acts);
    assert_eq!(out.len(), 1);
    assert_eq!(out[0].1, SocketAddress { ip: Ipv4Addr(5, 6, 7, 8), port: 53 });
    assert_eq!(&out[0].0[2..4], &[0u8, 0]);
    assert_eq!(s.waiting_resp.len(), 1);
}

#[test]
fn basic_referral_without_address_reports_no() {
    let mut s = Server::new();
    let mut r = header_bytes(0x0101, 0x8000, 1, 0, 0, 1);
    r.extend(question(&["a", "com"], 1));
    r.extend(name_bytes(&["ns"]));
    r.extend_from_slice(&[0, 2, 0, 1, 0, 0, 0, 60, 0, 3]);
    r.extend(name_bytes(&["x"]));
    let acts = s.handle_at(&r, r.len(), root_server(), 1, 9).unwrap();
    assert_eq!(acts.len(), 1);
    match &acts[0] {
        Action::Report(t) => assert_eq!(t, "NO"),
        _ => panic!("expected a report"),
    }
}

#[test]
fn basic_name_server_is_asked_for() {
    let mut s = Server::new();
    let mut r = header_bytes(0x0101, 0x8000, 1, 0, 1, 0);
    r.extend(question(&["a", "com"], 1));
    r.extend(name_bytes(&["com"]));
    r.extend_from_slice(&[0, 2, 0, 1, 0, 0, 0, 60, 0, 6]);
    r.extend(name_bytes(&["ns", "com"]));
    let acts = s.handle_at(&r, r.len(), root_server(), 1, 0x0404).unwrap();
    let out = sends(&acts);
    assert_eq!(out, vec![(query(0x0404, &["ns", "com"], 1), root_server())]);
    assert!(s.msg_lookup.contains_key(&0x0404));
}

#[test]
fn basic_stale_query_is_dropped_without_next_server() {
    let mut s = Server::new();
    let q = query(0x0101, &["a", "com"], 1);
    s.handle_at(&q, q.len(), client(), 0, 9).unwrap();
    assert!(s.retry_at(4_000_000_000).is_empty());
    assert_eq!(s.waiting_resp.len(), 1);
    assert!(s.retry_at(6_000_000_000).is_empty());
    assert!(s.waiting_resp.is_empty());
}

#[test]
fn basic_clock_driven_calls() {
    let mut s = Server::new();
    let q = query(0x0707, &["a", "com"], 28);
    let acts = s.handle_message(&q, q.len(), client()).unwrap();
    assert_eq!(sends(&acts).len(), 1);
    let _ = s.retry();
    assert_eq!(s.ip_lookup.get(&0x0707), Some(&client()));
}
