use dns_resolver::message::Message;
use dns_resolver::net::{Ipv4Addr, SocketAddress};
use dns_resolver::resource::Resource;

fn name_bytes(labels: &[&str]) -> Vec<u8> {
    let mut v = Vec::new();
    for l in labels {
        v.push(l.len() as u8);
        v.extend_from_slice(l.as_bytes());
    }
    v.push(0);
    v
}

fn header_bytes(id: u16, flags: u16, qd: u16, an: u16, ns: u16, ar: u16) -> Vec<u8> {
    let mut v = Vec::new();
    for x in [id, flags, qd, an, ns, ar] {
        v.extend_from_slice(&x.to_be_bytes());
    }
    v
}

fn read(bytes: &[u8]) -> (Message, Result<(), String>) {
    let mut m = Message::new();
    assert!(m.can_read(bytes, bytes.len()));
    let r = m.read_in(bytes, bytes.len());
    (m, r)
}

/// A response for a.com: one A answer (1.2.3.4) whose name points at the question.
fn a_response() -> Vec<u8> {
    let mut b = header_bytes(0x1234, 0x8180, 1, 1, 0, 0);
    b.extend(name_bytes(&["a", "com"]));
    b.extend_from_slice(&[0, 1, 0, 1]);
    b.extend_from_slice(&[0xC0, 12, 0, 1, 0, 1, 0, 0, 0x0E, 0x10, 0, 4, 1, 2, 3, 4]);
    b
}

#[test]
fn generated_query_is_read_back() {
    let mut q = Message::new();
    q.generate_query_with_id(name_bytes(&["www", "example", "com"]), 0xBEEF);
    assert_eq!(q.header.id, 0xBEEF);
    assert_eq!(q.questions.len(), 1);
    assert_eq!((q.questions[0].qtype, q.questions[0].qclass), (1, 1));
    let bytes = q.write();
    let mut expected = header_bytes(0xBEEF, 0, 1, 0, 0, 0);
    expected.extend(name_bytes(&["www", "example", "com"]));
    expected.extend_from_slice(&[0, 1, 0, 1]);
    assert_eq!(bytes, expected);
    let (m, r) = read(&bytes);
    assert!(r.is_ok());
    assert_eq!(m.header.id, 0xBEEF);
    assert_eq!(m.header.qdcount, 1);
    assert_eq!(m.questions.len(), 1);
    assert_eq!(m.questions[0].qname.label, q.questions[0].qname.label);
    assert_eq!(m.questions[0].qname.length, vec![3u8, 7, 3]);
    assert_eq!(m.msg_copy, bytes);
}

#[test]
fn response_with_compressed_answer_is_read() {
    let bytes = a_response();
    let (mut m, r) = read(&bytes);
    assert!(r.is_ok());
    assert_eq!(m.header.qr, 0x8000);
    assert_eq!(m.header.ra, 0x0080);
    assert_eq!(m.answers.len(), 1);
    assert_eq!(m.answers[0].rname.label, vec![b"a".to_vec(), b"com".to_vec()]);
    assert_eq!(m.answers[0].ttl, 3600);
    assert_eq!(m.answers[0].rdlength, 4);
    assert_eq!(
        m.answers[0].ip_addr(),
        Some(SocketAddress { ip: Ipv4Addr(1, 2, 3, 4), port: 53 })
    );
    assert!(m.contains_type(1));
    assert!(!m.contains_type(5));
}

#[test]
fn unsupported_record_type_stops_reading() {
    let mut b = header_bytes(9, 0x8000, 0, 1, 0, 0);
    b.extend(name_bytes(&["a"]));
    b.extend_from_slice(&[0, 15, 0, 1, 0, 0, 0, 1, 0, 2, 0, 10]);
    let (m, r) = read(&b);
    assert_eq!(r, Err(String::from("Error: Resource Type (15) not supported")));
    assert_eq!(m.answers.len(), 1);
    assert_eq!(m.answers[0].rtype, 15);
}

#[test]
fn other_unknown_type_gets_question_mark_message() {
    let mut b = header_bytes(9, 0x8000, 0, 1, 0, 0);
    b.extend(name_bytes(&["a"]));
    b.extend_from_slice(&[0, 99, 0, 1, 0, 0, 0, 1, 0, 0]);
    let (_, r) = read(&b);
    assert_eq!(r, Err(String::from("Error: Resource Type (?) not supported")));
}

#[test]
fn truncated_message_cannot_be_read() {
    let bytes = a_response();
    let m = Message::new();
    assert!(!m.can_read(&bytes, bytes.len() - 1));
    assert!(!m.can_read(&bytes, 11));
    assert!(!m.can_read(&bytes, bytes.len() + 1));
    assert!(m.can_read(&bytes, bytes.len()));
}

#[test]
fn drop_records_removes_answers() {
    let (mut m, _) = read(&a_response());
    m.drop_records();
    assert_eq!(m.header.ancount, 0);
    assert!(m.answers.is_empty());
    assert!(!m.contains_type(1));
}

#[test]
fn next_server_walks_additional_a_records() {
    let mut m = Message::new();
    let mut ns = Resource::new();
    ns.rtype = 2;
    let mut a1 = Resource::new();
    a1.rtype = 1;
    a1.rdata.label = vec![vec![10], vec![0], vec![0], vec![1]];
    a1.rdata.length = vec![1, 1, 1, 1];
    let mut a2 = a1.deep_copy();
    a2.rdata.label[3] = vec![2];
    m.additional = vec![ns, a1, a2];
    assert_eq!(m.next_server(), Some(SocketAddress { ip: Ipv4Addr(10, 0, 0, 1), port: 53 }));
    assert_eq!(m.server, 2);
    assert_eq!(m.next_server(), Some(SocketAddress { ip: Ipv4Addr(10, 0, 0, 2), port: 53 }));
    assert_eq!(m.next_server(), None);
    assert_eq!(m.server, 3);
}

#[test]
fn make_copy_appends_prefix() {
    let mut m = Message::new();
    m.make_copy(&[1, 2, 3, 4], 2);
    m.make_copy(&[5, 6], 2);
    assert_eq!(m.msg_copy, vec![1u8, 2, 5, 6]);
}

#[test]
fn written_response_holds_answers_uncompressed() {
    let (mut m, _) = read(&a_response());
    let bytes = m.write();
    let mut expected = header_bytes(0x1234, 0x8180, 1, 1, 0, 0);
    expected.extend(name_bytes(&["a", "com"]));
    expected.extend_from_slice(&[0, 1, 0, 1]);
    expected.extend(name_bytes(&["a", "com"]));
    expected.extend_from_slice(&[0, 1, 0, 1, 0, 0, 0x0E, 0x10, 0, 4, 1, 2, 3, 4, 0]);
    assert_eq!(bytes, expected);
}

#[test]
fn ns_answers_read_back_with_recomputed_length() {
    let mut b = header_bytes(5, 0x8000, 0, 1, 0, 0);
    b.extend(name_bytes(&["org"]));
    b.extend_from_slice(&[0, 2, 0, 1, 0, 1, 0, 0, 0, 99]);
    b.extend(name_bytes(&["ns", "org"]));
    let (mut m, r) = read(&b);
    assert!(r.is_ok());
    assert_eq!(m.answers[0].rdlength, 8);
    let out = m.write();
    let (again, r2) = read(&out);
    assert!(r2.is_ok());
    assert_eq!(again.answers[0].rdata.label, vec![b"ns".to_vec(), b"org".to_vec()]);
    assert_eq!(again.answers[0].ttl, 65536);
    assert_eq!(again.answers[0].rdlength, 8);
}

#[test]
fn query_with_random_id_asks_for_the_name() {
    let mut q = Message::new();
    q.generate_query(name_bytes(&["ns", "example"]));
    assert_eq!(q.header.qdcount, 1);
    assert_eq!(q.questions.len(), 1);
    assert_eq!(q.questions[0].qname.label, vec![b"ns".to_vec(), b"example".to_vec()]);
    let id = q.header.id;
    let bytes = q.write();
    assert_eq!(&bytes[0..2], &id.to_be_bytes());
}

#[test]
fn response_with_last_address_answer_reads_back() {
    let (mut m, _) = read(&a_response());
    let bytes = m.write();
    let (again, r) = read(&bytes);
    assert!(r.is_ok());
    assert_eq!(again.header.ancount, 1);
    assert_eq!(again.answers[0].rname.label, vec![b"a".to_vec(), b"com".to_vec()]);
    assert_eq!(again.answers[0].rdata.label, vec![vec![1u8], vec![2], vec![3], vec![4]]);
    assert_eq!(again.answers[0].rdlength, 4);
    assert_eq!(again.answers[0].ttl, 3600);
    assert_eq!(again.msg_copy, bytes);
}

#[test]
fn response_with_last_soa_answer_reads_back() {
    let mut b = header_bytes(0x0A0A, 0x8000, 1, 1, 0, 0);
    b.extend(name_bytes(&["a"]));
    b.extend_from_slice(&[0, 6, 0, 1]);
    b.extend(name_bytes(&["a"]));
    b.extend_from_slice(&[0, 6, 0, 1, 0, 0, 1, 0, 0, 40]);
    b.extend(name_bytes(&["ns", "a"]));
    b.extend(name_bytes(&["root", "a"]));
    for n in [7u32, 3600, 600, 86400, 60] {
        b.extend_from_slice(&n.to_be_bytes());
    }
    let (mut m, r) = read(&b);
    assert!(r.is_ok());
    let first = m.answers[0].rdata.label.clone();
    let bytes = m.write();
    let (again, r2) = read(&bytes);
    assert!(r2.is_ok());
    assert_eq!(again.answers[0].rtype, 6);
    assert_eq!(again.answers[0].rdata.label, first);
    assert_eq!(again.answers[0].rdata.length, vec![2u8, 1, 0, 4, 1, 0]);
    assert_eq!(again.answers[0].rdlength, 40);
    assert_eq!(again.answers[0].ttl, 256);
}
