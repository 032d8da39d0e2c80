use dns_resolver::cache::{bytes_eq, Cache};
use dns_resolver::name::Name;
use dns_resolver::net::{Ipv4Addr, SocketAddress};
use dns_resolver::question::Question;
use dns_resolver::reader::Reader;
use dns_resolver::resource::Resource;

fn name_bytes(labels: &[&str]) -> Vec<u8> {
    let mut v = Vec::new();
    for l in labels {
        v.push(l.len() as u8);
        v.extend_from_slice(l.as_bytes());
    }
    v.push(0);
    v
}

#[test]
fn question_read_and_written() {
    let mut bytes = name_bytes(&["example", "net"]);
    bytes.extend_from_slice(&[0, 28, 0, 1]);
    let mut reader = Reader::new(bytes.clone());
    let mut msg = bytes.clone();
    let mut q = Question::new();
    assert!(q.read_in(&mut reader, &mut msg).is_ok());
    assert_eq!((q.qtype, q.qclass), (28, 1));
    assert_eq!(reader.pos, bytes.len());
    assert_eq!(q.write(), bytes);
}

#[test]
fn question_generated_for_a_name() {
    let mut q = Question::new();
    let mut msg = Vec::new();
    q.generate(name_bytes(&["x", "y"]), &mut msg);
    assert_eq!(q.qname.label, vec![b"x".to_vec(), b"y".to_vec()]);
    assert_eq!((q.qtype, q.qclass), (1, 1));
}

#[test]
fn a_record_written_with_trailing_zero() {
    let mut r = Resource::new();
    r.rname.label = vec![b"h".to_vec()];
    r.rname.length = vec![1];
    r.rtype = 1;
    r.rclass = 1;
    r.ttl = 0x0001_0002;
    r.rdlength = 4;
    r.rdata.label = vec![vec![9], vec![8], vec![7], vec![6]];
    r.rdata.length = vec![1, 1, 1, 1];
    assert_eq!(
        r.write(),
        vec![1u8, b'h', 0, 0, 1, 0, 1, 0, 1, 0, 2, 0, 4, 9, 8, 7, 6, 0]
    );
    assert_eq!(r.ip_addr(), Some(SocketAddress { ip: Ipv4Addr(9, 8, 7, 6), port: 53 }));
}

#[test]
fn cname_record_read_and_written() {
    let mut bytes = name_bytes(&["www"]);
    bytes.extend_from_slice(&[0, 5, 0, 1, 0, 0, 0, 60, 0, 0]);
    bytes.extend(name_bytes(&["web", "host"]));
    let mut reader = Reader::new(bytes.clone());
    let mut msg = bytes.clone();
    let mut r = Resource::new();
    assert!(r.read_in(&mut reader, &mut msg).is_ok());
    assert_eq!(r.rtype, 5);
    assert_eq!(r.ttl, 60);
    assert_eq!(r.rdlength, 10);
    assert_eq!(r.cache_timeout, 0);
    assert_eq!(r.ip_addr(), None);
    let out = r.write();
    let mut expected = name_bytes(&["www"]);
    expected.extend_from_slice(&[0, 5, 0, 1, 0, 0, 0, 60, 0, 10]);
    expected.extend(name_bytes(&["web", "host"]));
    assert_eq!(out, expected);
}

#[test]
fn unsupported_record_types_are_errors() {
    for (t, text) in [
        (12u16, "Error: Resource Type (12) not supported"),
        (15, "Error: Resource Type (15) not supported"),
        (16, "Error: Resource Type (16) not supported"),
        (17, "Error: Resource Type (17) not supported"),
        (18, "Error: Resource Type (18) not supported"),
        (24, "Error: Resource Type (24) not supported"),
        (25, "Error: Resource Type (25) not supported"),
        (3, "Error: Resource Type (?) not supported"),
    ] {
        let mut bytes = vec![0u8];
        bytes.extend_from_slice(&t.to_be_bytes());
        bytes.extend_from_slice(&[0, 1, 0, 0, 0, 0, 0, 0]);
        let mut reader = Reader::new(bytes.clone());
        let mut msg = bytes.clone();
        let mut r = Resource::new();
        assert_eq!(r.read_in(&mut reader, &mut msg), Err(String::from(text)));
        assert_eq!(reader.pos, 11);
    }
}

#[test]
fn aaaa_record_read() {
    let mut bytes = vec![0u8, 0, 28, 0, 1, 0, 0, 0, 5, 0, 16];
    bytes.extend((1u8..=16).collect::<Vec<u8>>());
    let mut reader = Reader::new(bytes.clone());
    let mut msg = bytes.clone();
    let mut r = Resource::new();
    assert!(r.read_in(&mut reader, &mut msg).is_ok());
    assert_eq!(r.rdata.get_ipv6_addr(), (1u8..=16).collect::<Vec<u8>>());
    assert_eq!(r.rdlength, 16);
}

#[test]
fn cache_maps_names_to_records() {
    let mut c = Cache::new();
    assert_eq!(c.len(), 0);
    let mut r = Resource::new();
    r.ttl = 5;
    c.insert(vec![1, 2], r);
    let mut r2 = Resource::new();
    r2.ttl = 6;
    c.insert(vec![3], r2);
    assert_eq!(c.len(), 2);
    assert!(c.contains_key(&vec![1, 2]));
    assert_eq!(c.get(&vec![3]).ttl, 6);
    let mut r3 = Resource::new();
    r3.ttl = 7;
    c.insert(vec![1, 2], r3);
    assert_eq!(c.len(), 2);
    assert_eq!(c.get(&vec![1, 2]).ttl, 7);
    c.remove(&vec![1, 2]);
    assert!(!c.contains_key(&vec![1, 2]));
    assert_eq!(c.len(), 1);
    let d = c.deep_copy();
    assert_eq!(d.get(&vec![3]).ttl, 6);
    assert!(bytes_eq(&vec![1, 2], &vec![1, 2]));
    assert!(!bytes_eq(&vec![1, 2], &vec![1]));
}

#[test]
fn name_labels_decoded_as_text() {
    let mut n = Name::new();
    n.read_fr_vec(name_bytes(&["déjà", "vu"]));
    assert_eq!(n.label, vec![String::from("déjà"), String::from("vu")]);
    assert_eq!(n.length, vec![6u8, 2]);
    assert_eq!(n.pointer, 0);
    assert_eq!(n.name_length(), 8);
}

#[test]
fn name_pointer_is_recorded() {
    let mut reader = Reader::new(vec![0xC0u8, 0x0C, 7]);
    let mut n = Name::new();
    n.read_in(&mut reader);
    assert_eq!(n.pointer, 0xC00C);
    assert_eq!(reader.pos, 2);
    assert!(n.label.is_empty());
}

#[test]
fn question_written_then_read_back() {
    let mut q = Question::new();
    q.qname.label = vec![b"mx".to_vec(), b"example".to_vec()];
    q.qname.length = vec![2, 7];
    q.qtype = 2;
    q.qclass = 3;
    let mut bytes = q.write();
    bytes.push(0x77);
    let mut reader = Reader::new(bytes.clone());
    let mut msg = Vec::new();
    let mut back = Question::new();
    assert!(back.read_in(&mut reader, &mut msg).is_ok());
    assert_eq!(back.qname.label, q.qname.label);
    assert_eq!(back.qname.length, q.qname.length);
    assert_eq!((back.qtype, back.qclass), (2, 3));
    assert_eq!(reader.pos, bytes.len() - 1);
}

#[test]
fn name_pointer_at_end_of_data() {
    let mut reader = Reader::new(vec![7u8, 0xC0]);
    reader.pos = 1;
    let mut n = Name::new();
    n.read_in(&mut reader);
    assert_eq!(n.pointer, 0xC00C);
    assert_eq!(reader.pos, 2);
}
