use dns_resolver::data::Data;
use dns_resolver::reader::Reader;

fn name_bytes(labels: &[&str]) -> Vec<u8> {
    let mut v = Vec::new();
    for l in labels {
        v.push(l.len() as u8);
        v.extend_from_slice(l.as_bytes());
    }
    v.push(0);
    v
}

fn labels_of(d: &Data) -> Vec<Vec<u8>> {
    d.label.clone()
}

#[test]
fn read_plain_hostname() {
    let bytes = name_bytes(&["www", "google", "com"]);
    let mut reader = Reader::new(bytes.clone());
    let mut msg = bytes.clone();
    let mut d = Data::new();
    d.read_hostname(&mut reader, &mut msg);
    assert_eq!(labels_of(&d), vec![b"www".to_vec(), b"google".to_vec(), b"com".to_vec()]);
    assert_eq!(d.length, vec![3u8, 6, 3]);
    assert_eq!(reader.pos, 16);
    assert_eq!(msg, bytes);
}

#[test]
fn read_compressed_hostname_follows_pointer() {
    let mut msg = vec![0u8; 12];
    msg.extend(name_bytes(&["com"]));
    let here = vec![3u8, b'w', b'w', b'w', 0xC0, 12, 0xEE];
    let mut reader = Reader::new(here);
    let mut d = Data::new();
    d.read_hostname(&mut reader, &mut msg);
    assert_eq!(labels_of(&d), vec![b"www".to_vec(), b"com".to_vec()]);
    assert_eq!(d.length, vec![3u8, 3]);
    assert_eq!(reader.pos, 6);
}

#[test]
fn name_written_then_read_back() {
    let mut d = Data::new();
    d.label = vec![b"mail".to_vec(), b"example".to_vec(), b"org".to_vec()];
    d.length = vec![4, 7, 3];
    let mut bytes = d.write();
    assert_eq!(bytes, name_bytes(&["mail", "example", "org"]));
    bytes.push(0x55);
    let mut reader = Reader::new(bytes);
    let mut msg = Vec::new();
    let mut e = Data::new();
    e.read_hostname(&mut reader, &mut msg);
    assert_eq!(labels_of(&e), labels_of(&d));
    assert_eq!(e.length, d.length);
    assert_eq!(reader.pos, 18);
}

#[test]
fn write_without_length_bytes_for_extra_labels() {
    let mut d = Data::new();
    d.label = vec![b"ab".to_vec(), vec![1u8, 2, 3, 4]];
    d.length = vec![2];
    assert_eq!(d.write(), vec![2u8, b'a', b'b', 1, 2, 3, 4, 0]);
    assert_eq!(d.write_ip_addr(), vec![b'a', b'b', 1, 2, 3, 4, 0]);
}

#[test]
fn ipv4_address_read_and_got() {
    let mut reader = Reader::new(vec![9u8, 192, 168, 1, 20, 9]);
    reader.pos = 1;
    let mut d = Data::new();
    d.read_ipv4_addr(&mut reader);
    assert_eq!(reader.pos, 5);
    assert_eq!(d.length, vec![1u8, 1, 1, 1]);
    assert_eq!(d.get_ipv4_addr(), vec![192u8, 168, 1, 20]);
}

#[test]
fn ipv6_address_read_and_got() {
    let bytes: Vec<u8> = (0u8..16).collect();
    let mut reader = Reader::new(bytes.clone());
    let mut d = Data::new();
    d.read_ipv6_addr(&mut reader);
    assert_eq!(reader.pos, 16);
    assert_eq!(d.label.len(), 8);
    assert_eq!(d.length, vec![2u8; 8]);
    assert_eq!(d.get_ipv6_addr(), bytes);
}

#[test]
fn soa_data_read() {
    let mut bytes = name_bytes(&["ns", "a"]);
    bytes.extend(name_bytes(&["root", "a"]));
    for n in [1u32, 7200, 3600, 1209600, 300] {
        bytes.extend_from_slice(&n.to_be_bytes());
    }
    let mut reader = Reader::new(bytes.clone());
    let mut msg = bytes.clone();
    let mut d = Data::new();
    d.read_soa(&mut reader, &mut msg);
    assert_eq!(reader.pos, bytes.len());
    assert_eq!(d.length, vec![2u8, 1, 0, 4, 1, 0]);
    assert_eq!(d.label.len(), 11);
    assert_eq!(d.label[2], Vec::<u8>::new());
    assert_eq!(d.u8_to_u32(6), 1);
    assert_eq!(d.u8_to_u32(7), 7200);
    assert_eq!(d.u8_to_u32(10), 300);
}

#[test]
fn tld_is_last_label_of_longer_names() {
    let mut d = Data::new();
    d.label = vec![b"www".to_vec(), b"com".to_vec()];
    d.length = vec![3, 3];
    let t = d.tld().unwrap();
    assert_eq!(t.label, vec![b"com".to_vec()]);
    assert_eq!(t.length, vec![3u8]);
    let mut single = Data::new();
    single.label = vec![b"com".to_vec()];
    single.length = vec![3];
    assert!(single.tld().is_none());
    assert!(Data::new().tld().is_none());
}

#[test]
fn equals_compares_labels_only() {
    let mut a = Data::new();
    a.label = vec![b"com".to_vec()];
    a.length = vec![3];
    let mut b = Data::new();
    b.label = vec![b"com".to_vec()];
    assert!(a.equals(b));
    let mut c = Data::new();
    c.label = vec![b"org".to_vec()];
    c.length = vec![3];
    assert!(!a.equals(c));
    assert!(!a.equals(Data::new()));
}

#[test]
fn display_helpers_of_names_and_addresses() {
    let mut d = Data::new();
    d.label = vec![b"www".to_vec(), b"rust".to_vec(), b"org".to_vec()];
    d.length = vec![3, 4, 3];
    assert_eq!(d.dotted_name(), b"www.rust.org".to_vec());
    assert_eq!(d.name_length(), 10);
    assert_eq!(Data::new().dotted_name(), Vec::<u8>::new());
    let mut big = Data::new();
    big.length = vec![200, 100];
    assert_eq!(big.name_length(), 44);
    let mut v6 = Data::new();
    v6.label = vec![vec![0x20, 0x01], vec![0x0d, 0xb8], vec![0xff]];
    assert_eq!(v6.ipv6_groups(), vec![0x2001u16, 0x0db8, 0xff00]);
}

#[test]
fn soa_fields_for_display() {
    let mut bytes = name_bytes(&["ns", "a"]);
    bytes.extend(name_bytes(&["root", "a"]));
    for n in [2024u32, 7200, 3600, 1209600, 300] {
        bytes.extend_from_slice(&n.to_be_bytes());
    }
    let mut reader = Reader::new(bytes.clone());
    let mut msg = bytes.clone();
    let mut d = Data::new();
    d.read_soa(&mut reader, &mut msg);
    assert!(d.has_soa_shape());
    let f = d.soa_fields();
    assert_eq!(f.mname, b"ns.a".to_vec());
    assert_eq!(f.rname, b"root.a".to_vec());
    assert_eq!((f.serial, f.refresh, f.retry, f.expire, f.minimum), (2024, 7200, 3600, 1209600, 300));
    assert!(!Data::new().has_soa_shape());
}

#[test]
fn pointer_inside_pointed_name_uses_full_offset() {
    // the message: 300 filler bytes, "com" at 300, then "b" followed by a pointer to 300 at 305
    let mut msg = vec![0u8; 300];
    msg.extend(name_bytes(&["com"]));
    msg.extend_from_slice(&[1, b'b', 0xC1, 0x2C]);
    // the name read points to offset 305 (0xC1 0x31)
    let mut reader = Reader::new(vec![1u8, b'a', 0xC1, 0x31]);
    let mut d = Data::new();
    d.read_hostname(&mut reader, &mut msg);
    assert_eq!(labels_of(&d), vec![b"a".to_vec(), b"b".to_vec(), b"com".to_vec()]);
    assert_eq!(d.length, vec![1u8, 1, 3]);
    assert_eq!(reader.pos, 4);
}
