use dns_resolver::header::{split_u16, Header};
use dns_resolver::reader::Reader;

fn sample_header() -> Header {
    let mut h = Header::new();
    h.id = 0x997F;
    h.qr = 0x8000;
    h.opcode = 0x0800;
    h.aa = 0x0400;
    h.tc = 0x0200;
    h.rd = 0x0100;
    h.ra = 0x0080;
    h.rcode = 3;
    h.qdcount = 1;
    h.ancount = 2;
    h.nscount = 3;
    h.arcount = 4;
    h
}

#[test]
fn split_u16_appends_high_byte_first() {
    let mut buf = vec![9u8];
    split_u16(0x997F, &mut buf);
    assert_eq!(buf, vec![9u8, 0x99, 0x7F]);
    split_u16(0x0001, &mut buf);
    assert_eq!(buf, vec![9u8, 0x99, 0x7F, 0x00, 0x01]);
}

#[test]
fn new_header_is_all_zero() {
    let h = Header::new();
    assert_eq!((h.id, h.qr, h.opcode, h.aa, h.tc, h.rd, h.ra, h.rcode), (0, 0, 0, 0, 0, 0, 0, 0));
    assert_eq!((h.qdcount, h.ancount, h.nscount, h.arcount), (0, 0, 0, 0));
}

#[test]
fn query_header_has_one_question_and_no_flags() {
    let mut h = sample_header();
    h.generate_query_header_with_id(0x1234);
    assert_eq!(h.id, 0x1234);
    assert_eq!((h.qr, h.opcode, h.aa, h.tc, h.rd, h.ra, h.rcode), (0, 0, 0, 0, 0, 0, 0));
    assert_eq!((h.qdcount, h.ancount, h.nscount, h.arcount), (1, 0, 0, 0));
}

#[test]
fn write_clears_tc_and_zeroes_ns_ar_counts() {
    let mut h = sample_header();
    let bytes = h.write();
    assert_eq!(h.tc, 0);
    assert_eq!(bytes, vec![0x99u8, 0x7F, 0x8D, 0x83, 0, 1, 0, 2, 0, 0, 0, 0]);
}

#[test]
fn header_read_back_after_write() {
    let mut h = sample_header();
    let mut bytes = h.write();
    bytes.push(0xAB);
    let mut reader = Reader::new(bytes);
    let mut g = Header::new();
    g.read_in(&mut reader);
    assert_eq!(reader.pos, 12);
    assert_eq!((g.id, g.qr, g.opcode, g.aa, g.tc, g.ra, g.rcode), (0x997F, 0x8000, 0x0800, 0x0400, 0, 0x0080, 3));
    // the recursion-desired bit reads back; the name server and additional counts were written as 0
    assert_eq!(g.rd, 0x0100);
    assert_eq!((g.qdcount, g.ancount, g.nscount, g.arcount), (1, 2, 0, 0));
}

#[test]
fn header_read_keeps_unrecognised_values() {
    let bytes = vec![0u8, 7, 0x7B, 0x0F, 0, 0, 0, 0, 0, 5, 0, 6];
    let mut reader = Reader::new(bytes);
    let mut g = Header::new();
    g.opcode = 0x1000;
    g.rcode = 2;
    g.read_in(&mut reader);
    assert_eq!(g.id, 7);
    assert_eq!(g.qr, 0);
    // opcode 0x7800 and rcode 0xF are not recognised: the old values stay
    assert_eq!(g.opcode, 0x1000);
    assert_eq!(g.rcode, 2);
    // the truncated and recursion-desired bits are stored in place
    assert_eq!(g.tc, 0x0200);
    assert_eq!(g.rd, 0x0100);
    assert_eq!((g.nscount, g.arcount), (5, 6));
}

#[test]
fn reader_reads_big_endian_numbers() {
    let mut r = Reader::new(vec![0x12u8, 0x34, 0x00, 0x00, 0x0E, 0x10, 0xFF]);
    assert_eq!(r.read_be_u16(), 0x1234);
    assert_eq!(r.read_be_u32(), 3600);
    assert_eq!(r.read_u8(), 0xFF);
    assert_eq!(r.pos, 7);
}

#[test]
fn random_query_header_has_query_fields() {
    let mut h = sample_header();
    h.generate_query_header();
    assert_eq!((h.qr, h.opcode, h.aa, h.tc, h.rd, h.ra, h.rcode), (0, 0, 0, 0, 0, 0, 0));
    assert_eq!((h.qdcount, h.ancount, h.nscount, h.arcount), (1, 0, 0, 0));
}

#[test]
fn header_flags_stored_in_place() {
    let mut reader = Reader::new(vec![0x99u8, 0x7F, 0x81, 0x80, 0, 1, 0, 1, 0, 0, 0, 0]);
    let mut h = Header::new();
    h.read_in(&mut reader);
    assert_eq!(reader.pos, 12);
    assert_eq!((h.id, h.qr, h.opcode, h.aa, h.tc, h.rd, h.ra, h.rcode), (0x997F, 0x8000, 0, 0, 0, 0x0100, 0x0080, 0));
    assert_eq!((h.qdcount, h.ancount, h.nscount, h.arcount), (1, 1, 0, 0));
}
