use dns_resolver::describe::{class_description, rdata_display, type_description, RdataDisplay};
use dns_resolver::detect::{can_detect, detect_addr};
use dns_resolver::header::Header;

#[test]
fn record_types_and_classes_described() {
    assert_eq!(type_description(1), "Type: A (Address record) (1)");
    assert_eq!(type_description(6), "Type: SOA (Start of [a zone of] authority record) (6)");
    assert_eq!(type_description(28), "Type: AAAA (IPv6 address record) (28)");
    assert_eq!(type_description(99), "somethings wrong");
    assert_eq!(class_description(1), "Class: IN (0x0001)");
    assert_eq!(class_description(4), "Class: HS (0x0004)");
    assert_eq!(class_description(0), "somethings wrong");
}

#[test]
fn header_flags_described() {
    let mut h = Header::new();
    h.generate_query_header_with_id(1);
    assert_eq!(
        h.flag_lines(),
        vec![
            "0... .... .... .... = Response: Message is a request",
            ".000 0... .... .... = Opcode: Standard query (0)",
            ".... .0.. .... .... = Authoritative: Server is not an authority for domain",
            ".... ..0. .... .... = Truncated: Message is not truncated",
            ".... ...0 .... .... = Recursion desired: Do not query recursively",
            ".... .... 0... .... = Recursion available: Server can't do recursive queries",
            ".... .... .000 .... = Z: reserved (0)",
            ".... .... .... 0000 = Reply code: No error (0)",
        ]
    );
    h.qr = 0x8000;
    h.opcode = 0x7800;
    h.aa = 0x0400;
    h.ra = 0x0080;
    h.rcode = 9;
    let lines = h.flag_lines();
    assert_eq!(lines.len(), 6);
    assert_eq!(lines[0], "1... .... .... .... = Response: Message is a response");
    assert_eq!(lines[1], ".... .1.. .... .... = Authoritative: Server is an authority for domain");
    assert_eq!(lines[4], ".... .... 1... .... = Recursion available: Server can do recursive queries");
}

#[test]
fn address_detected_from_ifconfig_output() {
    let out = b"en0: flags=8863<UP,BROADCAST> mtu 1500\n\tether 00:11:22:33:44:55 \n\tinet6 fe80::1%en0 prefixlen 64\n\tinet 192.168.1.20 netmask 0xffffff00 broadcast 192.168.1.255\n";
    assert!(can_detect(out));
    assert_eq!(detect_addr(out), Some(vec![192u8, 168, 1, 20]));
}

#[test]
fn no_address_in_output() {
    let out = b"en0: flags=8863<UP,BROADCAST> mtu 1500\n\tether 00:11:22:33:44:55 \n";
    assert!(can_detect(out));
    assert_eq!(detect_addr(out), None);
    assert!(can_detect(b""));
    assert_eq!(detect_addr(b""), None);
}

#[test]
fn unreadable_outputs_are_refused() {
    // a line shorter than six bytes before any address
    assert!(!can_detect(b"first\n\n\tinet 1.2.3.4 x\n"));
    // a part above 255
    assert!(!can_detect(b"first\n\tinet 1.2.300.4 netmask\n"));
    // no space after the address
    assert!(!can_detect(b"first\n\tinet 1.2.3.4"));
    // an empty part
    assert!(!can_detect(b"first\n\tinet 1..3.4 netmask\n"));
}

#[test]
fn record_data_display_by_type() {
    assert!(matches!(rdata_display(1), Some(RdataDisplay::Address)));
    assert!(matches!(rdata_display(2), Some(RdataDisplay::Hostname)));
    assert!(matches!(rdata_display(5), Some(RdataDisplay::Hostname)));
    assert!(matches!(rdata_display(6), Some(RdataDisplay::Soa)));
    assert!(matches!(rdata_display(15), Some(RdataDisplay::Nothing)));
    assert!(matches!(rdata_display(25), Some(RdataDisplay::Nothing)));
    assert!(matches!(rdata_display(28), Some(RdataDisplay::Ipv6)));
    assert!(rdata_display(3).is_none());
    assert!(rdata_display(0).is_none());
}
