use hust::cidr::CidrBlock;
use hust::classify::{check_label, is_domain, Key};

fn class(token: &[u8]) -> Key {
    Key::from(token)
}

#[test]
fn classification_boundary() {
    assert_eq!(class(b"10.0.0.0/24"), Key::Ip);
    assert_eq!(class(b"example.com"), Key::Domain);
    assert_eq!(class(b"-bad.com"), Key::Other);
    assert_eq!(class(b"a_b.com"), Key::Other);
    assert_eq!(class(b"localhost"), Key::Other);
}

#[test]
fn addresses_are_blocks() {
    assert_eq!(class(b"1.2.3.4"), Key::Ip);
    assert_eq!(class(b"::1"), Key::Ip);
    assert_eq!(class(b"2001:db8::/32"), Key::Ip);
    assert_eq!(class(b"192.168.0.0/255.255.0.0"), Key::Ip);
}

#[test]
fn address_is_tried_before_domain() {
    // four labels of digits are made like a domain name, but read as an address
    assert!(is_domain(b"1.2.3.4"));
    assert_eq!(class(b"1.2.3.4"), Key::Ip);
    // not an address: an octet is too large
    assert_eq!(class(b"1.2.3.256"), Key::Domain);
}

#[test]
fn other_is_the_catch_all() {
    assert_eq!(class(b""), Key::Other);
    assert_eq!(class(b"hello world"), Key::Other);
    assert_eq!(class(b"example.com."), Key::Other);
    assert_eq!(class(b".example.com"), Key::Other);
    assert_eq!(class(b"a..b"), Key::Other);
    assert_eq!(class(b"bad-.com"), Key::Other);
    assert_eq!(class(b"_dmarc.example.com"), Key::Other);
    assert_eq!(class(b"\xff\xfe.com"), Key::Other);
    assert_eq!(class(b"1.2.3.0/33"), Key::Other);
}

#[test]
fn labels_have_1_to_63_bytes() {
    let l63 = vec![b'a'; 63];
    let l64 = vec![b'a'; 64];
    assert!(check_label(&l63));
    assert!(!check_label(&l64));
    assert!(!check_label(b""));
    assert!(check_label(b"a"));
    assert!(check_label(b"a-b"));
    assert!(check_label(b"A9"));
    assert!(!check_label(b"-"));
    assert!(!check_label(b"a b"));
    let mut name = l63.clone();
    name.extend_from_slice(b".com");
    assert_eq!(class(&name), Key::Domain);
    let mut long = l64.clone();
    long.extend_from_slice(b".com");
    assert_eq!(class(&long), Key::Other);
}

#[test]
fn domain_needs_two_labels() {
    assert!(is_domain(b"a.b"));
    assert!(is_domain(b"sub.example-site.co.uk"));
    assert!(!is_domain(b"a"));
    assert!(!is_domain(b""));
    assert!(!is_domain(b"."));
}

#[test]
fn key_of_takes_the_parse_result() {
    let block = CidrBlock::parse(b"10.0.0.0/8");
    assert_eq!(Key::of(&block, b"anything"), Key::Ip);
    assert_eq!(Key::of(&None, b"example.com"), Key::Domain);
    assert_eq!(Key::of(&None, b"10.0.0.0/8"), Key::Other);
}

#[test]
fn key_names_its_file() {
    assert_eq!(Key::Ip.as_ref(), "ip");
    assert_eq!(Key::Domain.as_ref(), "domain");
    assert_eq!(Key::Other.as_ref(), "other");
}

#[test]
fn block_parse_reads_family_first_address_and_bits() {
    let b = CidrBlock::parse(b"10.1.2.3/8").unwrap();
    assert!(!b.is_v6());
    assert_eq!(b.first(), 0x0a00_0000);
    assert_eq!(b.last(), 0x0aff_ffff);
    assert_eq!(b.bits(), 8);
    let h = CidrBlock::parse(b"1.2.3.4").unwrap();
    assert_eq!(h.first(), 0x0102_0304);
    assert_eq!(h.last(), 0x0102_0304);
    assert_eq!(h.bits(), 32);
    let v6 = CidrBlock::parse(b"2001:db8::/32").unwrap();
    assert!(v6.is_v6());
    assert_eq!(v6.first(), 0x2001_0db8_0000_0000_0000_0000_0000_0000);
    assert_eq!(v6.last(), 0x2001_0db8_ffff_ffff_ffff_ffff_ffff_ffff);
    assert_eq!(v6.bits(), 32);
    assert!(CidrBlock::parse(b"example.com").is_none());
    assert!(CidrBlock::parse(b"").is_none());
    assert!(CidrBlock::parse(b"\xff").is_none());
}

#[test]
fn block_new_accepts_well_formed_blocks_only() {
    assert!(CidrBlock::new(false, 0x0a00_0000, 8).is_some());
    assert!(CidrBlock::new(false, 0x0a00_0001, 8).is_none());
    assert!(CidrBlock::new(false, 0, 33).is_none());
    assert!(CidrBlock::new(false, 0x1_0000_0000, 32).is_none());
    assert!(CidrBlock::new(false, 0, 0).is_some());
    assert!(CidrBlock::new(true, 0, 0).is_some());
    assert!(CidrBlock::new(true, 1, 0).is_none());
    assert!(CidrBlock::new(true, u128::MAX, 128).is_some());
    assert!(CidrBlock::new(true, 0, 129).is_none());
    let all = CidrBlock::new(true, 0, 0).unwrap();
    assert_eq!(all.last(), u128::MAX);
    let v4 = CidrBlock::new(false, 0, 0).unwrap();
    assert_eq!(v4.last(), 0xffff_ffff);
}

#[test]
fn block_contains_its_range_only() {
    let b = CidrBlock::parse(b"1.2.3.0/24").unwrap();
    assert!(b.contains(false, 0x0102_0300));
    assert!(b.contains(false, 0x0102_03ff));
    assert!(!b.contains(false, 0x0102_0400));
    assert!(!b.contains(false, 0x0102_02ff));
    assert!(!b.contains(true, 0x0102_0300));
}

#[test]
fn block_text_is_cidr_notation_and_reads_back() {
    let b = CidrBlock::new(false, 0x0102_0300, 24).unwrap();
    assert_eq!(b.text(), b"1.2.3.0/24");
    let h = CidrBlock::parse(b"1.2.3.4").unwrap();
    assert_eq!(h.text(), b"1.2.3.4/32");
    let v6 = CidrBlock::parse(b"2001:db8::/32").unwrap();
    assert_eq!(v6.text(), b"2001:db8::/32");
    let mapped = CidrBlock::new(true, 0xffff_0102_0304, 128).unwrap();
    for block in [b, h, v6, mapped] {
        let text = block.text();
        let again = CidrBlock::parse(&text).unwrap();
        assert_eq!(again.is_v6(), block.is_v6());
        assert_eq!(again.first(), block.first());
        assert_eq!(again.bits(), block.bits());
        assert!(!text.is_empty());
        assert!(!text.iter().any(|c| c.is_ascii_whitespace()));
    }
}
