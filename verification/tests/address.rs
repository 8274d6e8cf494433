use nyxip::interface::suggest_range;
use nyxip::ipv4::Ipv4Addr;
use nyxip::range::parse_range;

#[test]
fn dotted_form() {
    assert_eq!(Ipv4Addr::new(192, 168, 0, 10).to_string(), "192.168.0.10");
    assert_eq!(Ipv4Addr::new(0, 0, 0, 0).to_string(), "0.0.0.0");
    assert_eq!(Ipv4Addr::from_bits(0xffff_ffff).to_string(), "255.255.255.255");
}

#[test]
fn octets_and_bits() {
    let a = Ipv4Addr::new(1, 2, 3, 4);
    assert_eq!(a.to_bits(), 0x0102_0304);
    assert_eq!(a.octets(), [1, 2, 3, 4]);
    assert_eq!(Ipv4Addr::from_bits(0xc0a8_0101), Ipv4Addr::new(192, 168, 1, 1));
}

#[test]
fn parse_accepts_dotted_quads_only() {
    assert_eq!(Ipv4Addr::parse("10.0.0.1"), Some(Ipv4Addr::new(10, 0, 0, 1)));
    assert_eq!(Ipv4Addr::parse("0.0.0.0"), Some(Ipv4Addr::new(0, 0, 0, 0)));
    assert_eq!(Ipv4Addr::parse("10.0.0"), None);
    assert_eq!(Ipv4Addr::parse("10.0.0.1.2"), None);
    assert_eq!(Ipv4Addr::parse("10.0.0.01"), None);
    assert_eq!(Ipv4Addr::parse("10.0.0.256"), None);
    assert_eq!(Ipv4Addr::parse("10.0.0.1000"), None);
    assert_eq!(Ipv4Addr::parse("10.0..1"), None);
    assert_eq!(Ipv4Addr::parse("+1.0.0.1"), None);
    assert_eq!(Ipv4Addr::parse(" 10.0.0.1"), None);
}

#[test]
fn parse_matches_the_dotted_quad_grammar() {
    let cases: [(&str, Option<[u8; 4]>); 8] = [
        ("1.2.3.4", Some([1, 2, 3, 4])),
        ("255.255.255.255", Some([255, 255, 255, 255])),
        ("00.1.2.3", None),
        ("1.2.3.4 ", None),
        ("1.2.3.-4", None),
        ("300.1.1.1", None),
        ("9.09.9.9", None),
        ("127.0.0.1", Some([127, 0, 0, 1])),
    ];
    for (text, want) in cases {
        assert_eq!(Ipv4Addr::parse(text).map(|a| a.octets()), want, "{}", text);
    }
}

#[test]
fn dotted_form_reads_back() {
    for bits in [0u32, 1, 0x7f00_0001, 0xc0a8_01fe, 0xffff_ffff, 0x0a0b_0c0d] {
        let a = Ipv4Addr::from_bits(bits);
        assert_eq!(Ipv4Addr::parse(&a.to_string()), Some(a));
    }
    assert_eq!(Ipv4Addr::from_bits(0x0a0b_0c0d).to_string(), "10.11.12.13");
}

#[test]
fn suggested_range_from_local_address() {
    assert_eq!(suggest_range(Some(Ipv4Addr::new(10, 1, 2, 99))), "10.1.2.1-254");
    assert_eq!(suggest_range(None), "192.168.1.1-254");
}

#[test]
fn suggested_range_covers_local_24() {
    let local = Ipv4Addr::new(172, 20, 3, 7);
    let ips = parse_range(&suggest_range(Some(local))).unwrap();
    assert_eq!(ips, parse_range("172.20.3.0/24").unwrap());
    assert_eq!(parse_range(&suggest_range(None)).unwrap().len(), 254);
}
