use nyxip::ipv4::Ipv4Addr;
use nyxip::range::{parse_range, RangeError};
use nyxip::text::IntErrorKind;

fn ip(a: u8, b: u8, c: u8, d: u8) -> Ipv4Addr {
    Ipv4Addr::new(a, b, c, d)
}

#[test]
fn cidr_24_skips_network_and_broadcast() {
    let ips = parse_range("192.168.1.0/24").unwrap();
    assert_eq!(ips.len(), 254);
    assert_eq!(ips[0], ip(192, 168, 1, 1));
    assert_eq!(ips[253], ip(192, 168, 1, 254));
}

#[test]
fn cidr_30_gives_two_hosts() {
    let ips = parse_range("10.0.0.5/30").unwrap();
    assert_eq!(ips, vec![ip(10, 0, 0, 5), ip(10, 0, 0, 6)]);
}

#[test]
fn cidr_31_and_32_give_no_hosts() {
    assert_eq!(parse_range("10.0.0.4/31").unwrap(), vec![]);
    assert_eq!(parse_range("10.0.0.4/32").unwrap(), vec![]);
}

#[test]
fn cidr_below_24_keeps_whole_block() {
    let ips = parse_range("10.1.2.3/23").unwrap();
    assert_eq!(ips.len(), 512);
    assert_eq!(ips[0], ip(10, 1, 2, 0));
    assert_eq!(ips[511], ip(10, 1, 3, 255));
}

#[test]
fn cidr_block_at_top_keeps_whole_block() {
    let ips = parse_range("255.255.0.0/16").unwrap();
    assert_eq!(ips.len(), 65536);
    assert_eq!(ips[0], ip(255, 255, 0, 0));
    assert_eq!(ips[65535], ip(255, 255, 255, 255));
}

#[test]
fn cidr_top_single_address_gives_no_hosts() {
    assert_eq!(parse_range("255.255.255.255/32").unwrap(), vec![]);
    assert_eq!(parse_range("255.255.255.255/31").unwrap(), vec![]);
}

#[test]
fn cidr_prefix_with_plus_sign_reads() {
    assert_eq!(parse_range("10.0.0.0/+30").unwrap().len(), 2);
}

#[test]
fn last_octet_range() {
    let ips = parse_range("192.168.1.1-254").unwrap();
    assert_eq!(ips.len(), 254);
    assert_eq!(ips[0], ip(192, 168, 1, 1));
    assert_eq!(ips[253], ip(192, 168, 1, 254));
}

#[test]
fn last_octet_range_backwards_is_empty() {
    assert_eq!(parse_range("192.168.1.10-5").unwrap(), vec![]);
}

#[test]
fn last_octet_range_with_spaces_after_dash() {
    let ips = parse_range("  10.0.0.1- 3 ").unwrap();
    assert_eq!(ips, vec![ip(10, 0, 0, 1), ip(10, 0, 0, 2), ip(10, 0, 0, 3)]);
}

#[test]
fn full_range_crosses_octets() {
    let ips = parse_range("192.168.1.254-192.168.2.1").unwrap();
    assert_eq!(ips, vec![ip(192, 168, 1, 254), ip(192, 168, 1, 255), ip(192, 168, 2, 0), ip(192, 168, 2, 1)]);
}

#[test]
fn full_range_backwards_is_refused() {
    assert_eq!(parse_range("10.0.0.9-10.0.0.1"), Err(RangeError::EndBeforeStart));
}

#[test]
fn single_address() {
    assert_eq!(parse_range(" 192.168.1.1\n").unwrap(), vec![ip(192, 168, 1, 1)]);
}

#[test]
fn errors_of_each_kind() {
    assert_eq!(parse_range("192.168.1.256"), Err(RangeError::InvalidIp));
    assert_eq!(parse_range("01.2.3.4"), Err(RangeError::InvalidIp));
    assert_eq!(parse_range(""), Err(RangeError::InvalidIp));
    assert_eq!(parse_range("1.2.3.4/24/2"), Err(RangeError::InvalidCidr));
    assert_eq!(parse_range("1.2.3/24"), Err(RangeError::InvalidIp));
    assert_eq!(parse_range("1.2.3.4/"), Err(RangeError::InvalidPrefix(IntErrorKind::Empty)));
    assert_eq!(parse_range("1.2.3.4/2x"), Err(RangeError::InvalidPrefix(IntErrorKind::InvalidDigit)));
    assert_eq!(parse_range("1.2.3.4/99999999999"), Err(RangeError::InvalidPrefix(IntErrorKind::PosOverflow)));
    assert_eq!(parse_range("1.2.3.4/33"), Err(RangeError::PrefixTooLarge));
    assert_eq!(parse_range("1.2.3.4-5-6"), Err(RangeError::InvalidRangeFormat));
    assert_eq!(parse_range("1.2.3.4 -6"), Err(RangeError::InvalidStartIp));
    assert_eq!(parse_range("1.2.3.4-x"), Err(RangeError::InvalidRangeEnd));
    assert_eq!(parse_range("1.2.3.4-256"), Err(RangeError::InvalidRangeEnd));
}

#[test]
fn prefix_checked_before_slash_count_is_cidr_first() {
    assert_eq!(parse_range("1.2.3.4/24-30"), Err(RangeError::InvalidPrefix(IntErrorKind::InvalidDigit)));
}

#[test]
fn error_messages() {
    assert_eq!(RangeError::InvalidIp.message(), "Invalid IP: invalid IPv4 address syntax");
    assert_eq!(RangeError::InvalidCidr.message(), "Invalid CIDR notation");
    assert_eq!(RangeError::InvalidPrefix(IntErrorKind::Empty).message(), "Invalid prefix: cannot parse integer from empty string");
    assert_eq!(RangeError::InvalidPrefix(IntErrorKind::InvalidDigit).message(), "Invalid prefix: invalid digit found in string");
    assert_eq!(RangeError::InvalidPrefix(IntErrorKind::PosOverflow).message(), "Invalid prefix: number too large to fit in target type");
    assert_eq!(RangeError::PrefixTooLarge.message(), "Prefix must be 0-32");
    assert_eq!(RangeError::InvalidRangeFormat.message(), "Invalid range format");
    assert_eq!(RangeError::InvalidStartIp.message(), "Invalid start IP: invalid IPv4 address syntax");
    assert_eq!(RangeError::EndBeforeStart.message(), "End IP must be >= start IP");
    assert_eq!(RangeError::InvalidRangeEnd.message(), "Invalid range end");
}

#[test]
fn ranges_are_ascending_without_repeats() {
    for text in ["10.0.0.0/26", "10.0.0.3-40", "10.0.0.250-10.0.1.3", "10.9.8.7"] {
        let ips = parse_range(text).unwrap();
        for w in ips.windows(2) {
            assert!(w[0].to_bits() < w[1].to_bits());
        }
    }
}

#[test]
fn cidr_24_equals_octets_one_to_254() {
    assert_eq!(parse_range("172.16.5.77/24").unwrap(), parse_range("172.16.5.1-254").unwrap());
}

#[test]
fn cidr_hosts_stay_inside_block() {
    let ips = parse_range("10.20.30.40/27").unwrap();
    assert_eq!(ips.len(), 30);
    for a in &ips {
        let b = a.to_bits();
        assert!(b > ip(10, 20, 30, 32).to_bits() && b < ip(10, 20, 30, 63).to_bits());
    }
}

#[test]
fn cidr_ignores_host_bits_of_base() {
    assert_eq!(parse_range("192.168.1.77/24").unwrap(), parse_range("192.168.1.0/24").unwrap());
    assert_eq!(parse_range("10.1.3.200/23").unwrap(), parse_range("10.1.2.0/23").unwrap());
}
