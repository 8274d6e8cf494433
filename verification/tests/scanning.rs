use nyxip::ipv4::Ipv4Addr;
use nyxip::scanner::{
    echo_reply_rtt, mac_from_arp, ping_rtt_texts_of, reverse_name, sorted_ports, HostStatus,
    Scanner, COMMON_PORTS,
};

#[test]
fn common_ports_are_the_twenty_two() {
    assert_eq!(COMMON_PORTS.len(), 22);
    assert_eq!(COMMON_PORTS[0], 21);
    assert_eq!(COMMON_PORTS[21], 8443);
}

#[test]
fn status_names() {
    assert_eq!(HostStatus::Alive.to_string(), "Alive");
    assert_eq!(HostStatus::Dead.to_string(), "Dead");
    assert_eq!(HostStatus::Unknown.to_string(), "Unknown");
}

#[test]
fn scanner_keeps_its_settings() {
    let s = Scanner::new(750, true);
    assert_eq!(s.timeout_ms, 750);
    assert!(s.scan_ports);
}

#[test]
fn probes_follow_the_ping() {
    let s = Scanner::new(1000, true);
    let p = s.plan_after_ping(Some(1200));
    assert!(p.reverse_dns && p.arp && p.port_scan);
    let p = s.plan_after_ping(None);
    assert!(!p.reverse_dns && !p.arp && !p.port_scan);
    let p = Scanner::new(1000, false).plan_after_ping(Some(5));
    assert!(p.reverse_dns && p.arp && !p.port_scan);
}

#[test]
fn result_of_a_host_that_answered() {
    let s = Scanner::new(1000, true);
    let r = s.host_result(
        Ipv4Addr::new(10, 0, 0, 2),
        Some(3000),
        Some("nas.local".to_string()),
        Some("AA:BB:CC:DD:EE:FF".to_string()),
        Some("Synology".to_string()),
        vec![22, 80],
    );
    assert_eq!(r.status, HostStatus::Alive);
    assert_eq!(r.hostname, "nas.local");
    assert_eq!(r.mac, "AA:BB:CC:DD:EE:FF");
    assert_eq!(r.vendor, "Synology");
    assert_eq!(r.open_ports, vec![22, 80]);
    assert_eq!(r.latency_us, Some(3000));
}

#[test]
fn vendor_needs_a_mac_and_ports_need_the_option() {
    let s = Scanner::new(1000, false);
    let r = s.host_result(Ipv4Addr::new(10, 0, 0, 2), Some(1), None, None, Some("X".to_string()), vec![22]);
    assert_eq!(r.hostname, "");
    assert_eq!(r.mac, "");
    assert_eq!(r.vendor, "");
    assert!(r.open_ports.is_empty());
}

#[test]
fn result_of_a_dead_host_is_empty() {
    let s = Scanner::new(1000, true);
    let r = s.host_result(
        Ipv4Addr::new(10, 0, 0, 3),
        None,
        Some("x".to_string()),
        Some("AA:BB:CC:DD:EE:FF".to_string()),
        Some("y".to_string()),
        vec![80],
    );
    assert_eq!(r.status, HostStatus::Dead);
    assert_eq!(r.hostname, "");
    assert_eq!(r.mac, "");
    assert_eq!(r.vendor, "");
    assert!(r.open_ports.is_empty());
    assert_eq!(r.latency_us, None);
}

#[test]
fn ports_sorted() {
    assert_eq!(sorted_ports(vec![443, 22, 8080, 80, 22]), vec![22, 22, 80, 443, 8080]);
    assert_eq!(sorted_ports(vec![]), Vec::<u16>::new());
}

#[test]
fn mac_formatting_and_filtering() {
    assert_eq!(mac_from_arp(0, 6, [0x00, 0x1a, 0x2b, 0x3c, 0x4d, 0xef]), Some("00:1A:2B:3C:4D:EF".to_string()));
    assert_eq!(mac_from_arp(0, 6, [0; 6]), None);
    assert_eq!(mac_from_arp(0, 6, [0xff; 6]), None);
    assert_eq!(mac_from_arp(67, 6, [1, 2, 3, 4, 5, 6]), None);
    assert_eq!(mac_from_arp(0, 4, [1, 2, 3, 4, 5, 6]), None);
}

#[test]
fn reverse_name_drops_the_address_itself() {
    let a = Ipv4Addr::new(192, 168, 1, 20);
    assert_eq!(reverse_name(a, Some("192.168.1.20".to_string())), None);
    assert_eq!(reverse_name(a, Some("printer".to_string())), Some("printer".to_string()));
    assert_eq!(reverse_name(a, None), None);
}

#[test]
fn ping_output_without_reply() {
    assert_eq!(ping_rtt_texts_of("Request timed out."), None);
}

#[test]
fn ping_output_in_english_and_french() {
    let en = "Reply from 10.0.0.1: bytes=32 time=12ms TTL=64";
    assert_eq!(ping_rtt_texts_of(en), Some(vec!["12".to_string()]));
    let fr = "Réponse de 10.0.0.1 : octets=32 temps<1ms TTL=128";
    assert_eq!(ping_rtt_texts_of(fr), Some(vec!["1".to_string()]));
    let unix = "64 bytes from 10.0.0.1: icmp_seq=1 ttl=64 time=0.045 ms";
    assert_eq!(ping_rtt_texts_of(unix), Some(vec!["0.045".to_string()]));
    assert_eq!(ping_rtt_texts_of("TTL=1 but no times"), Some(vec![]));
}

#[test]
fn echo_reply_times() {
    let mut reply = vec![0u8; 68];
    reply[8] = 0x2c;
    reply[9] = 0x01;
    assert_eq!(echo_reply_rtt(1, &reply), Some(300));
    assert_eq!(echo_reply_rtt(0, &reply), None);
    reply[4] = 11;
    assert_eq!(echo_reply_rtt(1, &reply), None);
}
