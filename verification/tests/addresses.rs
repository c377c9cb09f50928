//! Address and network parsing, membership and rendering.

use netbat::ipv4::{Ipv4Addr, Ipv4Network};

#[test]
fn dotted_quad_value() {
    assert_eq!(Ipv4Addr::parse("192.168.1.1"), Ok(Ipv4Addr(0xC0A8_0101)));
    assert_eq!(Ipv4Addr::parse("0.0.0.0"), Ok(Ipv4Addr(0)));
    assert_eq!(Ipv4Addr::parse("255.255.255.255"), Ok(Ipv4Addr(u32::MAX)));
}

#[test]
fn octets_are_plain_digits_without_leading_zeros() {
    for bad in ["010.0.0.1", "10.00.0.1", "1.2.3.04", "+1.2.3.4", "1.+2.3.4", "1.2.3.4 ", "0x1.2.3.4"] {
        assert_eq!(
            Ipv4Addr::parse(bad),
            Err(format!("invalid IPv4 address: {bad}")),
            "input {bad:?}"
        );
    }
    assert_eq!(Ipv4Addr::parse("10.0.0.1"), Ok(Ipv4Addr(0x0A00_0001)));
    assert_eq!(Ipv4Addr::parse("0.0.0.0"), Ok(Ipv4Addr(0)));
}

#[test]
fn prefix_is_plain_digits() {
    for bad in ["10.0.0.0/+8", "10.0.0.0/-8", "10.0.0.0/ 8", "10.0.0.0/", "10.0.0.0/33"] {
        assert_eq!(
            Ipv4Network::parse(bad),
            Err(format!("invalid prefix length: {bad}")),
            "input {bad:?}"
        );
    }
    assert_eq!(Ipv4Network::parse("10.0.0.0/08"), Ipv4Network::parse("10.0.0.0/8"));
    assert_eq!(Ipv4Network::parse("10.0.0.0/08").unwrap().prefix, 8);
}

#[test]
fn malformed_addresses_are_rejected_with_message() {
    for bad in ["", "1.2.3", "1.2.3.4.5", "256.0.0.1", "a.b.c.d", "1..2.3", "1.2.3.-4", " 1.2.3.4"] {
        assert_eq!(
            Ipv4Addr::parse(bad),
            Err(format!("invalid IPv4 address: {bad}")),
            "input {bad:?}"
        );
    }
}

#[test]
fn network_masks_host_bits() {
    let n = Ipv4Network::parse("192.168.1.5/24").unwrap();
    assert_eq!(n.base, 0xC0A8_0100);
    assert_eq!(n.prefix, 24);
    assert_eq!(n, Ipv4Network::parse("192.168.1.0/24").unwrap());
}

#[test]
fn bare_address_is_host_route() {
    let n = Ipv4Network::parse("10.1.2.3").unwrap();
    assert_eq!(n.base, 0x0A01_0203);
    assert_eq!(n.prefix, 32);
}

#[test]
fn zero_prefix_matches_everything() {
    let n = Ipv4Network::parse("10.1.2.3/0").unwrap();
    assert_eq!(n, Ipv4Network::any());
    assert!(n.contains(Ipv4Addr(0)));
    assert!(n.contains(Ipv4Addr(u32::MAX)));
}

#[test]
fn prefix_errors_name_the_whole_input() {
    assert_eq!(
        Ipv4Network::parse("10.0.0.0/33"),
        Err("invalid prefix length: 10.0.0.0/33".to_string())
    );
    assert_eq!(
        Ipv4Network::parse("x/abc"),
        Err("invalid prefix length: x/abc".to_string())
    );
    assert_eq!(
        Ipv4Network::parse("10.0.0.0/"),
        Err("invalid prefix length: 10.0.0.0/".to_string())
    );
    assert_eq!(
        Ipv4Network::parse("10.0.0.0/8/8"),
        Err("invalid prefix length: 10.0.0.0/8/8".to_string())
    );
}

#[test]
fn address_errors_name_the_address_part() {
    assert_eq!(
        Ipv4Network::parse("10.0.0/8"),
        Err("invalid IPv4 address: 10.0.0".to_string())
    );
}

#[test]
fn network_contains_the_address_it_was_written_with() {
    for s in ["192.168.1.77/24", "10.9.8.7/8", "172.16.5.4/12", "1.2.3.4/32", "200.1.1.1/1"] {
        let n = Ipv4Network::parse(s).unwrap();
        let a = Ipv4Addr::parse(s.split('/').next().unwrap()).unwrap();
        assert!(n.contains(a), "{s}");
    }
}

#[test]
fn membership_boundaries() {
    let n = Ipv4Network::parse("203.0.113.0/30").unwrap();
    assert!(n.contains(Ipv4Addr::parse("203.0.113.0").unwrap()));
    assert!(n.contains(Ipv4Addr::parse("203.0.113.3").unwrap()));
    assert!(!n.contains(Ipv4Addr::parse("203.0.113.4").unwrap()));
    assert!(!n.contains(Ipv4Addr::parse("203.0.112.255").unwrap()));
}

#[test]
fn host_network_contains_only_itself() {
    let n = Ipv4Network::parse("10.0.0.1/32").unwrap();
    assert!(n.contains(Ipv4Addr(0x0A00_0001)));
    assert!(!n.contains(Ipv4Addr(0x0A00_0002)));
}

#[test]
fn rendering() {
    assert_eq!(Ipv4Addr(0).to_string(), "0.0.0.0");
    assert_eq!(Ipv4Addr(u32::MAX).to_string(), "255.255.255.255");
    assert_eq!(Ipv4Addr(0x0A00_0109).to_string(), "10.0.1.9");
    assert_eq!(Ipv4Network::parse("192.168.1.5/24").unwrap().to_string(), "192.168.1.0/24");
    assert_eq!(Ipv4Network::any().to_string(), "0.0.0.0/0");
}

#[test]
fn printed_addresses_parse_back() {
    for x in [0u32, 1, 9, 10, 99, 100, 255, 256, 0x0A00_0109, 0xC0A8_0101, 0x7F00_0001, u32::MAX] {
        let text = Ipv4Addr(x).to_string();
        assert_eq!(Ipv4Addr::parse(&text), Ok(Ipv4Addr(x)), "text {text:?}");
    }
}

#[test]
fn printed_networks_parse_back() {
    for s in ["0.0.0.0/0", "10.0.0.0/8", "192.168.1.0/24", "203.0.113.4/30", "10.1.2.3/32"] {
        let n = Ipv4Network::parse(s).unwrap();
        assert_eq!(n.to_string(), s);
        assert_eq!(Ipv4Network::parse(&n.to_string()), Ok(n));
    }
}
