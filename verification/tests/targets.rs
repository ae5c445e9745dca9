use ipscan::addr::{sort_addresses, IpAddress};
use ipscan::range::{
    expand_target, ip_range_between, network_hosts, parse_ip_address, parse_ip_range, CidrBlock,
    RangeError,
};

fn v4(a: u8, b: u8, c: u8, d: u8) -> IpAddress {
    IpAddress::V4(u32::from_be_bytes([a, b, c, d]))
}

fn groups(gs: [u16; 8]) -> IpAddress {
    IpAddress::V6(gs.iter().fold(0u128, |acc, g| (acc << 16) | *g as u128))
}

#[test]
fn cidr_block_of_24_has_254_hosts() {
    let ips = parse_ip_range("192.168.1.0/24").unwrap();
    assert_eq!(ips.len(), 254);
    assert_eq!(ips[0], v4(192, 168, 1, 1));
    assert_eq!(ips[253], v4(192, 168, 1, 254));
}

#[test]
fn cidr_small_blocks_follow_ipnet_hosts() {
    assert_eq!(parse_ip_range("10.0.0.0/30").unwrap(), vec![v4(10, 0, 0, 1), v4(10, 0, 0, 2)]);
    assert_eq!(parse_ip_range("10.0.0.0/31").unwrap(), vec![v4(10, 0, 0, 0), v4(10, 0, 0, 1)]);
    assert_eq!(parse_ip_range("10.0.0.7/32").unwrap(), vec![v4(10, 0, 0, 7)]);
    let v6 = parse_ip_range("fd00::/126").unwrap();
    let base: u128 = 0xfd00u128 << 112;
    assert_eq!(
        v6,
        vec![
            IpAddress::V6(base),
            IpAddress::V6(base + 1),
            IpAddress::V6(base + 2),
            IpAddress::V6(base + 3)
        ]
    );
}

#[test]
fn cidr_hosts_agree_with_ipnet() {
    for text in ["172.16.5.77/22", "10.1.2.3/29", "192.168.0.0/28", "fd00:1234::/120", "2001:db8::5/127"] {
        let net: ipnet::IpNet = text.parse().unwrap();
        let expected: Vec<IpAddress> =
            net.hosts().map(|h| parse_ip_address(&h.to_string()).unwrap()).collect();
        assert_eq!(parse_ip_range(text).unwrap(), expected, "{}", text);
    }
}

#[test]
fn cidr_with_surrounding_whitespace() {
    assert_eq!(parse_ip_range("  10.0.0.0/30 \n").unwrap(), vec![v4(10, 0, 0, 1), v4(10, 0, 0, 2)]);
}

#[test]
fn last_octet_range_counts_inclusive() {
    let ips = parse_ip_range("192.168.1.1-100").unwrap();
    assert_eq!(ips.len(), 100);
    assert_eq!(ips[0], v4(192, 168, 1, 1));
    assert_eq!(ips[99], v4(192, 168, 1, 100));
}

#[test]
fn last_octet_range_equals_full_range() {
    assert_eq!(
        parse_ip_range("192.168.1.5-9").unwrap(),
        parse_ip_range("192.168.1.5-192.168.1.9").unwrap()
    );
}

#[test]
fn last_octet_accepts_plus_and_leading_zeros() {
    assert_eq!(parse_ip_range("10.0.0.1-+003").unwrap(), vec![v4(10, 0, 0, 1), v4(10, 0, 0, 2), v4(10, 0, 0, 3)]);
}

#[test]
fn last_octet_below_start_is_refused() {
    assert_eq!(
        parse_ip_range("192.168.1.10-5"),
        Err(RangeError::EndOctetBelowStart { end: 5, start: 10 })
    );
}

#[test]
fn full_range_with_spaces() {
    let ips = parse_ip_range("10.0.0.254 - 10.0.1.1").unwrap();
    assert_eq!(ips, vec![v4(10, 0, 0, 254), v4(10, 0, 0, 255), v4(10, 0, 1, 0), v4(10, 0, 1, 1)]);
}

#[test]
fn range_start_after_end_is_refused() {
    assert_eq!(parse_ip_range("10.0.0.5-10.0.0.1"), Err(RangeError::StartAfterEnd));
}

#[test]
fn range_of_mixed_families_is_refused() {
    assert_eq!(parse_ip_range("::1-1.2.3.4"), Err(RangeError::VersionMismatch));
}

#[test]
fn ipv6_range_limit() {
    assert_eq!(parse_ip_range("::1-::ffff:ffff"), Err(RangeError::Ipv6RangeTooLarge));
    assert_eq!(parse_ip_range("::0-::1:86a0").unwrap().len(), 100_001);
    assert_eq!(parse_ip_range("::0-::1:86a1"), Err(RangeError::Ipv6RangeTooLarge));
}

#[test]
fn ipv6_start_with_octet_end_is_not_a_range() {
    assert_eq!(parse_ip_range("::1-5"), Err(RangeError::Unrecognized));
}

#[test]
fn two_dashes_are_not_a_range() {
    assert_eq!(parse_ip_range("1.2.3.4-5-6"), Err(RangeError::Unrecognized));
}

#[test]
fn single_addresses() {
    assert_eq!(parse_ip_range(" 192.168.1.1 ").unwrap(), vec![v4(192, 168, 1, 1)]);
    assert_eq!(parse_ip_range("::1").unwrap(), vec![IpAddress::V6(1)]);
}

#[test]
fn host_names_are_left_unrecognized() {
    assert_eq!(parse_ip_range("localhost"), Err(RangeError::Unrecognized));
    assert_eq!(parse_ip_range(""), Err(RangeError::Unrecognized));
}

#[test]
fn ip_range_between_examples() {
    assert_eq!(ip_range_between(v4(1, 1, 1, 1), v4(1, 1, 1, 1)).unwrap(), vec![v4(1, 1, 1, 1)]);
    assert_eq!(
        ip_range_between(IpAddress::V4(u32::MAX - 1), IpAddress::V4(u32::MAX)).unwrap(),
        vec![IpAddress::V4(u32::MAX - 1), IpAddress::V4(u32::MAX)]
    );
    assert_eq!(
        ip_range_between(IpAddress::V6(u128::MAX), IpAddress::V6(u128::MAX)).unwrap(),
        vec![IpAddress::V6(u128::MAX)]
    );
    assert_eq!(ip_range_between(IpAddress::V6(0), v4(0, 0, 0, 0)), Err(RangeError::VersionMismatch));
}

#[test]
fn network_hosts_of_given_blocks() {
    let b = CidrBlock { addr: v4(10, 9, 6, 77), prefix_len: 24 };
    let hosts = network_hosts(b);
    assert_eq!(hosts.len(), 254);
    assert_eq!(hosts[0], v4(10, 9, 6, 1));
    let wide = network_hosts(CidrBlock { addr: v4(172, 16, 200, 5), prefix_len: 16 });
    assert_eq!(wide.len(), 65534);
    assert_eq!(wide[0], v4(172, 16, 0, 1));
    assert_eq!(wide[65533], v4(172, 16, 255, 254));
}

#[test]
fn expand_target_follows_the_cidr_reading() {
    let b = CidrBlock { addr: v4(10, 0, 0, 0), prefix_len: 30 };
    assert_eq!(expand_target(Some(b), "ignored").unwrap(), vec![v4(10, 0, 0, 1), v4(10, 0, 0, 2)]);
    assert_eq!(expand_target(None, " 1.2.3.4-5 ").unwrap(), vec![v4(1, 2, 3, 4), v4(1, 2, 3, 5)]);
}

#[test]
fn dotted_quads() {
    assert_eq!(parse_ip_address("0.0.0.0"), Some(IpAddress::V4(0)));
    assert_eq!(parse_ip_address("255.255.255.255"), Some(IpAddress::V4(u32::MAX)));
    assert_eq!(parse_ip_address("1.2.3.4"), Some(v4(1, 2, 3, 4)));
    assert_eq!(parse_ip_address("1.2.3.0"), Some(v4(1, 2, 3, 0)));
    for bad in [
        "01.2.3.4", "1.2.3", "1.2.3.4.5", "256.1.1.1", "1.2.3.04", "1..2.3", "1.2.3.4 ",
        "+1.2.3.4", "1.2.3.1000", "", ".", "1.2.3.\u{664}",
    ] {
        assert_eq!(parse_ip_address(bad), None, "{:?}", bad);
    }
}

#[test]
fn ipv6_addresses() {
    assert_eq!(parse_ip_address("::"), Some(IpAddress::V6(0)));
    assert_eq!(parse_ip_address("::1"), Some(IpAddress::V6(1)));
    assert_eq!(parse_ip_address("1::"), Some(groups([1, 0, 0, 0, 0, 0, 0, 0])));
    assert_eq!(parse_ip_address("1::2"), Some(groups([1, 0, 0, 0, 0, 0, 0, 2])));
    assert_eq!(parse_ip_address("1:2:3:4:5:6:7:8"), Some(groups([1, 2, 3, 4, 5, 6, 7, 8])));
    assert_eq!(parse_ip_address("1:2:3:4:5:6:7::"), Some(groups([1, 2, 3, 4, 5, 6, 7, 0])));
    assert_eq!(parse_ip_address("::1:2:3:4:5:6:7"), Some(groups([0, 1, 2, 3, 4, 5, 6, 7])));
    assert_eq!(parse_ip_address("1:2:3::4:5:6:7"), Some(groups([1, 2, 3, 0, 4, 5, 6, 7])));
    assert_eq!(parse_ip_address("FFFF::ffff"), Some(groups([0xffff, 0, 0, 0, 0, 0, 0, 0xffff])));
    assert_eq!(parse_ip_address("0000:0000::"), Some(IpAddress::V6(0)));
    assert_eq!(parse_ip_address("1:2:3:4:5:6:1.2.3.4"), Some(groups([1, 2, 3, 4, 5, 6, 0x0102, 0x0304])));
    assert_eq!(parse_ip_address("::ffff:192.168.0.1"), Some(IpAddress::V6(0xffff_c0a8_0001)));
    assert_eq!(parse_ip_address("::1.2.3.4"), Some(IpAddress::V6(0x0102_0304)));
    assert_eq!(
        parse_ip_address("a:b:c:d:e:f:1.2.3.4"),
        Some(groups([0xa, 0xb, 0xc, 0xd, 0xe, 0xf, 0x0102, 0x0304]))
    );
    assert_eq!(
        parse_ip_address("1::2:3:4:5:1.2.3.4"),
        Some(groups([1, 0, 2, 3, 4, 5, 0x0102, 0x0304]))
    );
    for bad in [
        ":::1", "1:::2", "1:2:3:4:5:6:7:8:9", "1:2:3:4:5:6:7", "::1:2:3:4:5:6:7:8",
        "1:2:3:4:5:1.2.3.4", "1.2.3.4::", "::1.2.3.4:5", "1:2:3:4:5:6:7:1.2.3.4", "1::2::3",
        "fe80::1%eth0", "12345::", "1:2:3::4:5:6:7:8", ":1::2", "1:", ":", "::1.2.3",
        "::1.2.3.256", "::ffff:1.2.3.04", "1::2:3:4:5:6:1.2.3.4", "g::1", "::\u{e9}",
    ] {
        assert_eq!(parse_ip_address(bad), None, "{:?}", bad);
    }
}

#[test]
fn sorted_addresses_put_ipv4_first() {
    let v = vec![IpAddress::V6(1), v4(10, 0, 0, 2), v4(1, 0, 0, 0), IpAddress::V6(0), v4(10, 0, 0, 2)];
    let sorted = sort_addresses(v);
    assert_eq!(sorted, vec![v4(1, 0, 0, 0), v4(10, 0, 0, 2), v4(10, 0, 0, 2), IpAddress::V6(0), IpAddress::V6(1)]);
}


#[test]
fn refusal_messages() {
    assert_eq!(
        parse_ip_range("10.0.0.5-3").unwrap_err().message(),
        "End octet (3) must be greater than or equal to start octet (5)"
    );
    assert_eq!(
        RangeError::EndOctetBelowStart { end: 0, start: 255 }.message(),
        "End octet (0) must be greater than or equal to start octet (255)"
    );
    assert_eq!(
        RangeError::EndOctetBelowStart { end: 17, start: 100 }.message(),
        "End octet (17) must be greater than or equal to start octet (100)"
    );
    assert_eq!(
        ip_range_between(IpAddress::V6(0), IpAddress::V6(100_001)).unwrap_err().message(),
        "IPv6 range is too large (maximum size is 100,000 addresses)"
    );
    assert_eq!(
        ip_range_between(v4(192, 168, 1, 1), IpAddress::V6(1)).unwrap_err().message(),
        "IP version mismatch (cannot mix IPv4 and IPv6 in range)"
    );
    assert_eq!(
        ip_range_between(v4(10, 0, 0, 2), v4(10, 0, 0, 1)).unwrap_err().message(),
        "Start IP must be less than or equal to End IP"
    );
    assert_eq!(
        parse_ip_range("localhost").unwrap_err().message(),
        "Invalid IP/Host format. Supported options: single IP (e.g., 192.168.1.1), domain (e.g., localhost), CIDR (e.g., 192.168.1.0/24), IP range (e.g., 192.168.1.1-50)"
    );
}
