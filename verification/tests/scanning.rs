use ipscan::addr::IpAddress;
use ipscan::scan::{needs_local_address, nec_payload, target_payload, udp_bind_address, unspecified_like, ReplyTracker};

#[test]
fn bind_addresses() {
    assert_eq!(unspecified_like(IpAddress::V4(7)), IpAddress::V4(0));
    assert_eq!(unspecified_like(IpAddress::V6(7)), IpAddress::V6(0));
    assert_eq!(udp_bind_address(&vec![]), IpAddress::V4(0));
    assert_eq!(udp_bind_address(&vec![IpAddress::V6(1), IpAddress::V4(1)]), IpAddress::V6(0));
    assert_eq!(udp_bind_address(&vec![IpAddress::V4(1), IpAddress::V6(1)]), IpAddress::V4(0));
}

#[test]
fn nec_payload_carries_local_address() {
    let p = nec_payload();
    assert!(needs_local_address(true, &p));
    assert!(!needs_local_address(false, &p));
    let local = IpAddress::V4(u32::from_be_bytes([10, 9, 6, 200]));
    let out = target_payload(&p, true, Some(local));
    assert_eq!(out, vec![1, 1, 0, 8, 1, 0x26, 0, 0x8f, 10, 9, 6, 200]);
}

#[test]
fn payload_unchanged_without_ipv4_local_address() {
    let p = nec_payload();
    assert_eq!(target_payload(&p, true, None), p);
    assert_eq!(target_payload(&p, true, Some(IpAddress::V6(1))), p);
    assert_eq!(target_payload(&p, false, Some(IpAddress::V4(1))), p);
    let short = vec![1u8, 2, 3];
    assert_eq!(target_payload(&short, true, Some(IpAddress::V4(1))), short);
}

#[test]
fn replies_are_recorded_once_and_only_from_targets() {
    let targets = vec![IpAddress::V4(1), IpAddress::V4(2), IpAddress::V6(1)];
    let mut t = ReplyTracker::new(&targets);
    assert!(t.record(IpAddress::V4(2)));
    assert!(!t.record(IpAddress::V4(2)));
    assert!(!t.record(IpAddress::V4(3)));
    assert!(t.record(IpAddress::V6(1)));
    assert!(!t.record(IpAddress::V6(2)));
    assert_eq!(t.replied(), vec![IpAddress::V4(2), IpAddress::V6(1)]);
}
