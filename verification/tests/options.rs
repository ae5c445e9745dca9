use ipscan::config::{
    normalize_cli_args, parse_concurrency, parse_port, parse_protocol, parse_timeout,
    judge_target_answer, protocol_from_upper, resolve_input, Args, Protocol, TargetAnswer,
};
use ipscan::hex::HexPayload;

fn args() -> Args {
    Args {
        ip: None,
        protocol: None,
        port: None,
        source_port: None,
        timeout: None,
        concurrency: None,
        output: None,
        data: String::new(),
        nec: false,
    }
}

#[test]
fn protocol_names_in_any_case() {
    assert_eq!(parse_protocol("tcp"), Some(Protocol::Tcp));
    assert_eq!(parse_protocol("Udp"), Some(Protocol::Udp));
    assert_eq!(parse_protocol("icmp"), None);
    assert_eq!(parse_protocol(" tcp"), None);
}

#[test]
fn protocol_from_upper_is_exact() {
    assert_eq!(protocol_from_upper("TCP"), Some(Protocol::Tcp));
    assert_eq!(protocol_from_upper("UDP"), Some(Protocol::Udp));
    assert_eq!(protocol_from_upper("tcp"), None);
}

#[test]
fn ports() {
    assert_eq!(parse_port("80"), Some(80));
    assert_eq!(parse_port("65535"), Some(65535));
    assert_eq!(parse_port("65536"), None);
    assert_eq!(parse_port("0"), None);
    assert_eq!(parse_port("+22"), Some(22));
    assert_eq!(parse_port(""), None);
    assert_eq!(parse_port("8o"), None);
}

#[test]
fn timeouts() {
    assert_eq!(parse_timeout("1000"), Some(1000));
    assert_eq!(parse_timeout("18446744073709551615"), Some(u64::MAX));
    assert_eq!(parse_timeout("18446744073709551616"), None);
    assert_eq!(parse_timeout("0"), None);
}

#[test]
fn concurrency_limits() {
    assert_eq!(parse_concurrency("200"), Some(200));
    assert_eq!(parse_concurrency("0"), None);
    assert_eq!(parse_concurrency("-1"), None);
}

#[test]
fn prompt_answers() {
    assert_eq!(resolve_input("  42 \n", None), "42");
    assert_eq!(resolve_input(" \n", Some("TCP")), "TCP");
    assert_eq!(resolve_input("\n", None), "");
}

#[test]
fn short_nec_flag_is_normalized() {
    let given = vec!["ipscan".to_string(), "-nec".to_string(), "-p".to_string(), "3530".to_string()];
    assert_eq!(normalize_cli_args(given), vec!["ipscan", "--nec", "-p", "3530"]);
}

#[test]
fn command_line_choices() {
    let mut a = args();
    assert_eq!(a.protocol_choice(), None);
    assert_eq!(a.port_choice(), None);
    assert_eq!(a.source_port_or_any(), 0);
    a.protocol = Some("udp".to_string());
    a.port = Some(0);
    a.source_port = Some(20111);
    assert_eq!(a.protocol_choice(), Some(Protocol::Udp));
    assert_eq!(a.port_choice(), None);
    assert_eq!(a.source_port_or_any(), 20111);
    a.port = Some(3530);
    assert_eq!(a.port_choice(), Some(3530));
}

#[test]
fn udp_payload_choice() {
    let mut a = args();
    assert!(matches!(a.udp_payload(), HexPayload::Decoded(v) if v.is_empty()));
    a.data = "AA BB".to_string();
    assert!(matches!(a.udp_payload(), HexPayload::Decoded(v) if v == vec![0xaa, 0xbb]));
    a.data = "xyz".to_string();
    assert!(matches!(a.udp_payload(), HexPayload::Invalid));
    a.nec = true;
    assert!(matches!(a.udp_payload(), HexPayload::Decoded(v) if v == vec![1, 1, 0, 8, 1, 0x26, 0, 0x8f, 0x0a, 0x17, 0x03, 0xf1]));
}

#[test]
fn target_answers() {
    assert_eq!(judge_target_answer("", None), TargetAnswer::EmptyInput);
    assert_eq!(judge_target_answer("bad", None), TargetAnswer::Refused);
    assert_eq!(judge_target_answer("10.0.0.0/32", Some(0)), TargetAnswer::NoAddresses);
    assert_eq!(judge_target_answer("10.0.0.1", Some(1)), TargetAnswer::Accepted);
}
