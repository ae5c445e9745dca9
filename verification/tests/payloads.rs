use ipscan::hex::{decode_hex_payload, parse_hex, HexPayload};
use ipscan::scan::nec_payload;

#[test]
fn hex_with_spaces_decodes() {
    assert_eq!(parse_hex("AA BB CC DD"), Some(vec![0xaa, 0xbb, 0xcc, 0xdd]));
}

#[test]
fn hex_with_tabs_and_newlines_decodes() {
    assert_eq!(parse_hex("\tab\n0F \u{3000}"), Some(vec![0xab, 0x0f]));
}

#[test]
fn nec_template_is_its_hex_text() {
    assert_eq!(parse_hex("010100080126008f0a1703f1"), Some(nec_payload()));
}

#[test]
fn hex_of_odd_length_is_refused() {
    assert_eq!(parse_hex("abc"), None);
}

#[test]
fn hex_with_non_digits_is_refused() {
    assert_eq!(parse_hex("zz"), None);
    assert_eq!(parse_hex("0g"), None);
    assert_eq!(parse_hex("-1"), None);
}

#[test]
fn hex_chunk_with_plus_sign_is_refused() {
    assert_eq!(parse_hex("+a"), None);
    assert_eq!(parse_hex("+f"), None);
    assert_eq!(parse_hex("++"), None);
    assert_eq!(parse_hex("0x1F"), None);
}

#[test]
fn hex_digits_in_either_case() {
    assert_eq!(parse_hex("aB"), Some(vec![0xab]));
    assert_eq!(parse_hex("ab"), parse_hex("AB"));
}

#[test]
fn whitespace_between_digits_of_a_byte() {
    assert_eq!(parse_hex("0 1"), Some(vec![0x01]));
    assert_eq!(parse_hex("0 1"), parse_hex("01"));
}

#[test]
fn empty_hex_is_empty_payload() {
    assert_eq!(parse_hex(""), Some(vec![]));
    assert_eq!(parse_hex("   "), Some(vec![]));
}

#[test]
fn two_byte_character_is_invalid() {
    assert!(matches!(decode_hex_payload("é"), HexPayload::Invalid));
    assert_eq!(parse_hex("é"), None);
}

#[test]
fn chunk_ending_inside_a_character_is_reported() {
    assert!(matches!(decode_hex_payload("aé0"), HexPayload::SplitsChar));
    assert!(matches!(decode_hex_payload("€0"), HexPayload::SplitsChar));
    assert!(matches!(decode_hex_payload("zzaé0"), HexPayload::Invalid));
}

#[test]
fn hex_roundtrip() {
    let bytes: Vec<u8> = (0..=255u8).collect();
    let text: String = bytes.iter().map(|b| format!("{:02x}", b)).collect();
    assert_eq!(parse_hex(&text), Some(bytes.clone()));
    let upper: String = bytes.iter().map(|b| format!("{:02X}", b)).collect();
    assert_eq!(parse_hex(&upper), Some(bytes.clone()));
    let spaced: String = bytes.iter().map(|b| format!("{:02X} ", b)).collect();
    assert_eq!(parse_hex(&spaced), Some(bytes));
}
