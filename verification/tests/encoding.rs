//! The verified hexadecimal and decimal codecs.

use pollcore::digits::{format_dec, parse_dec};
use pollcore::hexstr::{hex_decode, hex_encode};

#[test]
fn hex_encode_is_lowercase_two_digits_per_byte() {
    assert_eq!(hex_encode(&[]), "");
    assert_eq!(hex_encode(&[0]), "00");
    assert_eq!(hex_encode(&[0xab]), "ab");
    assert_eq!(hex_encode(&[0x00, 0xff, 0x10]), "00ff10");
}

#[test]
fn hex_decode_inverts_encode() {
    let bytes = vec![0u8, 1, 15, 16, 127, 128, 255];
    let s = hex_encode(&bytes);
    assert_eq!(hex_decode(&s), Some(bytes));
}

#[test]
fn hex_decode_accepts_both_cases() {
    assert_eq!(hex_decode("AB"), Some(vec![0xab]));
    assert_eq!(hex_decode("aB"), Some(vec![0xab]));
    assert_eq!(hex_decode("00ff10"), Some(vec![0x00, 0xff, 0x10]));
}

#[test]
fn hex_decode_rejects_junk() {
    assert_eq!(hex_decode("0"), None);
    assert_eq!(hex_decode("0g"), None);
    assert_eq!(hex_decode("abc"), None);
    assert_eq!(hex_decode("caf\u{e9}"), None);
    assert_eq!(hex_decode(" 00"), None);
    assert_eq!(hex_decode(""), Some(Vec::new()));
}

#[test]
fn decimal_format_exact() {
    assert_eq!(format_dec(0), b"0".to_vec());
    assert_eq!(format_dec(7), b"7".to_vec());
    assert_eq!(format_dec(1234567), b"1234567".to_vec());
    assert_eq!(format_dec(i64::MAX), b"9223372036854775807".to_vec());
}

#[test]
fn decimal_parse_exact() {
    assert_eq!(parse_dec(b"0"), Some(0));
    assert_eq!(parse_dec(b"007"), Some(7));
    assert_eq!(parse_dec(b"9223372036854775807"), Some(i64::MAX));
    assert_eq!(parse_dec(b"9223372036854775808"), None);
    assert_eq!(parse_dec(b"99999999999999999999"), None);
    assert_eq!(parse_dec(b""), None);
    assert_eq!(parse_dec(b"12a"), None);
    assert_eq!(parse_dec(b"-3"), None);
}
