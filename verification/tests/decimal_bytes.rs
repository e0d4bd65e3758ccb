use gfa_injection::bytes::{bytes_eq, split_bytes, trim_ascii};
use gfa_injection::decimal::{format_dec, parse_dec};

#[test]
fn parse_dec_simple_values() {
    assert_eq!(parse_dec(b"0"), Some(0));
    assert_eq!(parse_dec(b"7"), Some(7));
    assert_eq!(parse_dec(b"1234567890"), Some(1234567890));
    assert_eq!(parse_dec(b"007"), Some(7));
}

#[test]
fn parse_dec_limits() {
    assert_eq!(parse_dec(b"18446744073709551615"), Some(u64::MAX));
    assert_eq!(parse_dec(b"18446744073709551616"), None);
    assert_eq!(parse_dec(b"99999999999999999999999"), None);
}

#[test]
fn parse_dec_rejects_non_digits() {
    assert_eq!(parse_dec(b""), None);
    assert_eq!(parse_dec(b"12a"), None);
    assert_eq!(parse_dec(b"+5"), None);
    assert_eq!(parse_dec(b"-5"), None);
    assert_eq!(parse_dec(b" 5"), None);
}

#[test]
fn format_dec_values() {
    assert_eq!(format_dec(0), b"0".to_vec());
    assert_eq!(format_dec(7), b"7".to_vec());
    assert_eq!(format_dec(1234567890), b"1234567890".to_vec());
    assert_eq!(format_dec(u64::MAX), b"18446744073709551615".to_vec());
}

#[test]
fn format_then_parse_round_trips() {
    for n in [0u64, 1, 9, 10, 99, 100, 4294967295, u64::MAX] {
        assert_eq!(parse_dec(&format_dec(n)), Some(n));
    }
}

#[test]
fn trim_ascii_strips_both_ends() {
    assert_eq!(trim_ascii(b"  chr1\t\n"), b"chr1".to_vec());
    assert_eq!(trim_ascii(b"x"), b"x".to_vec());
    assert_eq!(trim_ascii(b"   "), Vec::<u8>::new());
    assert_eq!(trim_ascii(b""), Vec::<u8>::new());
    assert_eq!(trim_ascii(b"a b"), b"a b".to_vec());
}

#[test]
fn split_bytes_fields() {
    let parts = split_bytes(b"a,,b", b',');
    assert_eq!(parts, vec![b"a".to_vec(), b"".to_vec(), b"b".to_vec()]);
    let parts = split_bytes(b"", b',');
    assert_eq!(parts, vec![b"".to_vec()]);
    let parts = split_bytes(b"one", b',');
    assert_eq!(parts, vec![b"one".to_vec()]);
    let parts = split_bytes(b",x,", b',');
    assert_eq!(parts, vec![b"".to_vec(), b"x".to_vec(), b"".to_vec()]);
}

#[test]
fn bytes_eq_compares_contents() {
    assert!(bytes_eq(b"chr1", b"chr1"));
    assert!(!bytes_eq(b"chr1", b"chr2"));
    assert!(!bytes_eq(b"chr1", b"chr10"));
    assert!(bytes_eq(b"", b""));
}
