use gafpack::scan::{bytes_eq, parse_u64, split_bytes_by, trim_bytes};

#[test]
fn parse_u64_accepts_decimals() {
    assert_eq!(parse_u64(b"0"), Some(0));
    assert_eq!(parse_u64(b"123"), Some(123));
    assert_eq!(parse_u64(b"007"), Some(7));
    assert_eq!(parse_u64(b"18446744073709551615"), Some(u64::MAX));
}

#[test]
fn parse_u64_rejects_non_decimals() {
    assert_eq!(parse_u64(b""), None);
    assert_eq!(parse_u64(b"12a"), None);
    assert_eq!(parse_u64(b"-3"), None);
    assert_eq!(parse_u64(b" 3"), None);
    // one past u64::MAX
    assert_eq!(parse_u64(b"18446744073709551616"), None);
}

#[test]
fn splitting_keeps_empty_pieces() {
    let (parts, seps) = split_bytes_by(b"a\t\tbc", false);
    assert_eq!(parts, vec![b"a".to_vec(), b"".to_vec(), b"bc".to_vec()]);
    assert_eq!(seps, vec![9, 9]);

    let (parts, seps) = split_bytes_by(b">12<34", true);
    assert_eq!(parts, vec![b"".to_vec(), b"12".to_vec(), b"34".to_vec()]);
    assert_eq!(seps, vec![62, 60]);
}

#[test]
fn trimming_strips_surrounding_whitespace() {
    assert_eq!(trim_bytes(b"  S\t1\tAC \r\n"), b"S\t1\tAC");
    assert_eq!(trim_bytes(b"\t\n \r"), b"");
    assert_eq!(trim_bytes(b"x"), b"x");
}

#[test]
fn byte_equality() {
    assert!(bytes_eq(b"", b""));
    assert!(bytes_eq(b"abc", b"abc"));
    assert!(!bytes_eq(b"abc", b"abd"));
    assert!(!bytes_eq(b"abc", b"ab"));
}
