use nexus::text::{
    bytes_eq, bytes_suffix, contains_bytes, parse_u64, split_bytes, starts_with_bytes, trim_bytes,
    u64_to_dec,
};

#[test]
fn trim_removes_both_ends() {
    assert_eq!(trim_bytes(b"  hello \t"), b"hello".to_vec());
    assert_eq!(trim_bytes(b"\r\n"), Vec::<u8>::new());
    assert_eq!(trim_bytes(b"x"), b"x".to_vec());
    assert_eq!(trim_bytes(b""), Vec::<u8>::new());
}

#[test]
fn parse_u64_reads_decimals() {
    assert_eq!(parse_u64(b"0"), Some(0));
    assert_eq!(parse_u64(b"123"), Some(123));
    assert_eq!(parse_u64(b"18446744073709551615"), Some(u64::MAX));
}

#[test]
fn parse_u64_rejects_junk() {
    assert_eq!(parse_u64(b""), None);
    assert_eq!(parse_u64(b"12a"), None);
    assert_eq!(parse_u64(b"-3"), None);
    assert_eq!(parse_u64(b" 7"), None);
    // one past u64::MAX
    assert_eq!(parse_u64(b"18446744073709551616"), None);
}

#[test]
fn u64_to_dec_writes_decimals() {
    assert_eq!(u64_to_dec(0), b"0".to_vec());
    assert_eq!(u64_to_dec(7), b"7".to_vec());
    assert_eq!(u64_to_dec(1234), b"1234".to_vec());
    assert_eq!(u64_to_dec(u64::MAX), b"18446744073709551615".to_vec());
}

#[test]
fn split_keeps_empty_fields() {
    let parts = split_bytes(b"a,,b", b',');
    assert_eq!(parts, vec![b"a".to_vec(), b"".to_vec(), b"b".to_vec()]);
    let parts = split_bytes(b"", b',');
    assert_eq!(parts, vec![b"".to_vec()]);
    let parts = split_bytes(b"x,", b',');
    assert_eq!(parts, vec![b"x".to_vec(), b"".to_vec()]);
}

#[test]
fn contains_finds_runs() {
    assert!(contains_bytes(b"abcdef", b"cde"));
    assert!(!contains_bytes(b"abcdef", b"ce"));
    assert!(contains_bytes(b"abc", b""));
    assert!(!contains_bytes(b"ab", b"abc"));
}

#[test]
fn starts_with_checks_prefix() {
    assert!(starts_with_bytes(b"nexus_job_x", b"nexus_job_"));
    assert!(!starts_with_bytes(b"nexusjob", b"nexus_job_"));
}

#[test]
fn bytes_helpers() {
    assert!(bytes_eq(b"abc", b"abc"));
    assert!(!bytes_eq(b"abc", b"abd"));
    assert_eq!(bytes_suffix(b"nexus_job_ab", 10), b"ab".to_vec());
}
