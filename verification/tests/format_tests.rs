use flynn_kernel::format::{decimal, format_u32, format_u64, parse_u32};

#[test]
fn decimal_of_zero_is_single_digit() {
    assert_eq!(decimal(0), b"0".to_vec());
}

#[test]
fn decimal_of_max_u64() {
    assert_eq!(decimal(u64::MAX), b"18446744073709551615".to_vec());
}

#[test]
fn format_u32_writes_prefix_only() {
    let mut buf = [b'x'; 12];
    let n = format_u32(4096, &mut buf);
    assert_eq!(n, 4);
    assert_eq!(&buf[..4], b"4096");
    assert_eq!(&buf[4..], b"xxxxxxxx");
}

#[test]
fn format_u64_of_zero() {
    let mut buf = [0u8; 20];
    assert_eq!(format_u64(0, &mut buf), 1);
    assert_eq!(buf[0], b'0');
}

#[test]
fn parse_u32_accepts_plus_and_digits() {
    assert_eq!(parse_u32(b"42"), Some(42));
    assert_eq!(parse_u32(b"+7"), Some(7));
    assert_eq!(parse_u32(b"4294967295"), Some(u32::MAX));
}

#[test]
fn parse_u32_rejects_bad_input() {
    assert_eq!(parse_u32(b""), None);
    assert_eq!(parse_u32(b"+"), None);
    assert_eq!(parse_u32(b"-1"), None);
    assert_eq!(parse_u32(b"12a"), None);
    assert_eq!(parse_u32(b" 1"), None);
    assert_eq!(parse_u32(b"4294967296"), None);
}

#[test]
fn parse_reads_back_decimal() {
    for n in [0u32, 9, 10, 65535, 123456789, u32::MAX] {
        assert_eq!(parse_u32(&decimal(n as u64)), Some(n));
    }
}
