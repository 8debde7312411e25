use bevy_realtime::decimal::{format_u64, parse_u64};

#[test]
fn format_writes_plain_digits() {
    assert_eq!(format_u64(0), "0");
    assert_eq!(format_u64(7), "7");
    assert_eq!(format_u64(10), "10");
    assert_eq!(format_u64(31339675), "31339675");
    assert_eq!(format_u64(u64::MAX), "18446744073709551615");
}

#[test]
fn parse_reads_what_format_writes() {
    for n in [0u64, 1, 9, 10, 99, 100, 12345, 31339675, u64::MAX - 1, u64::MAX] {
        assert_eq!(parse_u64(&format_u64(n)), Some(n));
    }
}

#[test]
fn parse_rejects_what_is_no_plain_number() {
    assert_eq!(parse_u64(""), None);
    assert_eq!(parse_u64("01"), None);
    assert_eq!(parse_u64("00"), None);
    assert_eq!(parse_u64("-1"), None);
    assert_eq!(parse_u64("+1"), None);
    assert_eq!(parse_u64("1.5"), None);
    assert_eq!(parse_u64("12a"), None);
    assert_eq!(parse_u64(" 12"), None);
    assert_eq!(parse_u64("１２"), None);
    assert_eq!(parse_u64("18446744073709551616"), None);
    assert_eq!(parse_u64("99999999999999999999999"), None);
    assert_eq!(parse_u64("0"), Some(0));
    assert_eq!(parse_u64("18446744073709551615"), Some(u64::MAX));
}
