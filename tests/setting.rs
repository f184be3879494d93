use broker::{parse_u64, timeout_setting, DEFAULT_TIMEOUT_SECS};

#[test]
fn timeout_defaults_when_unset() {
    assert_eq!(timeout_setting(None), 60);
    assert_eq!(DEFAULT_TIMEOUT_SECS, 60);
}

#[test]
fn timeout_reads_decimal() {
    assert_eq!(timeout_setting(Some("5")), 5);
    assert_eq!(timeout_setting(Some("+12")), 12);
    assert_eq!(timeout_setting(Some("007")), 7);
    assert_eq!(timeout_setting(Some("0")), 0);
}

#[test]
fn timeout_falls_back_on_invalid_text() {
    assert_eq!(timeout_setting(Some("")), 60);
    assert_eq!(timeout_setting(Some("+")), 60);
    assert_eq!(timeout_setting(Some("abc")), 60);
    assert_eq!(timeout_setting(Some("-3")), 60);
    assert_eq!(timeout_setting(Some("1 0")), 60);
}

#[test]
fn parse_u64_bounds() {
    assert_eq!(parse_u64("18446744073709551615"), Some(u64::MAX));
    assert_eq!(parse_u64("18446744073709551616"), None);
    assert_eq!(parse_u64("99999999999999999999"), None);
    for s in ["0", "42", "+7", "", "x1", "12a"] {
        assert_eq!(parse_u64(s), s.parse::<u64>().ok());
    }
}
