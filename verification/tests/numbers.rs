use pulsar::frontend::ast::{i64_text, usize_text};
use pulsar::frontend::parser::parse_i64;

#[test]
fn decimal_texts() {
    assert_eq!(usize_text(0), "0");
    assert_eq!(usize_text(907), "907");
    assert_eq!(usize_text(usize::MAX), usize::MAX.to_string());
    assert_eq!(i64_text(-42), "-42");
    assert_eq!(i64_text(i64::MIN), "-9223372036854775808");
    assert_eq!(i64_text(i64::MAX), "9223372036854775807");
}

#[test]
fn signed_integers_parse_within_range() {
    assert_eq!(parse_i64("12"), Some(12));
    assert_eq!(parse_i64("+12"), Some(12));
    assert_eq!(parse_i64("-0"), Some(0));
    assert_eq!(parse_i64("-9223372036854775808"), Some(i64::MIN));
    assert_eq!(parse_i64("9223372036854775807"), Some(i64::MAX));
    assert_eq!(parse_i64("9223372036854775808"), None);
    assert_eq!(parse_i64("-9223372036854775809"), None);
    assert_eq!(parse_i64("99999999999999999999999"), None);
    assert_eq!(parse_i64(""), None);
    assert_eq!(parse_i64("-"), None);
    assert_eq!(parse_i64("1a"), None);
    assert_eq!(parse_i64("a1"), None);
}
