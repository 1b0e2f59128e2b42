//! Decimal formatting and strict integer parsing.

use xunmi::numeric::{i64_to_string, number_to_string, parse_i64_neg_text, parse_u64_text,
    u64_to_string};
use xunmi::parse::number_from_text;
use xunmi::JsonNumber;

#[test]
fn unsigned_values_format_as_decimal_text() {
    assert_eq!(u64_to_string(0), "0".to_string());
    assert_eq!(u64_to_string(7), "7".to_string());
    assert_eq!(u64_to_string(1024), "1024".to_string());
    assert_eq!(
        u64_to_string(u64::MAX),
        "18446744073709551615".to_string()
    );
}

#[test]
fn signed_values_format_as_decimal_text() {
    assert_eq!(i64_to_string(0), "0".to_string());
    assert_eq!(i64_to_string(-1), "-1".to_string());
    assert_eq!(
        i64_to_string(i64::MIN),
        "-9223372036854775808".to_string()
    );
}

#[test]
fn strict_unsigned_parse_accepts_canonical_text_only() {
    assert_eq!(parse_u64_text("0"), Some(0));
    assert_eq!(parse_u64_text("1024"), Some(1024));
    assert_eq!(parse_u64_text("18446744073709551615"), Some(u64::MAX));
    assert_eq!(parse_u64_text(""), None);
    assert_eq!(parse_u64_text("01"), None);
    assert_eq!(parse_u64_text("12a"), None);
    assert_eq!(parse_u64_text("18446744073709551616"), None);
}

#[test]
fn strict_negative_parse_accepts_canonical_text_only() {
    assert_eq!(parse_i64_neg_text("-1"), Some(-1));
    assert_eq!(parse_i64_neg_text("-9223372036854775808"), Some(i64::MIN));
    assert_eq!(parse_i64_neg_text("-0"), None);
    assert_eq!(parse_i64_neg_text("-9223372036854775809"), None);
    assert_eq!(parse_i64_neg_text("5"), None);
}

#[test]
fn number_from_text_falls_back_to_the_json_grammar() {
    assert_eq!(number_from_text("12"), Some(JsonNumber::Unsigned(12)));
    assert_eq!(number_from_text("-3"), Some(JsonNumber::Signed(-3)));
    assert_eq!(
        number_from_text("2.25"),
        Some(JsonNumber::Decimal("2.25".to_string()))
    );
    assert_eq!(number_from_text("nope"), None);
    assert_eq!(number_from_text(""), None);
}

#[test]
fn number_to_string_uses_canonical_decimal_text() {
    assert_eq!(
        number_to_string(&JsonNumber::Unsigned(1024)),
        "1024".to_string()
    );
    assert_eq!(number_to_string(&JsonNumber::Signed(-7)), "-7".to_string());
    assert_eq!(
        number_to_string(&JsonNumber::Decimal("3.5".to_string())),
        "3.5".to_string()
    );
}
