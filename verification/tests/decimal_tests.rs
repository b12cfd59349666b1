use bitbank_mm::decimal::parse_scaled;
use bitbank_mm::decimal::SCALE;
use bitbank_mm::strlex::str_eq;
use bitbank_mm::strlex::str_lt;

#[test]
fn parses_integers() {
    assert_eq!(parse_scaled("101"), Some(101 * SCALE));
    assert_eq!(parse_scaled("0"), Some(0));
    assert_eq!(parse_scaled("1"), Some(SCALE));
}

#[test]
fn parses_fractions() {
    assert_eq!(parse_scaled("2.0"), Some(2 * SCALE));
    assert_eq!(parse_scaled("0.00012"), Some(12_000));
    assert_eq!(parse_scaled("100.5"), Some(100 * SCALE + 50_000_000));
    assert_eq!(parse_scaled("0.00000001"), Some(1));
    assert_eq!(parse_scaled("2."), Some(2 * SCALE));
}

#[test]
fn rejects_out_of_grammar() {
    assert_eq!(parse_scaled(""), None);
    assert_eq!(parse_scaled("abc"), None);
    assert_eq!(parse_scaled("1.2.3"), None);
    assert_eq!(parse_scaled(".5"), None);
    assert_eq!(parse_scaled("-1"), None);
    assert_eq!(parse_scaled("1 "), None);
}

#[test]
fn rejects_too_fine_or_too_large() {
    // Nine fractional digits exceed the fixed scale.
    assert_eq!(parse_scaled("0.123456789"), None);
    // The scaled value does not fit in 64 bits.
    assert_eq!(parse_scaled("999999999999999999999"), None);
    // The largest representable value still parses.
    assert_eq!(parse_scaled("184467440737.09551615"), Some(u64::MAX));
    assert_eq!(parse_scaled("184467440737.09551616"), None);
}

#[test]
fn leading_zeros_are_plain_digits() {
    assert_eq!(parse_scaled("007"), Some(7 * SCALE));
    assert_eq!(parse_scaled("0.10"), Some(SCALE / 10));
}

#[test]
fn sequence_ids_compare_lexicographically() {
    // "10" sorts before "9" in the opaque string order.
    assert!(str_lt("10", "9"));
    assert!(!str_lt("9", "10"));
    assert!(str_lt("5", "6"));
    assert!(!str_lt("6", "6"));
    assert!(str_lt("6", "60"));
    assert!(str_eq("abc", "abc"));
    assert!(!str_eq("abc", "abd"));
}
