use bahmod::text::{
    ascii_uppercase, contains_text, decimal_text, parse_price, strip_line_end, underscores_to_spaces,
};

#[test]
fn strip_line_end_drops_two_characters() {
    assert_eq!(strip_line_end("{\"a\":1}\r\n"), "{\"a\":1}");
    assert_eq!(strip_line_end("ab"), "");
    assert_eq!(strip_line_end("a"), "");
    assert_eq!(strip_line_end(""), "");
    assert_eq!(strip_line_end("héé"), "h");
}

#[test]
fn contains_text_finds_parts() {
    assert!(contains_text("Heroic Hyperion", "Hyperion"));
    assert!(contains_text("Hyperion", "Hyperion"));
    assert!(contains_text("abc", ""));
    assert!(!contains_text("Hyper", "Hyperion"));
    assert!(!contains_text("hyperion", "Hyperion"));
    assert!(contains_text("aab", "ab"));
}

#[test]
fn underscores_become_spaces() {
    assert_eq!(underscores_to_spaces("a_b__c"), "a b  c");
    assert_eq!(underscores_to_spaces("plain"), "plain");
}

#[test]
fn uppercase_is_ascii_only() {
    assert_eq!(ascii_uppercase("Legendary é z"), "LEGENDARY é Z");
}

#[test]
fn decimal_text_writes_integers() {
    assert_eq!(decimal_text(0), "0");
    assert_eq!(decimal_text(1234), "1234");
    assert_eq!(decimal_text(-45), "-45");
    assert_eq!(decimal_text(i64::MIN), "-9223372036854775808");
    assert_eq!(decimal_text(i64::MAX), "9223372036854775807");
}

#[test]
fn parse_price_reads_signed_decimals() {
    assert_eq!(parse_price("0"), Some(0));
    assert_eq!(parse_price("007"), Some(7));
    assert_eq!(parse_price("+12"), Some(12));
    assert_eq!(parse_price("-12"), Some(-12));
    assert_eq!(parse_price("9223372036854775807"), Some(i64::MAX));
    assert_eq!(parse_price("9223372036854775808"), None);
    assert_eq!(parse_price("12 "), None);
    assert_eq!(parse_price(""), None);
}
