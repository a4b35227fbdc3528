use cukerust::literal::extract_first_string_literal;

#[test]
fn test_extract_raw_strings() {
    assert_eq!(extract_first_string_literal("r\"^foo$\""), Some("^foo$".to_string()));
    assert_eq!(
        extract_first_string_literal("r#\"a \"quoted\" word\"#"),
        Some("a \"quoted\" word".to_string())
    );
    assert_eq!(
        extract_first_string_literal("r###\"multi # hash\"###"),
        Some("multi # hash".to_string())
    );
}

#[test]
fn test_extract_normal() {
    assert_eq!(extract_first_string_literal("\"hello\\nworld\""), Some("hello\nworld".to_string()));
}

#[test]
fn extract_skips_leading_noise() {
    assert_eq!(extract_first_string_literal("foo(bar, \"lit\")"), Some("lit".to_string()));
}

#[test]
fn extract_decodes_known_escapes_and_keeps_unknown_ones() {
    assert_eq!(
        extract_first_string_literal("\"a\\\"b\\\\c\\td\\re\\qf\""),
        Some("a\"b\\c\td\re\\qf".to_string())
    );
}

#[test]
fn extract_unterminated_plain_literal_gives_nothing() {
    assert_eq!(extract_first_string_literal("\"never closed"), None);
}

#[test]
fn extract_unterminated_raw_literal_gives_nothing() {
    assert_eq!(extract_first_string_literal("r##\"closed with too few \"#"), None);
}

#[test]
fn extract_with_no_literal_gives_nothing() {
    assert_eq!(extract_first_string_literal("no literal here"), None);
}

#[test]
fn extract_round_trips_an_escaped_string() {
    // writing a string as a plain literal and reading it back yields it
    let original = "he said \"hi\\there\"\nnew line";
    let written = format!("\"{}\"", "he said \\\"hi\\\\there\\\"\\nnew line");
    assert_eq!(extract_first_string_literal(&written), Some(original.to_string()));
}

#[test]
fn extract_empty_literal() {
    assert_eq!(extract_first_string_literal("\"\""), Some(String::new()));
    assert_eq!(extract_first_string_literal("r\"\""), Some(String::new()));
}
