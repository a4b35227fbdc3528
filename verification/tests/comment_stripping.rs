use cukerust::strip::strip_comments_preserving_strings;

#[test]
fn line_comment_becomes_spaces() {
    assert_eq!(strip_comments_preserving_strings("a // c\nb"), "a     \nb");
}

#[test]
fn block_comment_becomes_spaces_and_keeps_newlines() {
    assert_eq!(strip_comments_preserving_strings("a/* x\ny */b"), "a    \n    b");
}

#[test]
fn strings_shield_comment_markers() {
    assert_eq!(strip_comments_preserving_strings("\"// not\" + 1"), "\"// not\" + 1");
    assert_eq!(
        strip_comments_preserving_strings("r#\"/* kept */\"# //gone"),
        "r#\"/* kept */\"#       "
    );
}

#[test]
fn stripping_preserves_line_count() {
    let original = "fn f() { // say\n/* a\nb */ let x = \"s//\"; }\n// tail";
    let stripped = strip_comments_preserving_strings(original);
    assert_eq!(stripped.len(), original.len());
    let count = |s: &str| s.chars().filter(|c| *c == '\n').count();
    assert_eq!(count(&stripped), count(original));
}

#[test]
fn escaped_quote_does_not_close_a_string() {
    assert_eq!(strip_comments_preserving_strings("\"a\\\"b// c\""), "\"a\\\"b// c\"");
}

#[test]
fn raw_string_with_hashes_protects_quotes() {
    let text = "r##\"quote \" here\"## // comment";
    assert_eq!(strip_comments_preserving_strings(text), "r##\"quote \" here\"##           ");
}
