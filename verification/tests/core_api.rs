use cukerust::{normalize_step_text, version};

#[test]
fn version_is_the_crate_version() {
    assert_eq!(version(), "0.1.0");
}

#[test]
fn normalize_trims_both_ends_only() {
    assert_eq!(normalize_step_text("  I  have   cukes \t\n"), "I  have   cukes");
    assert_eq!(normalize_step_text(""), "");
    assert_eq!(normalize_step_text(" \t "), "");
}
