use cukerust::matching::{match_one, pattern_for_mode, step_kind_from_name};
use cukerust::step_index::{StepEntry, StepKind};

fn step(kind: StepKind, regex: &str, file: &str, line: usize) -> StepEntry {
    StepEntry {
        kind,
        regex: regex.to_string(),
        file: file.to_string(),
        line,
        function: None,
        captures: None,
        tags: None,
        notes: None,
    }
}

#[test]
fn test_pattern_for_mode() {
    assert_eq!(pattern_for_mode("a", "anchored").unwrap(), "^a$");
    assert_eq!(pattern_for_mode("^a$", "anchored").unwrap(), "^a$");
    assert_eq!(pattern_for_mode("a", "smart").unwrap(), "^a$");
    assert_eq!(pattern_for_mode("^a$", "smart").unwrap(), "^a$");
    assert_eq!(pattern_for_mode("a", "substring").unwrap(), "a");
}

#[test]
fn pattern_for_mode_half_anchored_and_unknown() {
    assert_eq!(pattern_for_mode("^a", "smart").unwrap(), "^a");
    assert_eq!(pattern_for_mode("a$", "smart").unwrap(), "a$");
    assert_eq!(pattern_for_mode("^a", "anchored").unwrap(), "^a$");
    assert_eq!(pattern_for_mode("a$", "anchored").unwrap(), "^a$");
    assert_eq!(pattern_for_mode("", "anchored").unwrap(), "^$");
    assert_eq!(pattern_for_mode("a", "bogus"), None);
}

#[test]
fn test_match_one_basic() {
    let steps = vec![
        step(StepKind::Given, r"^I have (\d+) cukes$", "src/steps.rs", 10),
        step(StepKind::When, r"I eat (.+)", "src/steps.rs", 20),
        step(StepKind::Then, r"^done$", "src/steps.rs", 30),
    ];
    let m = match_one(&steps, StepKind::Given, "I have 5 cukes", "anchored");
    assert_eq!(m.len(), 1);
    assert_eq!(m[0].line, 10);
    let m2 = match_one(&steps, StepKind::When, "I eat apples", "smart");
    assert_eq!(m2.len(), 1);
    assert_eq!(m2[0].line, 20);
    let m3 = match_one(&steps, StepKind::Given, "done", "anchored");
    assert!(m3.is_empty());
}

#[test]
fn match_one_trims_the_body_and_skips_bad_patterns() {
    let steps = vec![
        step(StepKind::Given, r"^spaced$", "f.rs", 1),
        step(StepKind::Given, r"(unclosed", "f.rs", 2),
    ];
    let m = match_one(&steps, StepKind::Given, "   spaced  ", "smart");
    assert_eq!(m.len(), 1);
    assert_eq!(m[0].line, 1);
}

#[test]
fn match_one_substring_mode_searches_anywhere() {
    let steps = vec![step(StepKind::Then, "mid", "f.rs", 7)];
    let m = match_one(&steps, StepKind::Then, "before mid after", "substring");
    assert_eq!(m.len(), 1);
    let m2 = match_one(&steps, StepKind::Then, "before mid after", "smart");
    assert!(m2.is_empty());
}

#[test]
fn matching_twice_gives_identical_results() {
    let steps = vec![
        step(StepKind::Given, r"^a (\d+)$", "f.rs", 1),
        step(StepKind::Given, r"a (\d+)", "f.rs", 2),
        step(StepKind::When, r"^a (\d+)$", "f.rs", 3),
    ];
    let one = match_one(&steps, StepKind::Given, "a 3", "smart");
    let two = match_one(&steps, StepKind::Given, "a 3", "smart");
    assert_eq!(one.len(), two.len());
    for (a, b) in one.iter().zip(two.iter()) {
        assert_eq!(a.kind, b.kind);
        assert_eq!(a.regex, b.regex);
        assert_eq!(a.file, b.file);
        assert_eq!(a.line, b.line);
    }
    assert_eq!(one.len(), 2);
}

#[test]
fn kind_names_round_trip() {
    assert_eq!(step_kind_from_name("Given"), StepKind::Given);
    assert_eq!(step_kind_from_name("When"), StepKind::When);
    assert_eq!(step_kind_from_name("Then"), StepKind::Then);
    assert_eq!(step_kind_from_name("anything else"), StepKind::Then);
}
