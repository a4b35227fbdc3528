use cukerust::feature::diagnostics_for_feature;
use cukerust::step_index::{StepEntry, StepKind};

fn step(kind: StepKind, regex: &str, file: &str, line: usize) -> StepEntry {
    StepEntry {
        kind,
        regex: regex.to_string(),
        file: file.to_string(),
        line,
        function: None,
        captures: None,
        tags: None,
        notes: None,
    }
}

#[test]
fn test_diagnostics_basic_and_outline() {
    let steps = vec![
        step(StepKind::Given, r"^I have (\d+) cukes$", "src/steps.rs", 10),
        step(StepKind::Then, r"^done$", "src/steps.rs", 30),
    ];
    let feature = r#"Feature: Sample
  Scenario: Basic
    Given I have 5 cukes
    Then done

  Scenario Outline: Out
    Given I have <n> cukes
  Examples:
    | n |
    | 1 |
    | 2 |
"#;
    let diags = diagnostics_for_feature(feature, "en", "smart", &steps);
    assert!(diags.is_empty(), "expected no diagnostics, got {:?}", diags);
}

#[test]
fn test_diagnostics_undefined_and_ambiguous() {
    let steps = vec![
        step(StepKind::Given, r"^I have (\d+) cukes$", "src/steps.rs", 10),
        step(StepKind::Given, r"^I have (\d+) cukes$", "src/steps.rs", 11),
        step(StepKind::Then, r"^done$", "src/steps.rs", 30),
    ];
    let feature = r#"Feature: Sample
  Scenario: Ambiguous and undefined
    Given I have 5 cukes
    When I do a thing
    Then done
"#;
    let diags = diagnostics_for_feature(feature, "en", "smart", &steps);
    let msgs: Vec<String> = diags.iter().map(|d| d.message.clone()).collect();
    assert!(msgs.iter().any(|m| m.contains("Ambiguous step")), "no ambiguous diag in {:?}", msgs);
    assert!(msgs.iter().any(|m| m.contains("Undefined step")), "no undefined diag in {:?}", msgs);
}

#[test]
fn diagnostics_report_exact_lines() {
    let steps = vec![
        step(StepKind::Given, r"^I have (\d+) cukes$", "s.rs", 10),
        step(StepKind::Given, r"^I have (\d+) cukes$", "s.rs", 11),
        step(StepKind::Then, r"^done$", "s.rs", 30),
    ];
    let feature = "Feature: F\n  Scenario: S\n    Given I have 5 cukes\n    When I do a thing\n    Then done\n";
    let diags = diagnostics_for_feature(feature, "en", "smart", &steps);
    assert_eq!(diags.len(), 2);
    assert_eq!(diags[0].line, 2);
    assert_eq!(diags[0].message, "Ambiguous step");
    assert_eq!(diags[0].severity, "warning");
    assert_eq!(diags[1].line, 3);
    assert_eq!(diags[1].message, "Undefined step");
}

#[test]
fn outline_matches_when_any_row_matches() {
    let steps = vec![step(StepKind::Given, r"^I have (\d+) cukes$", "s.rs", 1)];
    let feature = "Scenario Outline: O\n  Given I have <n> cukes\nExamples:\n  | n |\n  | 1 |\n  | 2 |\n";
    let diags = diagnostics_for_feature(feature, "en", "smart", &steps);
    assert!(diags.is_empty(), "expected no diagnostics, got {:?}", diags);
}

#[test]
fn outline_partial_row_match_is_not_undefined() {
    let steps = vec![step(StepKind::Given, r"^I have 1 cukes$", "s.rs", 1)];
    let feature = "Scenario Outline: O\n  Given I have <n> cukes\nExamples:\n  | n |\n  | 1 |\n  | 2 |\n";
    let diags = diagnostics_for_feature(feature, "en", "smart", &steps);
    assert!(
        !diags.iter().any(|d| d.message.contains("none of the Examples values match")),
        "row 1 matches, got {:?}",
        diags
    );
}

#[test]
fn outline_with_no_matching_row_is_undefined_once() {
    let steps = vec![step(StepKind::Given, r"^I have 9 cukes$", "s.rs", 1)];
    let feature = "Scenario Outline: O\n  Given I have <n> cukes\nExamples:\n  | n |\n  | 1 |\n  | 2 |\n";
    let diags = diagnostics_for_feature(feature, "en", "smart", &steps);
    assert_eq!(diags.len(), 1);
    assert_eq!(diags[0].line, 1);
    assert_eq!(diags[0].message, "Undefined step (none of the Examples values match)");
}

#[test]
fn outline_with_ambiguous_row_is_reported() {
    let steps = vec![
        step(StepKind::Given, r"^I have (\d+) cukes$", "s.rs", 1),
        step(StepKind::Given, r"^I have 1 cukes$", "s.rs", 2),
    ];
    let feature = "Scenario Outline: O\n  Given I have <n> cukes\nExamples:\n  | n |\n  | 1 |\n";
    let diags = diagnostics_for_feature(feature, "en", "smart", &steps);
    assert_eq!(diags.len(), 1);
    assert_eq!(
        diags[0].message,
        "Ambiguous step (one or more Examples values have multiple matches)"
    );
}

#[test]
fn and_and_but_inherit_the_last_explicit_kind() {
    let steps = vec![
        step(StepKind::Given, r"^first$", "s.rs", 1),
        step(StepKind::Given, r"^second$", "s.rs", 2),
        step(StepKind::When, r"^third$", "s.rs", 3),
        step(StepKind::When, r"^fourth$", "s.rs", 4),
    ];
    let feature = "Feature: F\n  Scenario: S\n    Given first\n    And second\n    When third\n    But fourth\n";
    let diags = diagnostics_for_feature(feature, "en", "smart", &steps);
    assert!(diags.is_empty(), "expected no diagnostics, got {:?}", diags);
}

#[test]
fn spanish_dialect_is_detected_from_language_directive() {
    let steps = vec![
        step(StepKind::Given, r"^tengo algo$", "s.rs", 1),
        step(StepKind::When, r"^hago algo$", "s.rs", 2),
    ];
    let feature = "# language: es\nCaracter: X\n  Dado tengo algo\n  Cuando hago algo\n";
    let diags = diagnostics_for_feature(feature, "auto", "smart", &steps);
    assert!(diags.is_empty(), "expected no diagnostics, got {:?}", diags);
}

#[test]
fn english_step_keywords_are_ignored_under_spanish_dialect() {
    let steps = vec![step(StepKind::Given, r"^algo$", "s.rs", 1)];
    let feature = "Given algo\nDado algo\n";
    let diags = diagnostics_for_feature(feature, "es", "smart", &steps);
    assert!(diags.is_empty(), "expected no diagnostics, got {:?}", diags);
    let diags_en = diagnostics_for_feature(feature, "en", "smart", &steps);
    assert!(diags_en.is_empty(), "expected no diagnostics, got {:?}", diags_en);
}

#[test]
fn unknown_match_mode_marks_everything_undefined() {
    let steps = vec![step(StepKind::Given, r"^x$", "s.rs", 1)];
    let feature = "Given x\n";
    let diags = diagnostics_for_feature(feature, "en", "bogus", &steps);
    assert_eq!(diags.len(), 1);
    assert_eq!(diags[0].message, "Undefined step");
}

#[test]
fn placeholder_without_examples_is_matched_literally() {
    let steps = vec![step(StepKind::Given, r"^I have <n> cukes$", "s.rs", 1)];
    let feature = "Scenario Outline: O\n  Given I have <n> cukes\n";
    let diags = diagnostics_for_feature(feature, "en", "smart", &steps);
    assert!(diags.is_empty(), "expected no diagnostics, got {:?}", diags);
}
