use cukerust::step_index::{
    extract_step_index_from_files, SourceFile, StepEntry, StepIndex, StepKind,
};

fn source(path: &str, text: &str) -> SourceFile {
    SourceFile { path: path.to_string(), text: text.to_string() }
}

#[test]
fn test_extract_index_builder_macro_attr() {
    let files = vec![source(
        "src/steps.rs",
        r#"
                fn register() {
                    registry.given(r"^I have (\\d+) cukes$");
                    registry.when("^I eat (.*)$");
                }
                given!(r"^start$", || {});
                #[then(regex = r"^done$")]
                fn ok() {}
            "#,
    )];
    let idx = extract_step_index_from_files(&files);
    assert_eq!(idx.stats.total, 4);
    assert_eq!(idx.stats.by_kind.given, 2);
    assert_eq!(idx.stats.by_kind.when, 1);
    assert_eq!(idx.stats.by_kind.then_count, 1);
    assert!(idx.steps.iter().any(|s| s.regex.contains("^I have")));
}

#[test]
fn mixed_forms_on_one_line() {
    let files = vec![source(
        "steps.rs",
        "registry.given(r\"^I have (\\d+) cukes$\"); registry.when(\"^I eat (.*)$\"); given!(r\"^start$\", || {}); #[then(regex = r\"^done$\")] fn ok() {}",
    )];
    let idx = extract_step_index_from_files(&files);
    assert_eq!(idx.stats.total, 4);
    assert_eq!(idx.stats.by_kind.given, 2);
    assert_eq!(idx.stats.by_kind.when, 1);
    assert_eq!(idx.stats.by_kind.then_count, 1);
    assert_eq!(idx.stats.ambiguous, 0);
    assert_eq!(idx.stats.by_kind.given + idx.stats.by_kind.when + idx.stats.by_kind.then_count,
        idx.stats.total);
    let attr_entry = idx.steps.iter().find(|s| s.regex == "^done$").unwrap();
    assert_eq!(attr_entry.function.as_deref(), Some("ok"));
}

#[test]
fn raw_string_with_balanced_hashes() {
    let files = vec![source("steps.rs", "registry.when(r###\"^multi # hash$\"###);")];
    let idx = extract_step_index_from_files(&files);
    assert_eq!(idx.stats.total, 1);
    assert_eq!(idx.steps[0].kind, StepKind::When);
    assert_eq!(idx.steps[0].regex, "^multi # hash$");
}

#[test]
fn comments_shield_registrations() {
    let files = vec![source("steps.rs", "// registry.given(r\"^nope$\");\nregistry.when(r\"^yes$\");")];
    let idx = extract_step_index_from_files(&files);
    assert_eq!(idx.stats.total, 1);
    assert_eq!(idx.steps[0].kind, StepKind::When);
    assert_eq!(idx.steps[0].regex, "^yes$");
    assert_eq!(idx.steps[0].line, 2);
}

#[test]
fn builder_with_turbofish_and_multiline_attribute() {
    let files = vec![source(
        "steps.rs",
        "reg.given::<W>(r\"^typed$\");\n#[when(\n    regex = r\"^split$\"\n)]\nfn moved() {}",
    )];
    let idx = extract_step_index_from_files(&files);
    assert_eq!(idx.stats.total, 2);
    let typed = idx.steps.iter().find(|s| s.regex == "^typed$").unwrap();
    assert_eq!(typed.kind, StepKind::Given);
    assert_eq!(typed.line, 1);
    let split = idx.steps.iter().find(|s| s.regex == "^split$").unwrap();
    assert_eq!(split.kind, StepKind::When);
    assert_eq!(split.line, 2);
    assert_eq!(split.function.as_deref(), Some("moved"));
}

#[test]
fn entries_are_sorted_by_file_then_line() {
    let files = vec![
        source("b.rs", "x.given(r\"^b1$\");"),
        source("a.rs", "x.when(r\"^a1$\");\nx.then(r\"^a2$\");"),
    ];
    let idx = extract_step_index_from_files(&files);
    assert_eq!(idx.stats.total, 3);
    assert_eq!(idx.steps[0].file, "a.rs");
    assert_eq!(idx.steps[0].line, 1);
    assert_eq!(idx.steps[1].file, "a.rs");
    assert_eq!(idx.steps[1].line, 2);
    assert_eq!(idx.steps[2].file, "b.rs");
}

#[test]
fn empty_input_gives_empty_index() {
    let files: Vec<SourceFile> = Vec::new();
    let idx = extract_step_index_from_files(&files);
    assert_eq!(idx.stats.total, 0);
    assert_eq!(idx.steps.len(), 0);
    assert_eq!(idx.stats.ambiguous, 0);
}

#[test]
fn ambiguity_counts_duplicated_keys_once() {
    let entry = |line: usize| StepEntry {
        kind: StepKind::Given,
        regex: "^I have (\\d+) cukes$".to_string(),
        file: "steps.rs".to_string(),
        line,
        function: None,
        captures: None,
        tags: None,
        notes: None,
    };
    let idx = StepIndex::from_steps(vec![entry(3), entry(9)]);
    assert_eq!(idx.stats.ambiguous, 1);
    assert_eq!(idx.stats.total, 2);
    assert!(idx.stats.generated_at.is_some());
}

#[test]
fn extraction_is_deterministic_apart_from_timestamp() {
    let files = vec![source(
        "steps.rs",
        "a.given(r\"^x$\");\nwhen!(r\"^y$\", || {});\n#[then(regex = r\"^z$\")]\nfn t() {}",
    )];
    let one = extract_step_index_from_files(&files);
    let two = extract_step_index_from_files(&files);
    assert_eq!(one.steps.len(), two.steps.len());
    for (a, b) in one.steps.iter().zip(two.steps.iter()) {
        assert_eq!(a.kind, b.kind);
        assert_eq!(a.regex, b.regex);
        assert_eq!(a.file, b.file);
        assert_eq!(a.line, b.line);
        assert_eq!(a.function, b.function);
    }
    assert_eq!(one.stats.total, two.stats.total);
    assert_eq!(one.stats.by_kind.given, two.stats.by_kind.given);
    assert_eq!(one.stats.by_kind.when, two.stats.by_kind.when);
    assert_eq!(one.stats.by_kind.then_count, two.stats.by_kind.then_count);
    assert_eq!(one.stats.ambiguous, two.stats.ambiguous);
}

#[test]
fn unreadable_call_site_is_skipped() {
    let files = vec![source("steps.rs", "x.given(unquoted);\nx.when(r\"^ok$\");")];
    let idx = extract_step_index_from_files(&files);
    assert_eq!(idx.stats.total, 1);
    assert_eq!(idx.steps[0].regex, "^ok$");
}
