use ratchet::cli::merge_driver::{
    exit_code, extract_all_counts, merge_counts, parse_counts_file, run_merge_driver_inner,
    MergeError, MergeInput, EXIT_ERROR, EXIT_SUCCESS,
};
use ratchet::config::tables::ParseError;
use ratchet::config::counts::CountsManager;
use ratchet::types::{RegionPath, RuleId};

#[test]
fn test_extract_all_counts() {
    let mut counts = CountsManager::new();
    let rule1 = RuleId::new("rule1").unwrap();
    let rule2 = RuleId::new("rule2").unwrap();

    counts.set_count(&rule1, &RegionPath::new("."), 10);
    counts.set_count(&rule1, &RegionPath::new("src"), 5);
    counts.set_count(&rule2, &RegionPath::new("."), 20);

    let extracted = extract_all_counts(&counts);

    assert_eq!(extracted.len(), 3);

    // Check that all expected entries are present
    let has_rule1_root = extracted
        .iter()
        .any(|(r, p, c)| r.as_str() == "rule1" && p.as_str() == "." && *c == 10);
    let has_rule1_src = extracted
        .iter()
        .any(|(r, p, c)| r.as_str() == "rule1" && p.as_str() == "src" && *c == 5);
    let has_rule2_root = extracted
        .iter()
        .any(|(r, p, c)| r.as_str() == "rule2" && p.as_str() == "." && *c == 20);

    assert!(has_rule1_root);
    assert!(has_rule1_src);
    assert!(has_rule2_root);
}

#[test]
fn test_merge_counts_minimum_wins() {
    let mut base = CountsManager::new();
    let mut ours = CountsManager::new();
    let mut theirs = CountsManager::new();

    let rule_id = RuleId::new("no-unwrap").unwrap();
    let region = RegionPath::new(".");

    base.set_count(&rule_id, &region, 20);
    ours.set_count(&rule_id, &region, 15);
    theirs.set_count(&rule_id, &region, 18);

    let merged = merge_counts(&base, &ours, &theirs);

    assert_eq!(merged.get_budget(&rule_id, "."), 15);
}

#[test]
fn test_merge_counts_only_in_ours() {
    let base = CountsManager::new();
    let mut ours = CountsManager::new();
    let theirs = CountsManager::new();

    let rule_id = RuleId::new("no-unwrap").unwrap();
    let region = RegionPath::new(".");

    ours.set_count(&rule_id, &region, 10);

    let merged = merge_counts(&base, &ours, &theirs);

    assert_eq!(merged.get_budget(&rule_id, "."), 10);
}

#[test]
fn test_merge_counts_only_in_theirs() {
    let base = CountsManager::new();
    let ours = CountsManager::new();
    let mut theirs = CountsManager::new();

    let rule_id = RuleId::new("no-unwrap").unwrap();
    let region = RegionPath::new(".");

    theirs.set_count(&rule_id, &region, 10);

    let merged = merge_counts(&base, &ours, &theirs);

    assert_eq!(merged.get_budget(&rule_id, "."), 10);
}

#[test]
fn test_merge_counts_complex() {
    let mut base = CountsManager::new();
    let mut ours = CountsManager::new();
    let mut theirs = CountsManager::new();

    let rule1 = RuleId::new("rule1").unwrap();
    let rule2 = RuleId::new("rule2").unwrap();
    let rule3 = RuleId::new("rule3").unwrap();

    let root = RegionPath::new(".");
    let src = RegionPath::new("src");

    // Rule1: Both sides reduce from 20
    base.set_count(&rule1, &root, 20);
    ours.set_count(&rule1, &root, 15);
    theirs.set_count(&rule1, &root, 18);

    // Rule2: Only ours has it
    ours.set_count(&rule2, &root, 10);

    // Rule3: Only theirs has it
    theirs.set_count(&rule3, &src, 5);

    let merged = merge_counts(&base, &ours, &theirs);

    assert_eq!(merged.get_budget(&rule1, "."), 15);
    assert_eq!(merged.get_budget(&rule2, "."), 10);
    assert_eq!(merged.get_budget(&rule3, "src/file.rs"), 5);
}

#[test]
fn merge_key_in_base_only_does_not_survive() {
    let mut base = CountsManager::new();
    let ours = CountsManager::new();
    let mut theirs = CountsManager::new();
    let gone = RuleId::new("gone").unwrap();
    let kept = RuleId::new("no-todo").unwrap();
    let root = RegionPath::new(".");
    base.set_count(&gone, &root, 7);
    theirs.set_count(&kept, &root, 5);

    let merged = merge_counts(&base, &ours, &theirs);

    assert_eq!(merged.len(), 1);
    assert_eq!(merged.get_count(&gone, &root), None);
    assert_eq!(merged.get_count(&kept, &root), Some(5));
    assert_eq!(merged.get_budget(&kept, "."), 5);
}

#[test]
fn merge_takes_minimum_per_region() {
    let base = CountsManager::new();
    let mut ours = CountsManager::new();
    let mut theirs = CountsManager::new();
    let rule = RuleId::new("no-unwrap").unwrap();
    let root = RegionPath::new(".");
    let src = RegionPath::new("src");
    let tests = RegionPath::new("tests");
    ours.set_count(&rule, &root, 20);
    ours.set_count(&rule, &src, 3);
    theirs.set_count(&rule, &root, 12);
    theirs.set_count(&rule, &src, 9);
    theirs.set_count(&rule, &tests, 4);

    let merged = merge_counts(&base, &ours, &theirs);
    let listed: Vec<(String, String, u64)> = extract_all_counts(&merged)
        .iter()
        .map(|(r, p, c)| (r.as_str().to_string(), p.as_str().to_string(), *c))
        .collect();

    assert_eq!(
        listed,
        vec![
            ("no-unwrap".to_string(), ".".to_string(), 12),
            ("no-unwrap".to_string(), "src".to_string(), 3),
            ("no-unwrap".to_string(), "tests".to_string(), 4),
        ]
    );
}

/// A version of the store that lies at `name` and holds `content`.
fn create_test_file(name: &str, content: &str) -> MergeInput {
    MergeInput { path: name.to_string(), text: Some(content.to_string()) }
}

/// A version of the store for which there is no file.
fn missing_file(name: &str) -> MergeInput {
    MergeInput { path: name.to_string(), text: None }
}

#[test]
fn test_merge_driver_basic() {
    let base = create_test_file("base.toml", "\n[no-unwrap]\n\".\" = 20\n");
    let ours = create_test_file("ours.toml", "\n[no-unwrap]\n\".\" = 15\n");
    let theirs = create_test_file("theirs.toml", "\n[no-unwrap]\n\".\" = 18\n");

    let result = run_merge_driver_inner(&base, &ours, &theirs);
    assert_eq!(exit_code(&result), EXIT_SUCCESS);

    // Read the merged result
    let merged_content = result.unwrap();
    let merged_counts = CountsManager::parse(&merged_content).unwrap();

    // Verify minimum was taken (15 < 18)
    let rule_id = RuleId::new("no-unwrap").unwrap();
    assert_eq!(merged_counts.get_budget(&rule_id, "."), 15);
    assert_eq!(merged_content, "[no-unwrap]\n\".\" = 15\n");
}

#[test]
fn test_merge_driver_new_rule_in_ours() {
    let base = create_test_file("base.toml", "");
    let ours = create_test_file("ours.toml", "\n[no-unwrap]\n\".\" = 10\n");
    let theirs = create_test_file("theirs.toml", "");

    let result = run_merge_driver_inner(&base, &ours, &theirs);
    assert_eq!(exit_code(&result), EXIT_SUCCESS);

    let merged_content = result.unwrap();
    let merged_counts = CountsManager::parse(&merged_content).unwrap();

    let rule_id = RuleId::new("no-unwrap").unwrap();
    assert_eq!(merged_counts.get_budget(&rule_id, "."), 10);
}

#[test]
fn test_merge_driver_new_rule_in_theirs() {
    let base = create_test_file("base.toml", "");
    let ours = create_test_file("ours.toml", "");
    let theirs = create_test_file("theirs.toml", "\n[no-todo]\n\".\" = 5\n");

    let result = run_merge_driver_inner(&base, &ours, &theirs);
    assert_eq!(exit_code(&result), EXIT_SUCCESS);

    let merged_content = result.unwrap();
    let merged_counts = CountsManager::parse(&merged_content).unwrap();

    let rule_id = RuleId::new("no-todo").unwrap();
    assert_eq!(merged_counts.get_budget(&rule_id, "."), 5);
}

#[test]
fn test_merge_driver_multiple_rules() {
    let base = create_test_file(
        "base.toml",
        "\n[no-unwrap]\n\".\" = 20\n[no-todo]\n\".\" = 30\n",
    );
    let ours = create_test_file(
        "ours.toml",
        "\n[no-unwrap]\n\".\" = 15\n[no-todo]\n\".\" = 30\n",
    );
    let theirs = create_test_file(
        "theirs.toml",
        "\n[no-unwrap]\n\".\" = 18\n[no-todo]\n\".\" = 25\n",
    );

    let result = run_merge_driver_inner(&base, &ours, &theirs);
    assert_eq!(exit_code(&result), EXIT_SUCCESS);

    let merged_content = result.unwrap();
    let merged_counts = CountsManager::parse(&merged_content).unwrap();

    let no_unwrap = RuleId::new("no-unwrap").unwrap();
    let no_todo = RuleId::new("no-todo").unwrap();

    assert_eq!(merged_counts.get_budget(&no_unwrap, "."), 15);
    assert_eq!(merged_counts.get_budget(&no_todo, "."), 25);
}

#[test]
fn test_merge_driver_multiple_regions() {
    let base = create_test_file(
        "base.toml",
        "\n[no-unwrap]\n\".\" = 20\n\"src\" = 15\n",
    );
    let ours = create_test_file(
        "ours.toml",
        "\n[no-unwrap]\n\".\" = 18\n\"src\" = 10\n",
    );
    let theirs = create_test_file(
        "theirs.toml",
        "\n[no-unwrap]\n\".\" = 19\n\"src\" = 12\n",
    );

    let result = run_merge_driver_inner(&base, &ours, &theirs);
    assert_eq!(exit_code(&result), EXIT_SUCCESS);

    let merged_content = result.unwrap();
    let merged_counts = CountsManager::parse(&merged_content).unwrap();

    let rule_id = RuleId::new("no-unwrap").unwrap();
    assert_eq!(merged_counts.get_budget(&rule_id, "."), 18);
    assert_eq!(merged_counts.get_budget(&rule_id, "src/file.rs"), 10);
}

#[test]
fn test_merge_driver_missing_files() {
    let base = missing_file("nonexistent_base.toml");
    let ours = create_test_file("ours.toml", "\n[no-unwrap]\n\".\" = 10\n");
    let theirs = missing_file("nonexistent_theirs.toml");

    let result = run_merge_driver_inner(&base, &ours, &theirs);
    assert_eq!(exit_code(&result), EXIT_SUCCESS);

    let merged_content = result.unwrap();
    let merged_counts = CountsManager::parse(&merged_content).unwrap();

    let rule_id = RuleId::new("no-unwrap").unwrap();
    assert_eq!(merged_counts.get_budget(&rule_id, "."), 10);
}

#[test]
fn test_merge_driver_invalid_toml() {
    let base = create_test_file("base.toml", "");
    let ours = create_test_file("ours.toml", "invalid [[ toml");
    let theirs = create_test_file("theirs.toml", "");

    let result = run_merge_driver_inner(&base, &ours, &theirs);
    assert_eq!(exit_code(&result), EXIT_ERROR);
}

#[test]
fn merge_driver_names_the_first_version_that_fails() {
    let bad = "invalid [[ toml";
    let good = "[no-unwrap]\n\".\" = 1\n";

    let failure = run_merge_driver_inner(
        &create_test_file("b.toml", bad),
        &create_test_file("o.toml", bad),
        &create_test_file("t.toml", good),
    )
    .unwrap_err();
    assert_eq!(failure.label, "base");
    assert_eq!(failure.path, "b.toml");

    let failure = run_merge_driver_inner(
        &create_test_file("b.toml", good),
        &create_test_file("o.toml", good),
        &create_test_file("t.toml", "[\"no rule\"]\n\".\" = 1\n"),
    )
    .unwrap_err();
    assert_eq!(failure.label, "theirs");
    assert_eq!(failure.path, "t.toml");
    assert_eq!(failure.error, ParseError::InvalidRuleId("no rule".to_string()));
    assert_eq!(
        failure.message(),
        "Failed to parse theirs file 't.toml': invalid rule identifier 'no rule'"
    );
}

#[test]
fn merge_driver_fails_on_unreadable_base() {
    let result = run_merge_driver_inner(
        &create_test_file("base.toml", "[r]\n\".\" = -4\n"),
        &create_test_file("ours.toml", "[r]\n\".\" = 4\n"),
        &create_test_file("theirs.toml", "[r]\n\".\" = 3\n"),
    );
    assert_eq!(exit_code(&result), EXIT_ERROR);
    assert_eq!(result.unwrap_err().label, "base");
}

#[test]
fn merge_error_message_carries_the_decoders_reason() {
    let failure = MergeError {
        label: "ours".to_string(),
        path: "counts.toml".to_string(),
        error: ParseError::Malformed("unexpected end".to_string()),
    };
    assert_eq!(
        failure.message(),
        "Failed to parse ours file 'counts.toml': unexpected end"
    );
}

#[test]
fn parse_counts_file_treats_a_missing_file_as_empty() {
    let store = parse_counts_file(&missing_file("nowhere.toml"), "base").unwrap();
    assert_eq!(store.len(), 0);
    let store = parse_counts_file(&create_test_file("here.toml", "[r]\n\"a\" = 2\n"), "ours")
        .unwrap();
    assert_eq!(store.get_count(&RuleId::new("r").unwrap(), &RegionPath::new("a")), Some(2));
}

#[test]
fn merge_scenario_new_rule_in_theirs_only() {
    let base = CountsManager::new();
    let mut ours = CountsManager::new();
    let mut theirs = CountsManager::new();
    let no_unwrap = RuleId::new("no-unwrap").unwrap();
    let no_todo = RuleId::new("no-todo").unwrap();
    let root = RegionPath::new(".");
    ours.set_count(&no_unwrap, &root, 15);
    theirs.set_count(&no_unwrap, &root, 18);
    theirs.set_count(&no_todo, &root, 5);

    let merged = merge_counts(&base, &ours, &theirs);

    assert_eq!(merged.get_count(&no_unwrap, &root), Some(15));
    assert_eq!(merged.get_count(&no_todo, &root), Some(5));
    assert_eq!(merged.len(), 2);
}
