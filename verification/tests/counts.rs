use ratchet::config::counts::CountsManager;
use ratchet::config::tables::{from_tables, render_tables, ParseError, RegionCount, RuleTable};
use ratchet::types::{RegionPath, RuleId};

fn rule(text: &str) -> RuleId {
    RuleId::new(text).unwrap()
}

fn triples(store: &CountsManager) -> Vec<(String, String, u64)> {
    store
        .entries()
        .iter()
        .map(|(r, p, c)| (r.as_str().to_string(), p.as_str().to_string(), *c))
        .collect()
}

#[test]
fn rule_id_accepts_letters_digits_hyphen_underscore() {
    assert_eq!(RuleId::new("no-unwrap").unwrap().as_str(), "no-unwrap");
    assert_eq!(RuleId::new("Rule_1").unwrap().as_str(), "Rule_1");
    assert!(RuleId::new("a").is_some());
}

#[test]
fn rule_id_rejects_empty_and_other_characters() {
    assert!(RuleId::new("").is_none());
    assert!(RuleId::new("invalid rule with spaces!").is_none());
    assert!(RuleId::new("no.unwrap").is_none());
    assert!(RuleId::new("règle").is_none());
    assert!(RuleId::new("a/b").is_none());
}

#[test]
fn rule_id_is_case_sensitive() {
    assert_ne!(rule("No-Unwrap"), rule("no-unwrap"));
    let mut store = CountsManager::new();
    store.set_count(&rule("No-Unwrap"), &RegionPath::new("."), 3);
    assert_eq!(store.get_budget(&rule("no-unwrap"), "a.rs"), 0);
    assert_eq!(store.get_budget(&rule("No-Unwrap"), "a.rs"), 3);
}

#[test]
fn region_path_is_normalized() {
    assert_eq!(RegionPath::new("src").as_str(), "src");
    assert_eq!(RegionPath::new("src/").as_str(), "src");
    assert_eq!(RegionPath::new("src/legacy///").as_str(), "src/legacy");
    assert_eq!(RegionPath::new(".").as_str(), ".");
    assert_eq!(RegionPath::new("").as_str(), ".");
    assert_eq!(RegionPath::new("/").as_str(), ".");
}

#[test]
fn budget_resolves_to_nearest_ancestor() {
    let mut store = CountsManager::new();
    let r = rule("no-unwrap");
    store.set_count(&r, &RegionPath::new("."), 20);
    store.set_count(&r, &RegionPath::new("src"), 5);
    store.set_count(&r, &RegionPath::new("src/legacy"), 15);

    assert_eq!(store.get_budget(&r, "src/legacy/old.ext"), 15);
    assert_eq!(store.get_budget(&r, "src/legacy/deep/er/old.ext"), 15);
    assert_eq!(store.get_budget(&r, "src/main.ext"), 5);
    assert_eq!(store.get_budget(&r, "src/other/x.ext"), 5);
    assert_eq!(store.get_budget(&r, "README"), 20);
    assert_eq!(store.get_budget(&r, "tests/it.ext"), 20);
    assert_eq!(store.get_budget(&r, "."), 20);
}

#[test]
fn budget_matches_whole_segments_only() {
    let mut store = CountsManager::new();
    let r = rule("no-unwrap");
    store.set_count(&r, &RegionPath::new("src"), 5);

    assert_eq!(store.get_budget(&r, "src/x"), 5);
    assert_eq!(store.get_budget(&r, "srcx/y"), 0);
    assert_eq!(store.get_budget(&r, "sr/c"), 0);
    assert_eq!(store.get_budget(&r, "a/src/x"), 0);
}

#[test]
fn budget_of_a_path_is_not_that_of_its_own_name() {
    let mut store = CountsManager::new();
    let r = rule("no-unwrap");
    store.set_count(&r, &RegionPath::new("src"), 5);
    store.set_count(&r, &RegionPath::new("."), 1);

    assert_eq!(store.get_budget(&r, "src"), 1);
    assert_eq!(store.get_budget(&r, "src/"), 5);
}

#[test]
fn budget_defaults_to_zero() {
    let mut store = CountsManager::new();
    assert_eq!(store.get_budget(&rule("no-unwrap"), "src/main.ext"), 0);
    store.set_count(&rule("no-todo"), &RegionPath::new("."), 9);
    store.set_count(&rule("no-unwrap"), &RegionPath::new("lib"), 9);
    assert_eq!(store.get_budget(&rule("no-unwrap"), "src/main.ext"), 0);
    assert_eq!(store.get_budget(&rule("never-configured"), "lib/a"), 0);
    assert_eq!(store.get_budget(&rule("never-configured"), ""), 0);
}

#[test]
fn budget_is_the_same_on_repeated_calls() {
    let mut store = CountsManager::new();
    let r = rule("no-unwrap");
    store.set_count(&r, &RegionPath::new("src"), 5);
    let first = store.get_budget(&r, "src/a/b.ext");
    let second = store.get_budget(&r, "src/a/b.ext");
    assert_eq!(first, 5);
    assert_eq!(first, second);
}

#[test]
fn paths_under_the_same_region_share_a_budget() {
    let mut store = CountsManager::new();
    let r = rule("no-unwrap");
    store.set_count(&r, &RegionPath::new("src"), 7);
    store.set_count(&r, &RegionPath::new("src/legacy"), 2);
    assert_eq!(store.get_budget(&r, "src/a.ext"), 7);
    assert_eq!(store.get_budget(&r, "src/b/c/d.ext"), 7);
    assert_eq!(store.get_budget(&r, "src/b/e.ext"), 7);
}

#[test]
fn set_count_overwrites() {
    let mut store = CountsManager::new();
    let r = rule("no-unwrap");
    let root = RegionPath::new(".");
    store.set_count(&r, &root, 20);
    store.set_count(&r, &root, 3);
    assert_eq!(store.len(), 1);
    assert_eq!(store.get_count(&r, &root), Some(3));
    assert_eq!(store.get_count(&r, &RegionPath::new("src")), None);
    assert_eq!(store.get_count(&rule("other"), &root), None);
}

#[test]
fn entries_come_in_ascending_order() {
    let mut store = CountsManager::new();
    store.set_count(&rule("rule-b"), &RegionPath::new("a-region"), 1);
    store.set_count(&rule("rule-a"), &RegionPath::new("z-region"), 2);
    store.set_count(&rule("rule-a"), &RegionPath::new("a-region"), 3);
    store.set_count(&rule("rule-a"), &RegionPath::new("a"), 4);
    store.set_count(&rule("Rule"), &RegionPath::new("."), 5);
    assert_eq!(
        triples(&store),
        vec![
            ("Rule".to_string(), ".".to_string(), 5),
            ("rule-a".to_string(), "a".to_string(), 4),
            ("rule-a".to_string(), "a-region".to_string(), 3),
            ("rule-a".to_string(), "z-region".to_string(), 2),
            ("rule-b".to_string(), "a-region".to_string(), 1),
        ]
    );
}

#[test]
fn to_toml_string_of_empty_store_is_empty() {
    assert_eq!(CountsManager::new().to_toml_string(), "");
}

#[test]
fn to_toml_string_writes_sorted_tables() {
    let mut store = CountsManager::new();
    store.set_count(&rule("no-unwrap"), &RegionPath::new("src"), 5);
    store.set_count(&rule("no-unwrap"), &RegionPath::new("."), 20);
    store.set_count(&rule("no-todo"), &RegionPath::new("."), 0);
    assert_eq!(
        store.to_toml_string(),
        "[no-todo]\n\".\" = 0\n\n[no-unwrap]\n\".\" = 20\n\"src\" = 5\n"
    );
}

#[test]
fn to_toml_string_does_not_depend_on_insertion_order() {
    let mut first = CountsManager::new();
    first.set_count(&rule("b"), &RegionPath::new("x"), 1);
    first.set_count(&rule("a"), &RegionPath::new("y"), 2);
    first.set_count(&rule("a"), &RegionPath::new("."), 3);
    let mut second = CountsManager::new();
    second.set_count(&rule("a"), &RegionPath::new("."), 9);
    second.set_count(&rule("a"), &RegionPath::new("y"), 2);
    second.set_count(&rule("b"), &RegionPath::new("x"), 1);
    second.set_count(&rule("a"), &RegionPath::new("."), 3);
    assert_eq!(first.to_toml_string(), second.to_toml_string());
}

#[test]
fn to_toml_string_writes_large_numbers_in_decimal() {
    let mut store = CountsManager::new();
    store.set_count(&rule("r"), &RegionPath::new("."), 1234567890);
    store.set_count(&rule("r"), &RegionPath::new("a"), 10);
    store.set_count(&rule("r"), &RegionPath::new("b"), u64::MAX);
    assert_eq!(
        store.to_toml_string(),
        "[r]\n\".\" = 1234567890\n\"a\" = 10\n\"b\" = 18446744073709551615\n"
    );
}

#[test]
fn to_toml_string_escapes_region_keys() {
    let mut store = CountsManager::new();
    store.set_count(&rule("r"), &RegionPath::new("a\"b"), 1);
    store.set_count(&rule("r"), &RegionPath::new("c\\d"), 2);
    store.set_count(&rule("r"), &RegionPath::new("e\tf"), 3);
    store.set_count(&rule("r"), &RegionPath::new("g\u{7f}h"), 4);
    store.set_count(&rule("r"), &RegionPath::new("héllo"), 5);
    assert_eq!(
        store.to_toml_string(),
        "[r]\n\"a\\\"b\" = 1\n\"c\\\\d\" = 2\n\"e\\u0009f\" = 3\n\"g\\u007Fh\" = 4\n\"héllo\" = 5\n"
    );
}

#[test]
fn parse_reads_the_documented_format() {
    let text = "[no-unwrap]\n\".\" = 20\n\"src\" = 5\n\n[no-todo]\n\".\" = 0\n";
    let store = CountsManager::parse(text).unwrap();
    assert_eq!(
        triples(&store),
        vec![
            ("no-todo".to_string(), ".".to_string(), 0),
            ("no-unwrap".to_string(), ".".to_string(), 20),
            ("no-unwrap".to_string(), "src".to_string(), 5),
        ]
    );
    assert_eq!(store.get_budget(&rule("no-unwrap"), "src/legacy/old.ext"), 5);
}

#[test]
fn parse_of_empty_text_is_empty_store() {
    let store = CountsManager::parse("").unwrap();
    assert_eq!(store.len(), 0);
    assert_eq!(store.to_toml_string(), "");
}

#[test]
fn parse_rejects_invalid_toml() {
    assert!(matches!(
        CountsManager::parse("invalid [[ toml"),
        Err(ParseError::Malformed(_))
    ));
}

#[test]
fn parse_rejects_negative_budget() {
    assert!(matches!(
        CountsManager::parse("[no-unwrap]\n\".\" = -1\n"),
        Err(ParseError::Malformed(_))
    ));
}

#[test]
fn parse_rejects_non_integer_budget() {
    assert!(matches!(
        CountsManager::parse("[no-unwrap]\n\".\" = 1.5\n"),
        Err(ParseError::Malformed(_))
    ));
    assert!(matches!(
        CountsManager::parse("[no-unwrap]\n\".\" = \"many\"\n"),
        Err(ParseError::Malformed(_))
    ));
    assert!(matches!(
        CountsManager::parse("[no-unwrap]\n\".\" = true\n"),
        Err(ParseError::Malformed(_))
    ));
}

#[test]
fn parse_rejects_malformed_structure() {
    assert!(matches!(
        CountsManager::parse("no-unwrap = 3\n"),
        Err(ParseError::Malformed(_))
    ));
    assert!(matches!(
        CountsManager::parse("[no-unwrap.src]\n\".\" = 3\n"),
        Err(ParseError::Malformed(_))
    ));
}

#[test]
fn parse_rejects_invalid_rule_name() {
    let outcome = CountsManager::parse("[ok]\n\".\" = 1\n\n[\"not a rule\"]\n\".\" = 3\n");
    match outcome {
        Err(ParseError::InvalidRuleId(name)) => assert_eq!(name, "not a rule"),
        other => panic!("expected an invalid rule name, got {:?}", other),
    }
}

#[test]
fn parse_normalizes_region_keys() {
    let store = CountsManager::parse("[r]\n\"src/\" = 4\n").unwrap();
    assert_eq!(triples(&store), vec![("r".to_string(), "src".to_string(), 4)]);
}

#[test]
fn round_trip_reproduces_the_store() {
    let mut store = CountsManager::new();
    store.set_count(&rule("no-unwrap"), &RegionPath::new("."), 20);
    store.set_count(&rule("no-unwrap"), &RegionPath::new("src"), 5);
    store.set_count(&rule("no-unwrap"), &RegionPath::new("src/legacy"), 15);
    store.set_count(&rule("no-todo"), &RegionPath::new("."), 0);
    store.set_count(&rule("Z_9"), &RegionPath::new("we ird/\"q\"\\p\u{1}"), 7);
    store.set_count(&rule("big"), &RegionPath::new("."), u64::MAX);

    let text = store.to_toml_string();
    let back = CountsManager::parse(&text).unwrap();

    assert_eq!(triples(&back), triples(&store));
    assert_eq!(back.to_toml_string(), text);
}

#[test]
fn round_trip_of_empty_store() {
    let store = CountsManager::new();
    let back = CountsManager::parse(&store.to_toml_string()).unwrap();
    assert_eq!(triples(&back), Vec::<(String, String, u64)>::new());
}

#[test]
fn tables_round_trip() {
    let mut store = CountsManager::new();
    store.set_count(&rule("b"), &RegionPath::new("x"), 1);
    store.set_count(&rule("a"), &RegionPath::new("y"), 2);
    store.set_count(&rule("a"), &RegionPath::new("."), 3);

    let tables = store.to_tables();
    assert_eq!(
        tables,
        vec![
            RuleTable {
                rule: "a".to_string(),
                regions: vec![
                    RegionCount { region: ".".to_string(), count: 3 },
                    RegionCount { region: "y".to_string(), count: 2 },
                ],
            },
            RuleTable {
                rule: "b".to_string(),
                regions: vec![RegionCount { region: "x".to_string(), count: 1 }],
            },
        ]
    );
    let back = from_tables(&tables).unwrap();
    assert_eq!(triples(&back), triples(&store));
}

#[test]
fn from_tables_lets_the_later_line_stand() {
    let tables = vec![
        RuleTable {
            rule: "a".to_string(),
            regions: vec![
                RegionCount { region: "src".to_string(), count: 3 },
                RegionCount { region: "src/".to_string(), count: 8 },
            ],
        },
    ];
    let store = from_tables(&tables).unwrap();
    assert_eq!(triples(&store), vec![("a".to_string(), "src".to_string(), 8)]);
}

#[test]
fn from_tables_reports_the_first_invalid_name() {
    let tables = vec![
        RuleTable { rule: "fine".to_string(), regions: vec![] },
        RuleTable { rule: "not fine".to_string(), regions: vec![] },
        RuleTable { rule: "".to_string(), regions: vec![] },
    ];
    match from_tables(&tables) {
        Err(error) => assert_eq!(error, ParseError::InvalidRuleId("not fine".to_string())),
        Ok(_) => panic!("expected an invalid rule name"),
    }
}

#[test]
fn render_tables_puts_an_empty_line_between_tables() {
    let tables = vec![
        RuleTable { rule: "a".to_string(), regions: vec![] },
        RuleTable {
            rule: "b".to_string(),
            regions: vec![RegionCount { region: ".".to_string(), count: 0 }],
        },
    ];
    assert_eq!(render_tables(&tables), "[a]\n\n[b]\n\".\" = 0\n");
}

#[test]
fn parse_reads_every_budget_that_is_written() {
    let mut store = CountsManager::new();
    store.set_count(&rule("r"), &RegionPath::new("."), u64::MAX);
    store.set_count(&rule("r"), &RegionPath::new("a"), 9223372036854775808);
    let text = store.to_toml_string();
    assert_eq!(
        text,
        "[r]\n\".\" = 18446744073709551615\n\"a\" = 9223372036854775808\n"
    );
    let back = CountsManager::parse(&text).unwrap();
    assert_eq!(triples(&back), triples(&store));
}

#[test]
fn parse_rejects_a_budget_beyond_64_bits() {
    assert!(matches!(
        CountsManager::parse("[r]\n\".\" = 18446744073709551616\n"),
        Err(ParseError::Malformed(_))
    ));
}

#[test]
fn parse_error_says_what_went_wrong() {
    match CountsManager::parse("[r]\n\".\" = -1\n") {
        Err(error) => assert!(!error.message().is_empty()),
        Ok(_) => panic!("a negative budget was accepted"),
    }
    assert_eq!(
        ParseError::InvalidRuleId("a b".to_string()).message(),
        "invalid rule identifier 'a b'"
    );
    assert_eq!(ParseError::Malformed("as the decoder says".to_string()).message(), "as the decoder says");
}

#[test]
fn round_trip_of_unusual_region_keys() {
    let mut store = CountsManager::new();
    let r = rule("r");
    let keys = [
        "line\nbreak",
        "tab\there",
        "nul\u{0}",
        "escape\u{1b}[0m",
        "del\u{7f}",
        "next\u{85}line",
        "snow\u{2603}man",
        "astral\u{1F600}",
        "quote\"and\\backslash",
        " spaced out ",
        "#not a comment",
        "a = 1",
        "[table]",
        "'single'",
    ];
    for (n, key) in keys.iter().enumerate() {
        store.set_count(&r, &RegionPath::new(key), n as u64);
    }

    let text = store.to_toml_string();
    let back = CountsManager::parse(&text).unwrap();

    assert_eq!(back.len(), keys.len());
    assert_eq!(triples(&back), triples(&store));
    for (n, key) in keys.iter().enumerate() {
        assert_eq!(back.get_count(&r, &RegionPath::new(key)), Some(n as u64));
    }
}

#[test]
fn clone_holds_the_same_budgets_and_is_independent() {
    let mut store = CountsManager::new();
    store.set_count(&rule("a"), &RegionPath::new("x"), 1);
    store.set_count(&rule("b"), &RegionPath::new("."), 2);

    let mut copy = store.clone();
    assert_eq!(triples(&copy), triples(&store));

    copy.set_count(&rule("a"), &RegionPath::new("x"), 0);
    assert_eq!(store.get_count(&rule("a"), &RegionPath::new("x")), Some(1));
    assert_eq!(copy.get_count(&rule("a"), &RegionPath::new("x")), Some(0));
}

#[test]
fn default_store_is_empty() {
    let store = CountsManager::default();
    assert_eq!(store.len(), 0);
    assert_eq!(store.get_budget(&rule("a"), "x/y"), 0);
}
