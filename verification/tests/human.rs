use ratchet::engine::aggregator::{AggregationResult, RuleRegionStatus};
use ratchet::output::human::{
    is_renderable, push_located, ColorChoice, HumanFormatter, Segment, Style,
};
use ratchet::rules::Violation;
use ratchet::types::{RegionPath, RuleId};


fn create_test_violation(
    rule_id: &str,
    file_path: &str,
    region: &str,
    line: u32,
    snippet: &str,
) -> Violation {
    Violation {
        rule_id: RuleId::new(rule_id).unwrap(),
        file: file_path.to_string(),
        line,
        column: 5,
        end_line: line,
        end_column: 15,
        snippet: snippet.to_string(),
        message: "Test violation".to_string(),
        region: RegionPath::new(region),
    }
}

fn create_test_status(
    rule_id: &str,
    region: &str,
    actual_count: u64,
    budget: u64,
    violations: Vec<Violation>,
) -> RuleRegionStatus {
    RuleRegionStatus {
        rule_id: RuleId::new(rule_id).unwrap(),
        region: RegionPath::new(region),
        actual_count,
        budget,
        passed: actual_count <= budget,
        violations,
    }
}

#[test]
fn human_test_format_empty_result() {
    let formatter = HumanFormatter::new(ColorChoice::Never);
    let result = AggregationResult {
        statuses: vec![],
        passed: true,
        total_violations: 0,
        violations_over_budget: 0,
    };

    let output = formatter.format(&result);
    assert!(output.contains("No violations found"));
}

#[test]
fn test_format_single_violation_within_budget() {
    let formatter = HumanFormatter::new(ColorChoice::Never);
    let violations = vec![create_test_violation(
        "no-unwrap",
        "src/main.rs",
        "src",
        10,
        ".unwrap()",
    )];
    let status = create_test_status("no-unwrap", "src", 1, 5, violations);
    let result = AggregationResult {
        statuses: vec![status],
        passed: true,
        total_violations: 1,
        violations_over_budget: 0,
    };

    let output = formatter.format(&result);
    assert!(output.contains("no-unwrap"));
    assert!(output.contains("[1 violation]"));
    assert!(output.contains("src/main.rs:10:5"));
    assert!(output.contains(".unwrap()"));
    assert!(output.contains("✓"));
    assert!(output.contains("1 violations (budget: 5)"));
    assert!(output.contains("Check PASSED"));
}

#[test]
fn test_format_multiple_violations_same_rule() {
    let formatter = HumanFormatter::new(ColorChoice::Never);
    let violations = vec![
        create_test_violation("no-unwrap", "src/main.rs", "src", 10, ".unwrap()"),
        create_test_violation("no-unwrap", "src/lib.rs", "src", 20, "result.unwrap()"),
    ];
    let status = create_test_status("no-unwrap", "src", 2, 5, violations);
    let result = AggregationResult {
        statuses: vec![status],
        passed: true,
        total_violations: 2,
        violations_over_budget: 0,
    };

    let output = formatter.format(&result);
    assert!(output.contains("no-unwrap"));
    assert!(output.contains("[2 violations]"));
    assert!(output.contains("src/main.rs:10:5"));
    assert!(output.contains("src/lib.rs:20:5"));
    assert!(output.contains(".unwrap()"));
    assert!(output.contains("result.unwrap()"));
    assert!(output.contains("Check PASSED"));
}

#[test]
fn human_test_format_violation_over_budget() {
    let formatter = HumanFormatter::new(ColorChoice::Never);
    let violations = vec![
        create_test_violation("no-unwrap", "src/main.rs", "src", 10, ".unwrap()"),
        create_test_violation("no-unwrap", "src/lib.rs", "src", 20, "result.unwrap()"),
    ];
    let status = create_test_status("no-unwrap", "src", 2, 1, violations);
    let result = AggregationResult {
        statuses: vec![status],
        passed: false,
        total_violations: 2,
        violations_over_budget: 1,
    };

    let output = formatter.format(&result);
    assert!(output.contains("no-unwrap"));
    assert!(output.contains("[2 violations]"));
    assert!(output.contains("✗"));
    assert!(output.contains("2 violations (budget: 1) exceeded by 1"));
    assert!(output.contains("Check FAILED: 1 rule exceeded budget"));
}

#[test]
fn test_format_multiple_rules() {
    let formatter = HumanFormatter::new(ColorChoice::Never);
    let violations1 = vec![create_test_violation(
        "no-unwrap",
        "src/main.rs",
        "src",
        10,
        ".unwrap()",
    )];
    let violations2 = vec![create_test_violation(
        "no-todo",
        "src/lib.rs",
        "src",
        20,
        "// TODO: fix",
    )];
    let status1 = create_test_status("no-unwrap", "src", 1, 5, violations1);
    let status2 = create_test_status("no-todo", "src", 1, 3, violations2);
    let result = AggregationResult {
        statuses: vec![status1, status2],
        passed: true,
        total_violations: 2,
        violations_over_budget: 0,
    };

    let output = formatter.format(&result);
    assert!(output.contains("no-unwrap"));
    assert!(output.contains("no-todo"));
    assert!(output.contains("[1 violation]"));
    assert!(output.contains("src/main.rs:10:5"));
    assert!(output.contains("src/lib.rs:20:5"));
    assert!(output.contains("Check PASSED"));
}

#[test]
fn test_format_mixed_pass_fail() {
    let formatter = HumanFormatter::new(ColorChoice::Never);
    let violations1 = vec![create_test_violation(
        "no-unwrap",
        "src/main.rs",
        "src",
        10,
        ".unwrap()",
    )];
    let violations2 = vec![
        create_test_violation("no-todo", "src/lib.rs", "src", 20, "// TODO: fix"),
        create_test_violation("no-todo", "src/util.rs", "src", 30, "// TODO: refactor"),
        create_test_violation("no-todo", "src/test.rs", "src", 40, "// TODO: test"),
        create_test_violation("no-todo", "src/other.rs", "src", 50, "// TODO: cleanup"),
    ];
    let status1 = create_test_status("no-unwrap", "src", 1, 5, violations1);
    let status2 = create_test_status("no-todo", "src", 4, 3, violations2);
    let result = AggregationResult {
        statuses: vec![status1, status2],
        passed: false,
        total_violations: 5,
        violations_over_budget: 1,
    };

    let output = formatter.format(&result);
    assert!(output.contains("no-unwrap"));
    assert!(output.contains("no-todo"));
    assert!(output.contains("[1 violation]"));
    assert!(output.contains("[4 violations]"));
    assert!(output.contains("✓ no-unwrap: 1 violations (budget: 5)"));
    assert!(output.contains("✗ no-todo: 4 violations (budget: 3) exceeded by 1"));
    assert!(output.contains("Check FAILED: 1 rule exceeded budget"));
}

#[test]
fn test_format_multiple_rules_exceeded() {
    let formatter = HumanFormatter::new(ColorChoice::Never);
    let violations1 = vec![
        create_test_violation("no-unwrap", "src/main.rs", "src", 10, ".unwrap()"),
        create_test_violation("no-unwrap", "src/lib.rs", "src", 20, "result.unwrap()"),
    ];
    let violations2 = vec![
        create_test_violation("no-todo", "src/test.rs", "src", 30, "// TODO: fix"),
        create_test_violation("no-todo", "src/util.rs", "src", 40, "// TODO: refactor"),
    ];
    let status1 = create_test_status("no-unwrap", "src", 2, 1, violations1);
    let status2 = create_test_status("no-todo", "src", 2, 0, violations2);
    let result = AggregationResult {
        statuses: vec![status1, status2],
        passed: false,
        total_violations: 4,
        violations_over_budget: 3,
    };

    let output = formatter.format(&result);
    assert!(output.contains("Check FAILED: 2 rules exceeded budget"));
}

#[test]
fn test_write_to_stdout_no_errors() {
    let formatter = HumanFormatter::new(ColorChoice::Never);
    let violations = vec![create_test_violation(
        "no-unwrap",
        "src/main.rs",
        "src",
        10,
        ".unwrap()",
    )];
    let status = create_test_status("no-unwrap", "src", 1, 5, violations);
    let result = AggregationResult {
        statuses: vec![status],
        passed: true,
        total_violations: 1,
        violations_over_budget: 0,
    };

    // This should not panic. The pieces are what a terminal is given to show.
    let _ = formatter.styled(&result);
}

#[test]
fn test_formatter_with_different_color_choices() {
    // Test that formatters can be created with different color choices
    let _never = HumanFormatter::new(ColorChoice::Never);
    let _always = HumanFormatter::new(ColorChoice::Always);
    let _auto = HumanFormatter::new(ColorChoice::Auto);
}

#[test]
fn test_format_with_special_characters_in_paths() {
    let formatter = HumanFormatter::new(ColorChoice::Never);

    // Test with spaces in path
    let violations1 = vec![create_test_violation(
        "no-unwrap",
        "src/my file.rs",
        "src",
        10,
        ".unwrap()",
    )];

    // Test with unicode in path
    let violations2 = vec![create_test_violation(
        "no-todo",
        "src/日本語.rs",
        "src",
        20,
        "// TODO: fix",
    )];

    let status1 = create_test_status("no-unwrap", "src", 1, 5, violations1);
    let status2 = create_test_status("no-todo", "src", 1, 3, violations2);

    let result = AggregationResult {
        statuses: vec![status1, status2],
        passed: true,
        total_violations: 2,
        violations_over_budget: 0,
    };

    let output = formatter.format(&result);

    // Verify paths with special characters are handled correctly
    assert!(output.contains("src/my file.rs:10:5"));
    assert!(output.contains("src/日本語.rs:20:5"));
}

#[test]
fn test_format_with_special_characters_in_snippets() {
    let formatter = HumanFormatter::new(ColorChoice::Never);

    // Test with various special characters in snippets
    let violations = vec![
        create_test_violation(
            "no-unwrap",
            "src/main.rs",
            "src",
            10,
            "\"hello\\nworld\".unwrap()",
        ),
        create_test_violation("no-unwrap", "src/lib.rs", "src", 20, "emoji: 🦀.unwrap()"),
        create_test_violation(
            "no-unwrap",
            "src/util.rs",
            "src",
            30,
            "json: {\"key\": \"value\"}.unwrap()",
        ),
    ];

    let status = create_test_status("no-unwrap", "src", 3, 5, violations);

    let result = AggregationResult {
        statuses: vec![status],
        passed: true,
        total_violations: 3,
        violations_over_budget: 0,
    };

    let output = formatter.format(&result);

    // Verify special characters in snippets are preserved
    assert!(output.contains("\"hello\\nworld\".unwrap()"));
    assert!(output.contains("emoji: 🦀.unwrap()"));
    assert!(output.contains("json: {\"key\": \"value\"}.unwrap()"));
}

#[test]
fn test_format_with_leading_trailing_whitespace() {
    let formatter = HumanFormatter::new(ColorChoice::Never);

    // Test snippet trimming behavior
    let violations = vec![create_test_violation(
        "no-unwrap",
        "src/main.rs",
        "src",
        10,
        "    .unwrap()    ",
    )];

    let status = create_test_status("no-unwrap", "src", 1, 5, violations);

    let result = AggregationResult {
        statuses: vec![status],
        passed: true,
        total_violations: 1,
        violations_over_budget: 0,
    };

    let output = formatter.format(&result);

    // Verify whitespace is trimmed in output
    assert!(output.contains(".unwrap()"));
    // Should not have leading/trailing spaces around the snippet
    let lines: Vec<&str> = output.lines().collect();
    let snippet_line = lines.iter().find(|l| l.contains(".unwrap()")).unwrap();
    assert_eq!(snippet_line.trim_end(), "      .unwrap()");
}

#[test]
fn test_format_deterministic_output() {
    let formatter = HumanFormatter::new(ColorChoice::Never);

    // Create the same result multiple times and verify output is identical
    let violations = [
        create_test_violation("no-unwrap", "src/main.rs", "src", 10, ".unwrap()"),
        create_test_violation("no-todo", "src/lib.rs", "src", 20, "// TODO: fix"),
    ];

    let status1 = create_test_status("no-unwrap", "src", 1, 5, vec![violations[0].clone()]);
    let status2 = create_test_status("no-todo", "src", 1, 3, vec![violations[1].clone()]);

    let result = AggregationResult {
        statuses: vec![status1, status2],
        passed: true,
        total_violations: 2,
        violations_over_budget: 0,
    };

    // Format multiple times
    let output1 = formatter.format(&result);
    let output2 = formatter.format(&result);
    let output3 = formatter.format(&result);

    // All outputs should be identical
    assert_eq!(output1, output2);
    assert_eq!(output2, output3);
}

#[test]
fn test_format_color_choice_never() {
    // Test with ColorChoice::Never explicitly
    let formatter = HumanFormatter::new(ColorChoice::Never);
    let violations = vec![create_test_violation(
        "no-unwrap",
        "src/main.rs",
        "src",
        10,
        ".unwrap()",
    )];
    let status = create_test_status("no-unwrap", "src", 1, 5, violations);
    let result = AggregationResult {
        statuses: vec![status],
        passed: true,
        total_violations: 1,
        violations_over_budget: 0,
    };

    let output = formatter.format(&result);
    // format() always returns plain text without ANSI codes regardless of color_choice
    // This is just testing that it doesn't error
    assert!(output.contains("no-unwrap"));
}

#[test]
fn test_format_color_choice_always() {
    // Test with ColorChoice::Always
    let formatter = HumanFormatter::new(ColorChoice::Always);
    let violations = vec![create_test_violation(
        "no-unwrap",
        "src/main.rs",
        "src",
        10,
        ".unwrap()",
    )];
    let status = create_test_status("no-unwrap", "src", 1, 5, violations);
    let result = AggregationResult {
        statuses: vec![status],
        passed: true,
        total_violations: 1,
        violations_over_budget: 0,
    };

    let output = formatter.format(&result);
    // format() always returns plain text without ANSI codes regardless of color_choice
    // This is just testing that it doesn't error
    assert!(output.contains("no-unwrap"));
}

#[test]
fn test_format_color_choice_auto() {
    // Test with ColorChoice::Auto
    let formatter = HumanFormatter::new(ColorChoice::Auto);
    let violations = vec![create_test_violation(
        "no-unwrap",
        "src/main.rs",
        "src",
        10,
        ".unwrap()",
    )];
    let status = create_test_status("no-unwrap", "src", 1, 5, violations);
    let result = AggregationResult {
        statuses: vec![status],
        passed: true,
        total_violations: 1,
        violations_over_budget: 0,
    };

    let output = formatter.format(&result);
    // format() always returns plain text without ANSI codes regardless of color_choice
    // This is just testing that it doesn't error
    assert!(output.contains("no-unwrap"));
}

#[test]
fn test_format_empty_snippet() {
    let formatter = HumanFormatter::new(ColorChoice::Never);

    let violations = vec![create_test_violation(
        "no-unwrap",
        "src/main.rs",
        "src",
        10,
        "",
    )];

    let status = create_test_status("no-unwrap", "src", 1, 5, violations);

    let result = AggregationResult {
        statuses: vec![status],
        passed: true,
        total_violations: 1,
        violations_over_budget: 0,
    };

    let output = formatter.format(&result);

    // Should handle empty snippets gracefully
    assert!(output.contains("src/main.rs:10:5"));
}

#[test]
fn test_format_long_snippet() {
    let formatter = HumanFormatter::new(ColorChoice::Never);

    let long_snippet = "a".repeat(500);
    let violations = vec![create_test_violation(
        "no-unwrap",
        "src/main.rs",
        "src",
        10,
        &long_snippet,
    )];

    let status = create_test_status("no-unwrap", "src", 1, 5, violations);

    let result = AggregationResult {
        statuses: vec![status],
        passed: true,
        total_violations: 1,
        violations_over_budget: 0,
    };

    let output = formatter.format(&result);

    // Should handle long snippets without crashing
    assert!(output.contains("src/main.rs:10:5"));
    assert!(output.contains(&long_snippet));
}

#[test]
fn test_format_region_status_no_violations() {
    let formatter = HumanFormatter::new(ColorChoice::Never);

    // Create a status with 0 actual violations but positive budget
    let status = create_test_status("no-unwrap", "src", 0, 5, vec![]);

    let result = AggregationResult {
        statuses: vec![status],
        passed: true,
        total_violations: 0,
        violations_over_budget: 0,
    };

    let output = formatter.format(&result);

    // Should still show the rule in summary even with no violations
    assert!(output.contains("no-unwrap"));
    assert!(output.contains("0 violations (budget: 5)"));
    assert!(output.contains("✓"));
    assert!(output.contains("Check PASSED"));
}

fn piece(style: Style, text: &str) -> Segment {
    Segment { style, text: text.to_string() }
}

#[test]
fn styled_report_of_no_statuses() {
    let formatter = HumanFormatter::new(ColorChoice::Auto);
    let result = AggregationResult {
        statuses: vec![],
        passed: true,
        total_violations: 0,
        violations_over_budget: 0,
    };
    assert_eq!(
        formatter.styled(&result),
        vec![piece(Style::Green, "No violations found\n")]
    );
    assert_eq!(formatter.format(&result), "No violations found\n");
}

#[test]
fn styled_report_gives_each_piece_its_style() {
    let formatter = HumanFormatter::new(ColorChoice::Always);
    let first = create_test_status(
        "no-todo",
        "src",
        1,
        3,
        vec![create_test_violation("no-todo", "src/a.rs", "src", 7, "  // TODO later \t")],
    );
    let second = create_test_status(
        "no-unwrap",
        "src",
        2,
        1,
        vec![
            create_test_violation("no-unwrap", "src/a.rs", "src", 10, ".unwrap()"),
            create_test_violation("no-unwrap", "src/b.rs", "src", 20, "x.unwrap()"),
        ],
    );
    let third = create_test_status("no-unwrap", "tests", 0, 5, vec![]);
    let result = AggregationResult {
        statuses: vec![first, second, third],
        passed: false,
        total_violations: 3,
        violations_over_budget: 1,
    };

    let pieces = formatter.styled(&result);

    assert_eq!(
        pieces,
        vec![
            piece(Style::Bold, "no-todo"),
            piece(Style::Plain, " "),
            piece(Style::Bold, "[1 violation]"),
            piece(Style::Plain, "\n\n"),
            piece(Style::Plain, "  "),
            piece(Style::Cyan, "src/a.rs:7:5"),
            piece(Style::Plain, "\n      // TODO later\n\n"),
            piece(Style::Plain, "\n"),
            piece(Style::Bold, "no-unwrap"),
            piece(Style::Plain, " "),
            piece(Style::Bold, "[2 violations]"),
            piece(Style::Plain, "\n\n"),
            piece(Style::Plain, "  "),
            piece(Style::Cyan, "src/a.rs:10:5"),
            piece(Style::Plain, "\n      .unwrap()\n\n"),
            piece(Style::Plain, "  "),
            piece(Style::Cyan, "src/b.rs:20:5"),
            piece(Style::Plain, "\n      x.unwrap()\n\n"),
            piece(Style::Bold, "Summary:\n"),
            piece(Style::Plain, "\n"),
            piece(Style::Plain, "  "),
            piece(Style::Green, "\u{2713}"),
            piece(Style::Plain, " no-todo: "),
            piece(Style::Bold, "1"),
            piece(Style::Plain, " violations (budget: "),
            piece(Style::Bold, "3"),
            piece(Style::Plain, ")\n"),
            piece(Style::Plain, "  "),
            piece(Style::Red, "\u{2717}"),
            piece(Style::Plain, " no-unwrap: "),
            piece(Style::Bold, "2"),
            piece(Style::Plain, " violations (budget: "),
            piece(Style::Bold, "1"),
            piece(Style::Plain, ") "),
            piece(Style::Red, "exceeded by "),
            piece(Style::RedBold, "1"),
            piece(Style::Plain, "\n"),
            piece(Style::Plain, "  "),
            piece(Style::Green, "\u{2713}"),
            piece(Style::Plain, " no-unwrap: "),
            piece(Style::Bold, "0"),
            piece(Style::Plain, " violations (budget: "),
            piece(Style::Bold, "5"),
            piece(Style::Plain, ")\n"),
            piece(Style::Plain, "\n"),
            piece(Style::RedBold, "Check FAILED: 1 rule exceeded budget"),
            piece(Style::Plain, "\n"),
        ]
    );
}

#[test]
fn plain_report_is_the_text_of_the_pieces() {
    let formatter = HumanFormatter::new(ColorChoice::Never);
    let status = create_test_status(
        "no-unwrap",
        "src",
        1,
        5,
        vec![create_test_violation("no-unwrap", "src/main.rs", "src", 10, " .unwrap() ")],
    );
    let result = AggregationResult {
        statuses: vec![status],
        passed: true,
        total_violations: 1,
        violations_over_budget: 0,
    };

    let text = formatter.format(&result);
    let joined: String = formatter.styled(&result).iter().map(|s| s.text.as_str()).collect();

    assert_eq!(text, joined);
    assert_eq!(
        text,
        "no-unwrap [1 violation]\n\n  src/main.rs:10:5\n      .unwrap()\n\n\
         Summary:\n\n  \u{2713} no-unwrap: 1 violations (budget: 5)\n\nCheck PASSED\n"
    );
}

#[test]
fn heading_counts_a_rule_over_all_its_regions() {
    let formatter = HumanFormatter::new(ColorChoice::Never);
    let result = AggregationResult {
        statuses: vec![
            create_test_status("no-unwrap", "src", 2, 5, vec![]),
            create_test_status("no-todo", "src", 4, 5, vec![]),
            create_test_status("no-unwrap", "tests", 3, 5, vec![]),
        ],
        passed: true,
        total_violations: 9,
        violations_over_budget: 0,
    };
    let text = formatter.format(&result);
    assert!(text.starts_with("no-unwrap [5 violations]\n\n\nno-todo [4 violations]\n\n\nno-unwrap [5 violations]\n\nSummary:"));
}

#[test]
fn formatter_keeps_its_color_choice() {
    assert_eq!(HumanFormatter::new(ColorChoice::AlwaysAnsi).color_choice(), ColorChoice::AlwaysAnsi);
    assert_eq!(HumanFormatter::new(ColorChoice::Never).color_choice(), ColorChoice::Never);
}

/// The snippet as the report shows it.
fn shown_snippet(formatter: &HumanFormatter, snippet: &str) -> String {
    let status = create_test_status(
        "r",
        ".",
        1,
        5,
        vec![create_test_violation("r", "f", ".", 1, snippet)],
    );
    let result = AggregationResult {
        statuses: vec![status],
        passed: true,
        total_violations: 1,
        violations_over_budget: 0,
    };
    let pieces = formatter.styled(&result);
    let text = &pieces[6].text;
    text.strip_prefix("\n      ").unwrap().strip_suffix("\n\n").unwrap().to_string()
}

#[test]
fn snippets_lose_white_space_at_both_ends_only() {
    let formatter = HumanFormatter::new(ColorChoice::Never);
    let white: Vec<char> = vec![
        '\u{9}', '\u{a}', '\u{b}', '\u{c}', '\u{d}', ' ', '\u{85}', '\u{a0}', '\u{1680}',
        '\u{2000}', '\u{2001}', '\u{2002}', '\u{2003}', '\u{2004}', '\u{2005}', '\u{2006}',
        '\u{2007}', '\u{2008}', '\u{2009}', '\u{200a}', '\u{2028}', '\u{2029}', '\u{202f}',
        '\u{205f}', '\u{3000}',
    ];
    let mut code: u32 = 0;
    while code <= 0x10FFFF {
        if let Some(c) = char::from_u32(code) {
            let snippet = format!("{}a{}b{}", c, c, c);
            let expected = if white.contains(&c) { format!("a{}b", c) } else { snippet.clone() };
            assert_eq!(shown_snippet(&formatter, &snippet), expected, "U+{:04X}", code);
        }
        // Every character up to the last white space and a little beyond, and
        // one in a hundred of the rest.
        code += if code < 0x3100 { 1 } else { 101 };
    }
    assert_eq!(shown_snippet(&formatter, " \t\n"), "");
    assert_eq!(shown_snippet(&formatter, ""), "");
    assert_eq!(shown_snippet(&formatter, "\u{3000} x  y \u{85}\r\n"), "x  y");
}

#[test]
fn located_pieces_show_the_snippet_as_given() {
    let mut pieces = vec![piece(Style::Bold, "before")];
    push_located(&mut pieces, "src/a b.rs", 12, 3, "  kept as it is ");
    assert_eq!(
        pieces,
        vec![
            piece(Style::Bold, "before"),
            piece(Style::Plain, "  "),
            piece(Style::Cyan, "src/a b.rs:12:3"),
            piece(Style::Plain, "\n        kept as it is \n\n"),
        ]
    );
}

#[test]
fn counts_of_different_rules_need_not_fit_together() {
    let formatter = HumanFormatter::new(ColorChoice::Never);
    let result = AggregationResult {
        statuses: vec![
            create_test_status("a", ".", u64::MAX, u64::MAX, vec![]),
            create_test_status("b", ".", u64::MAX - 1, 0, vec![]),
            create_test_status("b", "src", 1, 1, vec![]),
        ],
        passed: false,
        total_violations: 0,
        violations_over_budget: 0,
    };
    let text = formatter.format(&result);
    assert!(text.starts_with(
        "a [18446744073709551615 violations]\n\n\nb [18446744073709551615 violations]\n\n"
    ));
    assert!(text.contains("b: 18446744073709551614 violations (budget: 0) exceeded by 18446744073709551614\n"));
}

#[test]
fn is_renderable_tells_which_results_can_be_rendered() {
    let fine = AggregationResult {
        statuses: vec![
            create_test_status("a", ".", u64::MAX, u64::MAX, vec![]),
            create_test_status("b", ".", u64::MAX - 1, 0, vec![]),
            create_test_status("b", "src", 1, 1, vec![]),
        ],
        passed: false,
        total_violations: 0,
        violations_over_budget: 0,
    };
    assert!(is_renderable(&fine));

    let empty = AggregationResult {
        statuses: vec![],
        passed: true,
        total_violations: 0,
        violations_over_budget: 0,
    };
    assert!(is_renderable(&empty));

    // The counts of rule `b` do not fit into 64 bits.
    let too_many = AggregationResult {
        statuses: vec![
            create_test_status("b", ".", u64::MAX, u64::MAX, vec![]),
            create_test_status("a", ".", 3, 5, vec![]),
            create_test_status("b", "src", 1, 1, vec![]),
        ],
        passed: true,
        total_violations: 0,
        violations_over_budget: 0,
    };
    assert!(!is_renderable(&too_many));

    // A status that did not pass, with a count below its budget.
    let mut odd = create_test_status("a", ".", 3, 5, vec![]);
    odd.passed = false;
    let at_odds = AggregationResult {
        statuses: vec![odd],
        passed: false,
        total_violations: 3,
        violations_over_budget: 0,
    };
    assert!(!is_renderable(&at_odds));
}
