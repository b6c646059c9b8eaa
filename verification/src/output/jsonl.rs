//! Report as lines of JSON, one object on each line: first the violations,
//! by rule, path of the file and line; then one summary for each rule and
//! region, by rule and region; then one line for the whole.

use vstd::prelude::*;
use vstd::string::*;
use crate::engine::aggregator::{AggregationResult, ResultView, RuleRegionStatus, StatusView};
use crate::output::sorting::{
    lemma_stable_sorted, path_key, path_key_of, ranked_views, sort_ranked, stable_sorted, Ranked,
    RankedLine,
};
use crate::rules::Violation;
use crate::text::{chars_of, decimal, digit_char, push_char, push_decimal};

verus! {

/// The character that writes the digit `d` of a code point in an escape.
pub open spec fn hex_digit(d: nat) -> char {
    if d < 10 {
        digit_char(d)
    } else if d == 10 {
        'a'
    } else if d == 11 {
        'b'
    } else if d == 12 {
        'c'
    } else if d == 13 {
        'd'
    } else if d == 14 {
        'e'
    } else {
        'f'
    }
}

/// How `c` is written inside a JSON string: a quote and a backslash after a
/// backslash; backspace, tab, line feed, form feed and carriage return as a
/// letter after a backslash; any other character below the space by its code
/// point in four hexadecimal digits after `\u`; and every other character as
/// itself.
pub open spec fn json_escaped_char(c: char) -> Seq<char> {
    if c == '"' {
        seq!['\\', '"']
    } else if c == '\\' {
        seq!['\\', '\\']
    } else if c == '\u{8}' {
        seq!['\\', 'b']
    } else if c == '\t' {
        seq!['\\', 't']
    } else if c == '\n' {
        seq!['\\', 'n']
    } else if c == '\u{c}' {
        seq!['\\', 'f']
    } else if c == '\r' {
        seq!['\\', 'r']
    } else if (c as u32) < 0x20 {
        seq![
            '\\',
            'u',
            '0',
            '0',
            hex_digit(((c as u32) / 16) as nat),
            hex_digit(((c as u32) % 16) as nat),
        ]
    } else {
        seq![c]
    }
}

/// The characters of `text`, each as it is written inside a JSON string.
pub open spec fn json_escaped(text: Seq<char>) -> Seq<char>
    decreases text.len(),
{
    if text.len() == 0 {
        Seq::empty()
    } else {
        json_escaped(text.drop_last()) + json_escaped_char(text.last())
    }
}

/// `text` as a JSON string, quotes included.
pub open spec fn json_quoted(text: Seq<char>) -> Seq<char> {
    seq!['"'] + json_escaped(text) + seq!['"']
}

/// Writes `text` as a JSON string with `serde_json::to_string`.
///
/// Trusted: a string is always written, and it is `json_quoted` of the text.
/// The crate writes a string into a vector of bytes, which cannot fail, and
/// escapes by a table that holds the quote, the backslash and the characters
/// below the space.
#[verifier::external_body]
fn quote(text: &str) -> (r: Option<String>)
    ensures
        r is Some,
        r->0@ == json_quoted(text@),
{
    serde_json::to_string(text).ok()
}

/// The object that records one violation, from its texts as JSON strings and
/// its numbers.
pub open spec fn violation_object(
    rule: Seq<char>,
    file: Seq<char>,
    line: u32,
    column: u32,
    end_line: u32,
    end_column: u32,
    snippet: Seq<char>,
    message: Seq<char>,
    region: Seq<char>,
) -> Seq<char> {
    "{\"type\":\"violation\",\"rule\":"@ + rule + ",\"file\":"@ + file + ",\"line\":"@ + decimal(
        line as nat,
    ) + ",\"column\":"@ + decimal(column as nat) + ",\"end_line\":"@ + decimal(end_line as nat)
        + ",\"end_column\":"@ + decimal(end_column as nat) + ",\"snippet\":"@ + snippet
        + ",\"message\":"@ + message + ",\"region\":"@ + region + "}"@
}

/// The object that records one violation of `rule`.
pub open spec fn violation_json(rule: Seq<char>, violation: Violation) -> Seq<char> {
    violation_object(
        json_quoted(rule),
        json_quoted(violation.file@),
        violation.line,
        violation.column,
        violation.end_line,
        violation.end_column,
        json_quoted(violation.snippet@),
        json_quoted(violation.message@),
        json_quoted(violation.region@),
    )
}

/// `pass` or `fail`, as a JSON string.
pub open spec fn verdict_json(passed: bool) -> Seq<char> {
    if passed {
        "\"pass\""@
    } else {
        "\"fail\""@
    }
}

/// `true` or `false`.
pub open spec fn bool_json(value: bool) -> Seq<char> {
    if value {
        "true"@
    } else {
        "false"@
    }
}

/// The object that sums up one status, from its texts as JSON strings, its
/// numbers and its outcome.
pub open spec fn summary_object(
    rule: Seq<char>,
    region: Seq<char>,
    violations: u64,
    budget: u64,
    passed: bool,
) -> Seq<char> {
    "{\"type\":\"summary\",\"rule\":"@ + rule + ",\"region\":"@ + region + ",\"violations\":"@
        + decimal(violations as nat) + ",\"budget\":"@ + decimal(budget as nat) + ",\"status\":"@
        + verdict_json(passed) + "}"@
}

/// The object that sums up one status.
pub open spec fn summary_json(status: StatusView) -> Seq<char> {
    summary_object(
        json_quoted(status.rule),
        json_quoted(status.region),
        status.actual_count,
        status.budget,
        status.passed,
    )
}

/// The number of statuses that did not pass.
pub open spec fn count_failed(statuses: Seq<StatusView>) -> nat
    decreases statuses.len(),
{
    if statuses.len() == 0 {
        0
    } else {
        count_failed(statuses.drop_last()) + if statuses.last().passed {
            0nat
        } else {
            1nat
        }
    }
}

/// The object that sums up the whole.
pub open spec fn status_json(result: ResultView) -> Seq<char> {
    "{\"type\":\"status\",\"passed\":"@ + bool_json(result.passed) + ",\"rules_checked\":"@
        + decimal(result.statuses.len()) + ",\"rules_exceeded\":"@ + decimal(
        count_failed(result.statuses),
    ) + ",\"total_violations\":"@ + decimal(result.total_violations as nat) + "}"@
}

/// The records of the first `n` violations of `status`, each ranked by the
/// status's rule, the path of the violation's file and its line.
pub open spec fn status_records(status: StatusView, n: int) -> Seq<RankedLine>
    decreases n,
{
    if n <= 0 {
        Seq::empty()
    } else {
        let violation = status.violations[n - 1];
        status_records(status, n - 1).push(
            (
                (status.rule, path_key(violation.file@), violation.line),
                violation_json(status.rule, violation),
            ),
        )
    }
}

/// The records of all violations of `statuses`, in their order.
pub open spec fn violation_records(statuses: Seq<StatusView>) -> Seq<RankedLine>
    decreases statuses.len(),
{
    if statuses.len() == 0 {
        Seq::empty()
    } else {
        violation_records(statuses.drop_last()) + status_records(
            statuses.last(),
            statuses.last().violations.len() as int,
        )
    }
}

/// The summaries of `statuses`, each ranked by rule and region.
pub open spec fn summary_records(statuses: Seq<StatusView>) -> Seq<RankedLine>
    decreases statuses.len(),
{
    if statuses.len() == 0 {
        Seq::empty()
    } else {
        let status = statuses.last();
        summary_records(statuses.drop_last()).push(
            ((status.rule, status.region, 0u32), summary_json(status)),
        )
    }
}

/// The texts of `lines`, each followed by a line feed.
pub open spec fn lines_text(lines: Seq<RankedLine>) -> Seq<char>
    decreases lines.len(),
{
    if lines.len() == 0 {
        Seq::empty()
    } else {
        lines_text(lines.drop_last()) + lines.last().1 + seq!['\n']
    }
}

/// The report on `result`: where `verbose`, the records of the violations in
/// order of rule, path of the file and line; the summaries in order of rule
/// and region; and the line for the whole.
pub open spec fn jsonl_text(result: ResultView, verbose: bool) -> Seq<char> {
    let records = if verbose {
        lines_text(stable_sorted(violation_records(result.statuses)))
    } else {
        Seq::empty()
    };
    records + lines_text(stable_sorted(summary_records(result.statuses))) + status_json(result)
        + seq!['\n']
}

/// The object that records one violation. The texts are given as JSON
/// strings, quotes included.
pub fn violation_record(
    rule: &str,
    file: &str,
    line: u32,
    column: u32,
    end_line: u32,
    end_column: u32,
    snippet: &str,
    message: &str,
    region: &str,
) -> (r: String)
    ensures
        r@ == violation_object(
            rule@,
            file@,
            line,
            column,
            end_line,
            end_column,
            snippet@,
            message@,
            region@,
        ),
{
    let mut out = String::from_str("{\"type\":\"violation\",\"rule\":");
    out.append(rule);
    out.append(",\"file\":");
    out.append(file);
    out.append(",\"line\":");
    push_decimal(&mut out, line as u64);
    out.append(",\"column\":");
    push_decimal(&mut out, column as u64);
    out.append(",\"end_line\":");
    push_decimal(&mut out, end_line as u64);
    out.append(",\"end_column\":");
    push_decimal(&mut out, end_column as u64);
    out.append(",\"snippet\":");
    out.append(snippet);
    out.append(",\"message\":");
    out.append(message);
    out.append(",\"region\":");
    out.append(region);
    out.append("}");
    out
}

/// The object that sums up one status. The texts are given as JSON strings,
/// quotes included.
pub fn summary_record(rule: &str, region: &str, violations: u64, budget: u64, passed: bool) -> (r:
    String)
    ensures
        r@ == summary_object(rule@, region@, violations, budget, passed),
{
    let mut out = String::from_str("{\"type\":\"summary\",\"rule\":");
    out.append(rule);
    out.append(",\"region\":");
    out.append(region);
    out.append(",\"violations\":");
    push_decimal(&mut out, violations);
    out.append(",\"budget\":");
    push_decimal(&mut out, budget);
    out.append(",\"status\":");
    if passed {
        out.append("\"pass\"");
    } else {
        out.append("\"fail\"");
    }
    out.append("}");
    out
}

/// The object that records one violation of `rule`.
fn violation_line(rule: &str, violation: &Violation) -> (r: String)
    ensures
        r@ == violation_json(rule@, *violation),
{
    let quoted_rule = quote(rule).unwrap();
    let quoted_file = quote(violation.file.as_str()).unwrap();
    let quoted_snippet = quote(violation.snippet.as_str()).unwrap();
    let quoted_message = quote(violation.message.as_str()).unwrap();
    let quoted_region = quote(violation.region.as_str()).unwrap();
    violation_record(
        quoted_rule.as_str(),
        quoted_file.as_str(),
        violation.line,
        violation.column,
        violation.end_line,
        violation.end_column,
        quoted_snippet.as_str(),
        quoted_message.as_str(),
        quoted_region.as_str(),
    )
}

/// The object that sums up `status`.
fn summary_line(status: &RuleRegionStatus) -> (r: String)
    ensures
        r@ == summary_json(status@),
{
    let quoted_rule = quote(status.rule_id.as_str()).unwrap();
    let quoted_region = quote(status.region.as_str()).unwrap();
    summary_record(
        quoted_rule.as_str(),
        quoted_region.as_str(),
        status.actual_count,
        status.budget,
        status.passed,
    )
}

/// The number of statuses that did not pass.
pub fn rules_exceeded(statuses: &Vec<RuleRegionStatus>) -> (n: usize)
    ensures
        n == count_failed(crate::engine::aggregator::status_views(statuses@)),
{
    let ghost views = crate::engine::aggregator::status_views(statuses@);
    let mut n: usize = 0;
    let mut i: usize = 0;
    proof {
        assert(views.take(0) =~= Seq::<StatusView>::empty());
    }
    while i < statuses.len()
        invariant
            i <= statuses.len(),
            views == crate::engine::aggregator::status_views(statuses@),
            n == count_failed(views.take(i as int)),
            n <= i,
        decreases statuses.len() - i,
    {
        proof {
            assert(views.take(i + 1).drop_last() =~= views.take(i as int));
            assert(views.take(i + 1).last() == statuses@[i as int]@);
        }
        if !statuses[i].passed {
            n += 1;
        }
        i += 1;
    }
    proof {
        assert(views.take(statuses.len() as int) =~= views);
    }
    n
}

/// Appends the texts of `lines` to `out`, each followed by a line feed.
fn push_lines(out: &mut String, lines: &Vec<Ranked>)
    ensures
        final(out)@ == old(out)@ + lines_text(ranked_views(lines@)),
{
    let ghost views = ranked_views(lines@);
    let mut i: usize = 0;
    proof {
        assert(views.take(0) =~= Seq::<RankedLine>::empty());
        assert(out@ =~= old(out)@ + lines_text(views.take(0)));
    }
    while i < lines.len()
        invariant
            i <= lines.len(),
            views == ranked_views(lines@),
            out@ == old(out)@ + lines_text(views.take(i as int)),
        decreases lines.len() - i,
    {
        out.append(lines[i].text.as_str());
        push_char(out, '\n');
        proof {
            assert(views.take(i + 1).drop_last() =~= views.take(i as int));
            assert(views.take(i + 1).last() == lines@[i as int]@);
            assert(out@ =~= old(out)@ + lines_text(views.take(i + 1)));
        }
        i += 1;
    }
    proof {
        assert(views.take(lines.len() as int) =~= views);
    }
}

/// Writes reports as lines of JSON.
#[derive(Debug, Clone, Copy, PartialEq, Eq)]
pub struct JsonlFormatter;

impl JsonlFormatter {
    /// A formatter.
    pub fn new() -> (r: Self) {
        JsonlFormatter
    }

    /// The records of the violations of `result`, in the order of its statuses.
    fn records(result: &AggregationResult) -> (lines: Vec<Ranked>)
        ensures
            ranked_views(lines@) == violation_records(result@.statuses),
    {
        let ghost statuses = result@.statuses;
        let mut lines: Vec<Ranked> = Vec::new();
        let mut i: usize = 0;
        proof {
            assert(statuses.take(0) =~= Seq::<StatusView>::empty());
            assert(ranked_views(lines@) =~= violation_records(statuses.take(0)));
        }
        while i < result.statuses.len()
            invariant
                i <= result.statuses.len(),
                statuses == result@.statuses,
                ranked_views(lines@) == violation_records(statuses.take(i as int)),
            decreases result.statuses.len() - i,
        {
            let status = &result.statuses[i];
            let ghost view = status@;
            let ghost before = ranked_views(lines@);
            let rule = status.rule_id.as_str();
            let mut n: usize = 0;
            proof {
                assert(statuses[i as int] == view);
                assert(ranked_views(lines@) =~= before + status_records(view, 0));
            }
            while n < status.violations.len()
                invariant
                    n <= status.violations.len(),
                    view == status@,
                    rule@ == status.rule_id@,
                    ranked_views(lines@) == before + status_records(view, n as int),
                decreases status.violations.len() - n,
            {
                let violation = &status.violations[n];
                let ghost sofar = ranked_views(lines@);
                let file = chars_of(violation.file.as_str());
                let ranked = Ranked {
                    rule: chars_of(rule),
                    place: path_key_of(&file),
                    line: violation.line,
                    text: violation_line(rule, violation),
                };
                lines.push(ranked);
                proof {
                    assert(ranked_views(lines@) =~= sofar.push(ranked@));
                    assert(ranked_views(lines@) =~= before + status_records(view, n + 1));
                }
                n += 1;
            }
            proof {
                assert(statuses.take(i + 1).drop_last() =~= statuses.take(i as int));
                assert(statuses.take(i + 1).last() == view);
            }
            i += 1;
        }
        proof {
            assert(statuses.take(result.statuses.len() as int) =~= statuses);
        }
        lines
    }

    /// The summaries of the statuses of `result`, in their order.
    fn summaries(result: &AggregationResult) -> (lines: Vec<Ranked>)
        ensures
            ranked_views(lines@) == summary_records(result@.statuses),
    {
        let ghost statuses = result@.statuses;
        let mut lines: Vec<Ranked> = Vec::new();
        let mut i: usize = 0;
        proof {
            assert(statuses.take(0) =~= Seq::<StatusView>::empty());
            assert(ranked_views(lines@) =~= summary_records(statuses.take(0)));
        }
        while i < result.statuses.len()
            invariant
                i <= result.statuses.len(),
                statuses == result@.statuses,
                ranked_views(lines@) == summary_records(statuses.take(i as int)),
            decreases result.statuses.len() - i,
        {
            let status = &result.statuses[i];
            let ghost sofar = ranked_views(lines@);
            proof {
                assert(statuses[i as int] == status@);
                assert(statuses.take(i + 1).drop_last() =~= statuses.take(i as int));
                assert(statuses.take(i + 1).last() == status@);
            }
            let ranked = Ranked {
                rule: chars_of(status.rule_id.as_str()),
                place: chars_of(status.region.as_str()),
                line: 0,
                text: summary_line(status),
            };
            lines.push(ranked);
            proof {
                assert(ranked_views(lines@) =~= sofar.push(ranked@));
            }
            i += 1;
        }
        proof {
            assert(statuses.take(result.statuses.len() as int) =~= statuses);
        }
        lines
    }

    /// The report on `result`, one JSON object on each line.
    ///
    /// The records of the violations are left out unless `verbose` is set.
    pub fn format(&self, result: &AggregationResult, verbose: bool) -> (r: String)
        ensures
            r@ == jsonl_text(result@, verbose),
    {
        let mut out = String::new();
        if verbose {
            let records = sort_ranked(JsonlFormatter::records(result));
            push_lines(&mut out, &records);
        }
        let ghost records_text = out@;
        let summaries = sort_ranked(JsonlFormatter::summaries(result));
        push_lines(&mut out, &summaries);
        let ghost lines = out@;
        let exceeded = rules_exceeded(&result.statuses);
        out.append("{\"type\":\"status\",\"passed\":");
        if result.passed {
            out.append("true");
        } else {
            out.append("false");
        }
        out.append(",\"rules_checked\":");
        push_decimal(&mut out, result.statuses.len() as u64);
        out.append(",\"rules_exceeded\":");
        push_decimal(&mut out, exceeded as u64);
        out.append(",\"total_violations\":");
        push_decimal(&mut out, result.total_violations as u64);
        out.append("}");
        push_char(&mut out, '\n');
        proof {
            assert(out@ =~= lines + status_json(result@) + seq!['\n']);
            assert(records_text =~= if verbose {
                lines_text(stable_sorted(violation_records(result@.statuses)))
            } else {
                Seq::<char>::empty()
            });
        }
        out
    }
}

impl Default for JsonlFormatter {
    fn default() -> (r: Self) {
        JsonlFormatter::new()
    }
}

/// Whether `text` holds no line feed.
pub open spec fn one_line(text: Seq<char>) -> bool {
    forall|i: int| 0 <= i < text.len() ==> text[i] != '\n'
}

/// The number of line feeds in `text`.
pub open spec fn line_feeds(text: Seq<char>) -> nat
    decreases text.len(),
{
    if text.len() == 0 {
        0
    } else {
        line_feeds(text.drop_last()) + if text.last() == '\n' {
            1nat
        } else {
            0nat
        }
    }
}

/// A line feed alone counts one.
pub proof fn lemma_one_line_feed()
    ensures
        line_feeds(seq!['\n']) == 1,
{
    let feed = seq!['\n'];
    assert(feed.drop_last() =~= Seq::<char>::empty());
    assert(feed.last() == '\n');
    assert(line_feeds(feed.drop_last()) == 0);
}

/// The line feeds of two texts add up.
pub proof fn lemma_line_feeds_add(a: Seq<char>, b: Seq<char>)
    ensures
        line_feeds(a + b) == line_feeds(a) + line_feeds(b),
    decreases b.len(),
{
    if b.len() == 0 {
        assert(a + b =~= a);
    } else {
        lemma_line_feeds_add(a, b.drop_last());
        assert((a + b).drop_last() =~= a + b.drop_last());
    }
}

/// A text without a line feed counts none.
pub proof fn lemma_one_line_feeds(text: Seq<char>)
    requires
        one_line(text),
    ensures
        line_feeds(text) == 0,
    decreases text.len(),
{
    if text.len() > 0 {
        assert(text.last() == text[text.len() - 1]);
        assert forall|i: int| 0 <= i < text.drop_last().len() implies text.drop_last()[i]
            != '\n' by {
            assert(text.drop_last()[i] == text[i]);
        }
        lemma_one_line_feeds(text.drop_last());
    }
}

/// A decimal numeral holds no line feed.
pub proof fn lemma_decimal_one_line(n: nat)
    ensures
        one_line(decimal(n)),
    decreases n,
{
    if n >= 10 {
        lemma_decimal_one_line(n / 10);
    }
}

/// A JSON string holds no line feed, whatever the text that it writes: a line
/// feed in the text is written as a backslash and a letter.
pub proof fn lemma_json_quoted_one_line(text: Seq<char>)
    ensures
        one_line(json_escaped(text)),
        one_line(json_quoted(text)),
    decreases text.len(),
{
    if text.len() > 0 {
        lemma_json_quoted_one_line(text.drop_last());
        assert(one_line(json_escaped_char(text.last())));
    }
}

/// Two texts without a line feed give one without when put together.
pub proof fn lemma_one_line_add(a: Seq<char>, b: Seq<char>)
    requires
        one_line(a),
        one_line(b),
    ensures
        one_line(a + b),
{
    assert forall|i: int| 0 <= i < (a + b).len() implies (a + b)[i] != '\n' by {
        if i < a.len() {
            assert((a + b)[i] == a[i]);
        } else {
            assert((a + b)[i] == b[i - a.len()]);
        }
    }
}

/// The object of a violation holds no line feed where the texts given hold
/// none.
pub proof fn lemma_violation_object_one_line(
    rule: Seq<char>,
    file: Seq<char>,
    line: u32,
    column: u32,
    end_line: u32,
    end_column: u32,
    snippet: Seq<char>,
    message: Seq<char>,
    region: Seq<char>,
)
    requires
        one_line(rule),
        one_line(file),
        one_line(snippet),
        one_line(message),
        one_line(region),
    ensures
        one_line(
            violation_object(
                rule,
                file,
                line,
                column,
                end_line,
                end_column,
                snippet,
                message,
                region,
            ),
        ),
{
    reveal_strlit("{\"type\":\"violation\",\"rule\":");
    reveal_strlit(",\"file\":");
    reveal_strlit(",\"line\":");
    reveal_strlit(",\"column\":");
    reveal_strlit(",\"end_line\":");
    reveal_strlit(",\"end_column\":");
    reveal_strlit(",\"snippet\":");
    reveal_strlit(",\"message\":");
    reveal_strlit(",\"region\":");
    reveal_strlit("}");
    lemma_decimal_one_line(line as nat);
    lemma_decimal_one_line(column as nat);
    lemma_decimal_one_line(end_line as nat);
    lemma_decimal_one_line(end_column as nat);
    let t1 = "{\"type\":\"violation\",\"rule\":"@ + rule;
    lemma_one_line_add("{\"type\":\"violation\",\"rule\":"@, rule);
    let t2 = t1 + ",\"file\":"@;
    lemma_one_line_add(t1, ",\"file\":"@);
    let t3 = t2 + file;
    lemma_one_line_add(t2, file);
    let t4 = t3 + ",\"line\":"@;
    lemma_one_line_add(t3, ",\"line\":"@);
    let t5 = t4 + decimal(line as nat);
    lemma_one_line_add(t4, decimal(line as nat));
    let t6 = t5 + ",\"column\":"@;
    lemma_one_line_add(t5, ",\"column\":"@);
    let t7 = t6 + decimal(column as nat);
    lemma_one_line_add(t6, decimal(column as nat));
    let t8 = t7 + ",\"end_line\":"@;
    lemma_one_line_add(t7, ",\"end_line\":"@);
    let t9 = t8 + decimal(end_line as nat);
    lemma_one_line_add(t8, decimal(end_line as nat));
    let t10 = t9 + ",\"end_column\":"@;
    lemma_one_line_add(t9, ",\"end_column\":"@);
    let t11 = t10 + decimal(end_column as nat);
    lemma_one_line_add(t10, decimal(end_column as nat));
    let t12 = t11 + ",\"snippet\":"@;
    lemma_one_line_add(t11, ",\"snippet\":"@);
    let t13 = t12 + snippet;
    lemma_one_line_add(t12, snippet);
    let t14 = t13 + ",\"message\":"@;
    lemma_one_line_add(t13, ",\"message\":"@);
    let t15 = t14 + message;
    lemma_one_line_add(t14, message);
    let t16 = t15 + ",\"region\":"@;
    lemma_one_line_add(t15, ",\"region\":"@);
    let t17 = t16 + region;
    lemma_one_line_add(t16, region);
    lemma_one_line_add(t17, "}"@);
}

/// The object of a summary holds no line feed where the texts given hold none.
pub proof fn lemma_summary_object_one_line(
    rule: Seq<char>,
    region: Seq<char>,
    violations: u64,
    budget: u64,
    passed: bool,
)
    requires
        one_line(rule),
        one_line(region),
    ensures
        one_line(summary_object(rule, region, violations, budget, passed)),
{
    reveal_strlit("{\"type\":\"summary\",\"rule\":");
    reveal_strlit(",\"region\":");
    reveal_strlit(",\"violations\":");
    reveal_strlit(",\"budget\":");
    reveal_strlit(",\"status\":");
    reveal_strlit("\"pass\"");
    reveal_strlit("\"fail\"");
    reveal_strlit("}");
    lemma_decimal_one_line(violations as nat);
    lemma_decimal_one_line(budget as nat);
    let t1 = "{\"type\":\"summary\",\"rule\":"@ + rule;
    lemma_one_line_add("{\"type\":\"summary\",\"rule\":"@, rule);
    let t2 = t1 + ",\"region\":"@;
    lemma_one_line_add(t1, ",\"region\":"@);
    let t3 = t2 + region;
    lemma_one_line_add(t2, region);
    let t4 = t3 + ",\"violations\":"@;
    lemma_one_line_add(t3, ",\"violations\":"@);
    let t5 = t4 + decimal(violations as nat);
    lemma_one_line_add(t4, decimal(violations as nat));
    let t6 = t5 + ",\"budget\":"@;
    lemma_one_line_add(t5, ",\"budget\":"@);
    let t7 = t6 + decimal(budget as nat);
    lemma_one_line_add(t6, decimal(budget as nat));
    let t8 = t7 + ",\"status\":"@;
    lemma_one_line_add(t7, ",\"status\":"@);
    let t9 = t8 + verdict_json(passed);
    lemma_one_line_add(t8, verdict_json(passed));
    lemma_one_line_add(t9, "}"@);
}

/// The object that sums up the whole holds no line feed.
pub proof fn lemma_status_json_one_line(result: ResultView)
    ensures
        one_line(status_json(result)),
{
    reveal_strlit("{\"type\":\"status\",\"passed\":");
    reveal_strlit("true");
    reveal_strlit("false");
    reveal_strlit(",\"rules_checked\":");
    reveal_strlit(",\"rules_exceeded\":");
    reveal_strlit(",\"total_violations\":");
    reveal_strlit("}");
    lemma_decimal_one_line(result.statuses.len());
    lemma_decimal_one_line(count_failed(result.statuses));
    lemma_decimal_one_line(result.total_violations as nat);
    let t1 = "{\"type\":\"status\",\"passed\":"@ + bool_json(result.passed);
    lemma_one_line_add("{\"type\":\"status\",\"passed\":"@, bool_json(result.passed));
    let t2 = t1 + ",\"rules_checked\":"@;
    lemma_one_line_add(t1, ",\"rules_checked\":"@);
    let t3 = t2 + decimal(result.statuses.len());
    lemma_one_line_add(t2, decimal(result.statuses.len()));
    let t4 = t3 + ",\"rules_exceeded\":"@;
    lemma_one_line_add(t3, ",\"rules_exceeded\":"@);
    let t5 = t4 + decimal(count_failed(result.statuses));
    lemma_one_line_add(t4, decimal(count_failed(result.statuses)));
    let t6 = t5 + ",\"total_violations\":"@;
    lemma_one_line_add(t5, ",\"total_violations\":"@);
    let t7 = t6 + decimal(result.total_violations as nat);
    lemma_one_line_add(t6, decimal(result.total_violations as nat));
    lemma_one_line_add(t7, "}"@);
}

/// The number of violations that `statuses` hold.
pub open spec fn violations_in(statuses: Seq<StatusView>) -> nat
    decreases statuses.len(),
{
    if statuses.len() == 0 {
        0
    } else {
        violations_in(statuses.drop_last()) + statuses.last().violations.len()
    }
}

/// Whether every line of `lines` holds no line feed.
pub open spec fn all_one_line(lines: Seq<RankedLine>) -> bool {
    forall|i: int| 0 <= i < lines.len() ==> one_line((#[trigger] lines[i]).1)
}

/// A status gives one record for each of its violations, each on one line.
pub proof fn lemma_status_records(status: StatusView, n: int)
    requires
        0 <= n <= status.violations.len(),
    ensures
        status_records(status, n).len() == n,
        all_one_line(status_records(status, n)),
    decreases n,
{
    if n > 0 {
        lemma_status_records(status, n - 1);
        let violation = status.violations[n - 1];
        lemma_json_quoted_one_line(status.rule);
        lemma_json_quoted_one_line(violation.file@);
        lemma_json_quoted_one_line(violation.snippet@);
        lemma_json_quoted_one_line(violation.message@);
        lemma_json_quoted_one_line(violation.region@);
        lemma_violation_object_one_line(
            json_quoted(status.rule),
            json_quoted(violation.file@),
            violation.line,
            violation.column,
            violation.end_line,
            violation.end_column,
            json_quoted(violation.snippet@),
            json_quoted(violation.message@),
            json_quoted(violation.region@),
        );
        let before = status_records(status, n - 1);
        let after = status_records(status, n);
        assert forall|i: int| 0 <= i < after.len() implies one_line((#[trigger] after[i]).1) by {
            if i < n - 1 {
                assert(after[i] == before[i]);
            }
        }
    }
}

/// The records of the violations are as many as the violations, each on one
/// line.
pub proof fn lemma_violation_records(statuses: Seq<StatusView>)
    ensures
        violation_records(statuses).len() == violations_in(statuses),
        all_one_line(violation_records(statuses)),
    decreases statuses.len(),
{
    if statuses.len() > 0 {
        lemma_violation_records(statuses.drop_last());
        let last = statuses.last();
        lemma_status_records(last, last.violations.len() as int);
        let before = violation_records(statuses.drop_last());
        let added = status_records(last, last.violations.len() as int);
        let after = violation_records(statuses);
        assert forall|i: int| 0 <= i < after.len() implies one_line((#[trigger] after[i]).1) by {
            if i < before.len() {
                assert(after[i] == before[i]);
            } else {
                assert(after[i] == added[i - before.len()]);
            }
        }
    }
}

/// The summaries are as many as the statuses, each on one line.
pub proof fn lemma_summary_records(statuses: Seq<StatusView>)
    ensures
        summary_records(statuses).len() == statuses.len(),
        all_one_line(summary_records(statuses)),
    decreases statuses.len(),
{
    if statuses.len() > 0 {
        lemma_summary_records(statuses.drop_last());
        let status = statuses.last();
        lemma_json_quoted_one_line(status.rule);
        lemma_json_quoted_one_line(status.region);
        lemma_summary_object_one_line(
            json_quoted(status.rule),
            json_quoted(status.region),
            status.actual_count,
            status.budget,
            status.passed,
        );
        let before = summary_records(statuses.drop_last());
        let after = summary_records(statuses);
        assert forall|i: int| 0 <= i < after.len() implies one_line((#[trigger] after[i]).1) by {
            if i < before.len() {
                assert(after[i] == before[i]);
            }
        }
    }
}

/// Lines that hold no line feed still hold none when put in order.
pub proof fn lemma_sorted_one_line(lines: Seq<RankedLine>)
    requires
        all_one_line(lines),
    ensures
        all_one_line(stable_sorted(lines)),
        stable_sorted(lines).len() == lines.len(),
{
    broadcast use vstd::seq_lib::group_to_multiset_ensures;

    lemma_stable_sorted(lines);
    let sorted = stable_sorted(lines);
    assert forall|i: int| 0 <= i < sorted.len() implies one_line((#[trigger] sorted[i]).1) by {
        assert(sorted.contains(sorted[i]));
        assert(sorted.to_multiset().count(sorted[i]) > 0);
        assert(lines.to_multiset().count(sorted[i]) > 0);
        assert(lines.contains(sorted[i]));
        let j = choose|j: int| 0 <= j < lines.len() && lines[j] == sorted[i];
        assert(one_line(lines[j].1));
    }
}

/// The text of lines that hold no line feed has one line feed for each line.
pub proof fn lemma_lines_text_feeds(lines: Seq<RankedLine>)
    requires
        all_one_line(lines),
    ensures
        line_feeds(lines_text(lines)) == lines.len(),
    decreases lines.len(),
{
    if lines.len() > 0 {
        let shorter = lines.drop_last();
        assert forall|i: int| 0 <= i < shorter.len() implies one_line(
            (#[trigger] shorter[i]).1,
        ) by {
            assert(shorter[i] == lines[i]);
        }
        lemma_lines_text_feeds(shorter);
        assert(one_line(lines[lines.len() - 1].1));
        lemma_one_line_feeds(lines.last().1);
        lemma_line_feeds_add(lines_text(shorter), lines.last().1);
        lemma_line_feeds_add(lines_text(shorter) + lines.last().1, seq!['\n']);
        lemma_one_line_feed();
    }
}

/// The report has one line for each record that it holds: for every
/// violation where it is verbose, for every status, and for the whole. It ends
/// in a line feed.
pub proof fn lemma_jsonl_lines(result: ResultView, verbose: bool)
    ensures
        line_feeds(jsonl_text(result, verbose)) == (if verbose {
            violations_in(result.statuses)
        } else {
            0
        }) + result.statuses.len() + 1,
        jsonl_text(result, verbose).len() > 0,
        jsonl_text(result, verbose).last() == '\n',
{
    let records = if verbose {
        lines_text(stable_sorted(violation_records(result.statuses)))
    } else {
        Seq::<char>::empty()
    };
    if verbose {
        lemma_violation_records(result.statuses);
        lemma_sorted_one_line(violation_records(result.statuses));
        lemma_lines_text_feeds(stable_sorted(violation_records(result.statuses)));
    }
    lemma_summary_records(result.statuses);
    lemma_sorted_one_line(summary_records(result.statuses));
    let summaries = lines_text(stable_sorted(summary_records(result.statuses)));
    lemma_lines_text_feeds(stable_sorted(summary_records(result.statuses)));
    lemma_status_json_one_line(result);
    lemma_one_line_feeds(status_json(result));
    lemma_line_feeds_add(records, summaries);
    lemma_line_feeds_add(records + summaries, status_json(result));
    lemma_line_feeds_add(records + summaries + status_json(result), seq!['\n']);
    lemma_one_line_feed();
}

} // verus!
