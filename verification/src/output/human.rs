//! Report for people: the violations under a heading for each rule, a summary
//! of every rule and region, and a closing line.
//!
//! The report is a sequence of pieces of text, each with the style in which a
//! terminal shows it. The plain report is the text of the pieces, one after
//! the other.

use vstd::prelude::*;
use vstd::string::*;
use crate::engine::aggregator::{
    coherent, counted, status_views, AggregationResult, ResultView, RuleRegionStatus, StatusView,
};
use crate::output::jsonl::{count_failed, rules_exceeded};
use crate::rules::Violation;
use crate::text::{decimal, push_char, push_decimal, same_text};

verus! {

/// When a report is to be shown in colour.
#[derive(Debug, Clone, Copy, PartialEq, Eq, Structural)]
pub enum ColorChoice {
    /// Always, with the terminal's own means.
    Always,
    /// Always, with ANSI escape sequences.
    AlwaysAnsi,
    /// Where the output is a terminal that shows colour.
    Auto,
    /// Never.
    Never,
}

/// How a piece of a report is shown.
#[derive(Debug, Clone, Copy, PartialEq, Eq, Structural)]
pub enum Style {
    Plain,
    Bold,
    Cyan,
    Green,
    Red,
    GreenBold,
    RedBold,
}

/// A piece of a report: a text and the style in which it is shown.
#[derive(Debug, PartialEq, Eq)]
pub struct Segment {
    pub style: Style,
    pub text: String,
}

impl View for Segment {
    type V = (Style, Seq<char>);

    open spec fn view(&self) -> (Style, Seq<char>) {
        (self.style, self.text@)
    }
}

/// The pieces of `segments`, each by its view.
pub open spec fn segment_views(segments: Seq<Segment>) -> Seq<(Style, Seq<char>)> {
    Seq::new(segments.len(), |i: int| segments[i]@)
}

/// Whether `c` is white space: a character with the property White_Space of
/// Unicode.
pub open spec fn is_white_space(c: char) -> bool {
    ('\u{9}' <= c && c <= '\u{d}') || c == ' ' || c == '\u{85}' || c == '\u{a0}' || c
        == '\u{1680}' || ('\u{2000}' <= c && c <= '\u{200a}') || c == '\u{2028}' || c
        == '\u{2029}' || c == '\u{202f}' || c == '\u{205f}' || c == '\u{3000}'
}

/// `text` without the white space at its start.
pub open spec fn trimmed_start(text: Seq<char>) -> Seq<char>
    decreases text.len(),
{
    if text.len() > 0 && is_white_space(text[0]) {
        trimmed_start(text.drop_first())
    } else {
        text
    }
}

/// `text` without the white space at its end.
pub open spec fn trimmed_end(text: Seq<char>) -> Seq<char>
    decreases text.len(),
{
    if text.len() > 0 && is_white_space(text.last()) {
        trimmed_end(text.drop_last())
    } else {
        text
    }
}

/// `text` without the white space at its two ends.
pub open spec fn trimmed(text: Seq<char>) -> Seq<char> {
    trimmed_end(trimmed_start(text))
}

/// Removes the white space at the two ends of `text` with `str::trim`.
///
/// Trusted: the outcome is `trimmed` of the text. The function removes the
/// leading and the trailing characters that have the property White_Space.
#[verifier::external_body]
fn trim(text: &str) -> (r: &str)
    ensures
        r@ == trimmed(text@),
{
    text.trim()
}

/// The sum of the counts of the statuses of `rule`.
pub open spec fn rule_total(statuses: Seq<StatusView>, rule: Seq<char>) -> nat
    decreases statuses.len(),
{
    if statuses.len() == 0 {
        0
    } else {
        rule_total(statuses.drop_last(), rule) + if statuses.last().rule == rule {
            statuses.last().actual_count as nat
        } else {
            0nat
        }
    }
}

/// Whether `result` can be rendered: the counts of each rule can be added up
/// in 64 bits, and a status that did not pass counts at least its budget.
pub open spec fn renderable(result: ResultView) -> bool {
    &&& forall|i: int|
        0 <= i < result.statuses.len() ==> rule_total(
            result.statuses,
            (#[trigger] result.statuses[i]).rule,
        ) <= u64::MAX
    &&& forall|i: int|
        0 <= i < result.statuses.len() && !(#[trigger] result.statuses[i]).passed
            ==> result.statuses[i].budget <= result.statuses[i].actual_count
}

/// A result whose parts agree can be rendered.
pub proof fn lemma_coherent_renderable(result: ResultView)
    requires
        coherent(result),
    ensures
        renderable(result),
{
    assert forall|i: int| 0 <= i < result.statuses.len() implies rule_total(
        result.statuses,
        (#[trigger] result.statuses[i]).rule,
    ) <= u64::MAX by {
        lemma_rule_total_bound(result.statuses, result.statuses[i].rule);
    }
}

/// The counts of one rule sum to no more than all counts.
pub proof fn lemma_rule_total_bound(statuses: Seq<StatusView>, rule: Seq<char>)
    ensures
        rule_total(statuses, rule) <= counted(statuses),
    decreases statuses.len(),
{
    if statuses.len() > 0 {
        lemma_rule_total_bound(statuses.drop_last(), rule);
    }
}

/// The counts of one rule in a prefix sum to no more than in the whole.
pub proof fn lemma_rule_total_prefix(statuses: Seq<StatusView>, rule: Seq<char>, n: int)
    requires
        0 <= n <= statuses.len(),
    ensures
        rule_total(statuses.take(n), rule) <= rule_total(statuses, rule),
    decreases statuses.len() - n,
{
    if n < statuses.len() {
        lemma_rule_total_prefix(statuses, rule, n + 1);
        assert(statuses.take(n + 1).drop_last() =~= statuses.take(n));
    } else {
        assert(statuses.take(n) =~= statuses);
    }
}

/// `1 violation`, or the number and `violations`.
pub open spec fn count_text(total: nat) -> Seq<char> {
    if total == 1 {
        "1 violation"@
    } else {
        decimal(total) + " violations"@
    }
}

/// The heading before the status at `index`: nothing where the status before
/// it is of the same rule; else an empty line unless it is the first, the
/// rule in bold, and in bold the number of the rule's violations in all
/// regions.
pub open spec fn heading_pieces(statuses: Seq<StatusView>, index: int) -> Seq<(Style, Seq<char>)> {
    let rule = statuses[index].rule;
    if index > 0 && statuses[index - 1].rule == rule {
        Seq::empty()
    } else {
        let gap = if index > 0 {
            seq![(Style::Plain, "\n"@)]
        } else {
            Seq::empty()
        };
        gap + seq![
            (Style::Bold, rule),
            (Style::Plain, " "@),
            (Style::Bold, "["@ + count_text(rule_total(statuses, rule)) + "]"@),
            (Style::Plain, "\n\n"@),
        ]
    }
}

/// A place in a file: file, line and column, with colons between.
pub open spec fn location_text(file: Seq<char>, line: u32, column: u32) -> Seq<char> {
    file + ":"@ + decimal(line as nat) + ":"@ + decimal(column as nat)
}

/// What is shown of a place and the snippet found there: the place in cyan
/// after two spaces, the snippet after six spaces on the next line, and an
/// empty line.
pub open spec fn located_pieces(file: Seq<char>, line: u32, column: u32, snippet: Seq<char>) -> Seq<
    (Style, Seq<char>),
> {
    seq![
        (Style::Plain, "  "@),
        (Style::Cyan, location_text(file, line, column)),
        (Style::Plain, "\n      "@ + snippet + "\n\n"@),
    ]
}

/// One violation: its place, and its snippet without the white space at its
/// two ends.
pub open spec fn violation_pieces(violation: Violation) -> Seq<(Style, Seq<char>)> {
    located_pieces(
        violation.file@,
        violation.line,
        violation.column,
        trimmed(violation.snippet@),
    )
}

/// The first `n` of `violations`, in their order.
pub open spec fn violations_pieces(violations: Seq<Violation>, n: int) -> Seq<(Style, Seq<char>)>
    decreases n,
{
    if n <= 0 {
        Seq::empty()
    } else {
        violations_pieces(violations, n - 1) + violation_pieces(violations[n - 1])
    }
}

/// The first `n` statuses with their violations, each under its heading.
pub open spec fn detail_pieces(statuses: Seq<StatusView>, n: int) -> Seq<(Style, Seq<char>)>
    decreases n,
{
    if n <= 0 {
        Seq::empty()
    } else {
        detail_pieces(statuses, n - 1) + heading_pieces(statuses, n - 1) + violations_pieces(
            statuses[n - 1].violations,
            statuses[n - 1].violations.len() as int,
        )
    }
}

/// The line of the summary for `status`: a green check mark or a red cross,
/// the rule, the count and the budget in bold, and in red by how much the
/// budget is exceeded where it is.
pub open spec fn summary_pieces(status: StatusView) -> Seq<(Style, Seq<char>)> {
    let mark = if status.passed {
        (Style::Green, seq!['\u{2713}'])
    } else {
        (Style::Red, seq!['\u{2717}'])
    };
    let head = seq![
        (Style::Plain, "  "@),
        mark,
        (Style::Plain, " "@ + status.rule + ": "@),
        (Style::Bold, decimal(status.actual_count as nat)),
        (Style::Plain, " violations (budget: "@),
        (Style::Bold, decimal(status.budget as nat)),
    ];
    if status.passed {
        head + seq![(Style::Plain, ")\n"@)]
    } else {
        head + seq![
            (Style::Plain, ") "@),
            (Style::Red, "exceeded by "@),
            (Style::RedBold, decimal((status.actual_count - status.budget) as nat)),
            (Style::Plain, "\n"@),
        ]
    }
}

/// The summary lines of the first `n` statuses.
pub open spec fn summaries_pieces(statuses: Seq<StatusView>, n: int) -> Seq<(Style, Seq<char>)>
    decreases n,
{
    if n <= 0 {
        Seq::empty()
    } else {
        summaries_pieces(statuses, n - 1) + summary_pieces(statuses[n - 1])
    }
}

/// The closing line: in green that every budget was kept, or in red how many
/// rules exceeded theirs.
pub open spec fn closing_pieces(result: ResultView) -> Seq<(Style, Seq<char>)> {
    if result.passed {
        seq![(Style::GreenBold, "Check PASSED\n"@)]
    } else {
        let failed = count_failed(result.statuses);
        let plural = if failed == 1 {
            ""@
        } else {
            "s"@
        };
        seq![
            (
                Style::RedBold,
                "Check FAILED: "@ + decimal(failed) + " rule"@ + plural + " exceeded budget"@,
            ),
            (Style::Plain, "\n"@),
        ]
    }
}

/// The report on `result`, piece by piece.
pub open spec fn report_pieces(result: ResultView) -> Seq<(Style, Seq<char>)> {
    let statuses = result.statuses;
    if statuses.len() == 0 {
        seq![(Style::Green, "No violations found\n"@)]
    } else {
        detail_pieces(statuses, statuses.len() as int) + seq![
            (Style::Bold, "Summary:\n"@),
            (Style::Plain, "\n"@),
        ] + summaries_pieces(statuses, statuses.len() as int) + seq![(Style::Plain, "\n"@)]
            + closing_pieces(result)
    }
}

/// The texts of `pieces`, one after the other.
pub open spec fn pieces_text(pieces: Seq<(Style, Seq<char>)>) -> Seq<char>
    decreases pieces.len(),
{
    if pieces.len() == 0 {
        Seq::empty()
    } else {
        pieces_text(pieces.drop_last()) + pieces.last().1
    }
}

/// Appends a piece to `out`.
fn push_piece(out: &mut Vec<Segment>, style: Style, text: String)
    ensures
        segment_views(final(out)@) == segment_views(old(out)@).push((style, text@)),
{
    out.push(Segment { style, text });
    assert(segment_views(out@) =~= segment_views(old(out)@).push((style, text@)));
}

/// The sum of the counts of the statuses of `rule`, or `None` where the sum
/// does not fit into 64 bits.
fn checked_total_of(statuses: &Vec<RuleRegionStatus>, rule: &str) -> (r: Option<u64>)
    ensures
        match r {
            Some(total) => total == rule_total(status_views(statuses@), rule@),
            None => rule_total(status_views(statuses@), rule@) > u64::MAX,
        },
{
    let ghost views = status_views(statuses@);
    let mut total: u64 = 0;
    let mut i: usize = 0;
    proof {
        assert(views.take(0) =~= Seq::<StatusView>::empty());
    }
    while i < statuses.len()
        invariant
            i <= statuses.len(),
            views == status_views(statuses@),
            total == rule_total(views.take(i as int), rule@),
        decreases statuses.len() - i,
    {
        proof {
            assert(views.take(i + 1).drop_last() =~= views.take(i as int));
            assert(views.take(i + 1).last() == statuses@[i as int]@);
            lemma_rule_total_prefix(views, rule@, i + 1);
        }
        if same_text(statuses[i].rule_id.as_str(), rule) {
            if statuses[i].actual_count > u64::MAX - total {
                return None;
            }
            total = total + statuses[i].actual_count;
        }
        i += 1;
    }
    proof {
        assert(views.take(statuses.len() as int) =~= views);
    }
    Some(total)
}

/// Whether `result` can be rendered: whether the counts of each of its rules
/// can be added up in 64 bits, and every status that did not pass counts at
/// least its budget.
pub fn is_renderable(result: &AggregationResult) -> (r: bool)
    ensures
        r == renderable(result@),
{
    let ghost views = result@.statuses;
    let mut i: usize = 0;
    while i < result.statuses.len()
        invariant
            i <= result.statuses.len(),
            views == result@.statuses,
            forall|j: int|
                0 <= j < i ==> rule_total(views, (#[trigger] views[j]).rule) <= u64::MAX,
            forall|j: int|
                0 <= j < i && !(#[trigger] views[j]).passed ==> views[j].budget
                    <= views[j].actual_count,
        decreases result.statuses.len() - i,
    {
        let status = &result.statuses[i];
        proof {
            assert(views[i as int] == status@);
        }
        if !status.passed && status.actual_count < status.budget {
            return false;
        }
        if checked_total_of(&result.statuses, status.rule_id.as_str()).is_none() {
            return false;
        }
        i += 1;
    }
    true
}

/// Appends the heading before the status at `index`.
fn push_heading(out: &mut Vec<Segment>, statuses: &Vec<RuleRegionStatus>, index: usize)
    requires
        index < statuses.len(),
        rule_total(status_views(statuses@), statuses[index as int].rule_id@) <= u64::MAX,
    ensures
        segment_views(final(out)@) == segment_views(old(out)@) + heading_pieces(
            status_views(statuses@),
            index as int,
        ),
{
    let ghost views = status_views(statuses@);
    let rule = statuses[index].rule_id.as_str();
    proof {
        assert(views[index as int] == statuses@[index as int]@);
        if index > 0 {
            assert(views[index - 1] == statuses@[index - 1]@);
        }
    }
    if index > 0 && same_text(statuses[index - 1].rule_id.as_str(), rule) {
        assert(segment_views(out@) =~= segment_views(old(out)@) + heading_pieces(
            views,
            index as int,
        ));
        return ;
    }
    if index > 0 {
        push_piece(out, Style::Plain, String::from_str("\n"));
    }
    let total = checked_total_of(statuses, rule).unwrap();
    let mut count = String::from_str("[");
    if total == 1 {
        count.append("1 violation");
    } else {
        push_decimal(&mut count, total);
        count.append(" violations");
    }
    count.append("]");
    proof {
        assert(count@ =~= "["@ + count_text(total as nat) + "]"@);
    }
    push_piece(out, Style::Bold, rule.to_owned());
    push_piece(out, Style::Plain, String::from_str(" "));
    push_piece(out, Style::Bold, count);
    push_piece(out, Style::Plain, String::from_str("\n\n"));
    proof {
        assert(segment_views(out@) =~= segment_views(old(out)@) + heading_pieces(
            views,
            index as int,
        ));
    }
}

/// Appends what is shown of a place and the snippet found there. The snippet
/// is shown as it is given.
pub fn push_located(out: &mut Vec<Segment>, file: &str, line: u32, column: u32, snippet: &str)
    ensures
        segment_views(final(out)@) == segment_views(old(out)@) + located_pieces(
            file@,
            line,
            column,
            snippet@,
        ),
{
    let mut location = String::from_str(file);
    location.append(":");
    push_decimal(&mut location, line as u64);
    location.append(":");
    push_decimal(&mut location, column as u64);
    let mut shown = String::from_str("\n      ");
    shown.append(snippet);
    shown.append("\n\n");
    push_piece(out, Style::Plain, String::from_str("  "));
    push_piece(out, Style::Cyan, location);
    push_piece(out, Style::Plain, shown);
    proof {
        assert(segment_views(out@) =~= segment_views(old(out)@) + located_pieces(
            file@,
            line,
            column,
            snippet@,
        ));
    }
}

/// Appends one violation.
fn push_violation(out: &mut Vec<Segment>, violation: &Violation)
    ensures
        segment_views(final(out)@) == segment_views(old(out)@) + violation_pieces(*violation),
{
    push_located(
        out,
        violation.file.as_str(),
        violation.line,
        violation.column,
        trim(violation.snippet.as_str()),
    );
}

/// Appends the line of the summary for `status`.
fn push_summary(out: &mut Vec<Segment>, status: &RuleRegionStatus)
    requires
        !status.passed ==> status.budget <= status.actual_count,
    ensures
        segment_views(final(out)@) == segment_views(old(out)@) + summary_pieces(status@),
{
    let mut mark = String::new();
    let mark_style = if status.passed {
        push_char(&mut mark, '\u{2713}');
        Style::Green
    } else {
        push_char(&mut mark, '\u{2717}');
        Style::Red
    };
    let mut name = String::from_str(" ");
    name.append(status.rule_id.as_str());
    name.append(": ");
    let mut actual = String::new();
    push_decimal(&mut actual, status.actual_count);
    let mut budget = String::new();
    push_decimal(&mut budget, status.budget);
    proof {
        assert(mark@ =~= if status.passed {
            seq!['\u{2713}']
        } else {
            seq!['\u{2717}']
        });
        assert(actual@ =~= decimal(status.actual_count as nat));
        assert(budget@ =~= decimal(status.budget as nat));
    }
    push_piece(out, Style::Plain, String::from_str("  "));
    push_piece(out, mark_style, mark);
    push_piece(out, Style::Plain, name);
    push_piece(out, Style::Bold, actual);
    push_piece(out, Style::Plain, String::from_str(" violations (budget: "));
    push_piece(out, Style::Bold, budget);
    if status.passed {
        push_piece(out, Style::Plain, String::from_str(")\n"));
    } else {
        let mut exceeded = String::new();
        push_decimal(&mut exceeded, status.actual_count - status.budget);
        proof {
            assert(exceeded@ =~= decimal((status.actual_count - status.budget) as nat));
        }
        push_piece(out, Style::Plain, String::from_str(") "));
        push_piece(out, Style::Red, String::from_str("exceeded by "));
        push_piece(out, Style::RedBold, exceeded);
        push_piece(out, Style::Plain, String::from_str("\n"));
    }
    proof {
        assert(segment_views(out@) =~= segment_views(old(out)@) + summary_pieces(status@));
    }
}

/// Appends the closing line.
fn push_closing(out: &mut Vec<Segment>, result: &AggregationResult)
    ensures
        segment_views(final(out)@) == segment_views(old(out)@) + closing_pieces(result@),
{
    if result.passed {
        push_piece(out, Style::GreenBold, String::from_str("Check PASSED\n"));
    } else {
        let failed = rules_exceeded(&result.statuses);
        let mut text = String::from_str("Check FAILED: ");
        push_decimal(&mut text, failed as u64);
        text.append(" rule");
        if failed == 1 {
            text.append("");
        } else {
            text.append("s");
        }
        text.append(" exceeded budget");
        push_piece(out, Style::RedBold, text);
        push_piece(out, Style::Plain, String::from_str("\n"));
    }
    proof {
        assert(segment_views(out@) =~= segment_views(old(out)@) + closing_pieces(result@));
    }
}

/// Writes reports for people.
#[derive(Debug, Clone, Copy, PartialEq, Eq)]
pub struct HumanFormatter {
    color_choice: ColorChoice,
}

impl HumanFormatter {
    /// A formatter that shows colour as `color_choice` says.
    pub fn new(color_choice: ColorChoice) -> (r: Self)
        ensures
            r.spec_color_choice() == color_choice,
    {
        HumanFormatter { color_choice }
    }

    /// When the formatter shows colour.
    pub closed spec fn spec_color_choice(&self) -> ColorChoice {
        self.color_choice
    }

    /// When the formatter shows colour.
    #[verifier::when_used_as_spec(spec_color_choice)]
    pub fn color_choice(&self) -> (r: ColorChoice)
        ensures
            r == self.spec_color_choice(),
    {
        self.color_choice
    }

    /// The report on `result`, piece by piece, each piece with its style.
    pub fn styled(&self, result: &AggregationResult) -> (pieces: Vec<Segment>)
        requires
            renderable(result@),
        ensures
            segment_views(pieces@) == report_pieces(result@),
    {
        let ghost views = result@.statuses;
        let mut out: Vec<Segment> = Vec::new();
        if result.statuses.len() == 0 {
            push_piece(&mut out, Style::Green, String::from_str("No violations found\n"));
            proof {
                assert(segment_views(out@) =~= report_pieces(result@));
            }
            return out;
        }
        let mut i: usize = 0;
        proof {
            assert(segment_views(out@) =~= detail_pieces(views, 0));
        }
        while i < result.statuses.len()
            invariant
                i <= result.statuses.len(),
                views == result@.statuses,
                renderable(result@),
                segment_views(out@) == detail_pieces(views, i as int),
            decreases result.statuses.len() - i,
        {
            let status = &result.statuses[i];
            proof {
                assert(views[i as int] == status@);
            }
            push_heading(&mut out, &result.statuses, i);
            let ghost headed = segment_views(out@);
            let mut n: usize = 0;
            proof {
                assert(segment_views(out@) =~= headed + violations_pieces(
                    status@.violations,
                    0,
                ));
            }
            while n < status.violations.len()
                invariant
                    n <= status.violations.len(),
                    segment_views(out@) == headed + violations_pieces(
                        status@.violations,
                        n as int,
                    ),
                decreases status.violations.len() - n,
            {
                push_violation(&mut out, &status.violations[n]);
                proof {
                    assert(segment_views(out@) =~= headed + violations_pieces(
                        status@.violations,
                        n + 1,
                    ));
                }
                n += 1;
            }
            proof {
                assert(segment_views(out@) =~= detail_pieces(views, i + 1));
            }
            i += 1;
        }
        let ghost details = segment_views(out@);
        push_piece(&mut out, Style::Bold, String::from_str("Summary:\n"));
        push_piece(&mut out, Style::Plain, String::from_str("\n"));
        let ghost titled = segment_views(out@);
        let mut k: usize = 0;
        proof {
            assert(segment_views(out@) =~= titled + summaries_pieces(views, 0));
        }
        while k < result.statuses.len()
            invariant
                k <= result.statuses.len(),
                views == result@.statuses,
                renderable(result@),
                segment_views(out@) == titled + summaries_pieces(views, k as int),
            decreases result.statuses.len() - k,
        {
            proof {
                assert(views[k as int] == result.statuses@[k as int]@);
            }
            push_summary(&mut out, &result.statuses[k]);
            proof {
                assert(segment_views(out@) =~= titled + summaries_pieces(views, k + 1));
            }
            k += 1;
        }
        push_piece(&mut out, Style::Plain, String::from_str("\n"));
        push_closing(&mut out, result);
        proof {
            assert(titled =~= details + seq![
                (Style::Bold, "Summary:\n"@),
                (Style::Plain, "\n"@),
            ]);
            assert(segment_views(out@) =~= report_pieces(result@));
        }
        out
    }

    /// The report on `result` as plain text.
    pub fn format(&self, result: &AggregationResult) -> (r: String)
        requires
            renderable(result@),
        ensures
            r@ == pieces_text(report_pieces(result@)),
    {
        let pieces = self.styled(result);
        let ghost views = segment_views(pieces@);
        let mut out = String::new();
        let mut i: usize = 0;
        proof {
            assert(views.take(0) =~= Seq::<(Style, Seq<char>)>::empty());
        }
        while i < pieces.len()
            invariant
                i <= pieces.len(),
                views == segment_views(pieces@),
                out@ == pieces_text(views.take(i as int)),
            decreases pieces.len() - i,
        {
            out.append(pieces[i].text.as_str());
            proof {
                assert(views.take(i + 1).drop_last() =~= views.take(i as int));
                assert(views.take(i + 1).last() == pieces@[i as int]@);
            }
            i += 1;
        }
        proof {
            assert(views.take(pieces.len() as int) =~= views);
        }
        out
    }
}

} // verus!
