//! The persisted form of a budget store: a document of tables, one for each
//! rule, that map region keys to budgets.
//!
//! ```text
//! [no-todo]
//! "." = 0
//!
//! [no-unwrap]
//! "." = 20
//! "src" = 5
//! ```
//!
//! Reading goes through the `toml` crate. Writing is done here, rules and
//! regions in ascending order, so that stores with the same budgets are written
//! as the same text.

use vstd::prelude::*;
use vstd::string::*;
use crate::config::counts::{is_listing, listed, listed_keys, valid_key, Budgets, CountsManager};
use crate::keys::{ascending, lemma_sorted_keys, sorted_keys};
use crate::text::{
    chars_of, decimal, digit, digit_char, key_less, lemma_key_irreflexive,
    push_char, push_decimal, same_text, KeyView,
};
use crate::types::{lemma_region_key_normal, region_key, valid_rule_text, RegionPath, RuleId};

verus! {

/// One line of a table: a region key and its budget.
#[derive(Debug, PartialEq, Eq)]
pub struct RegionCount {
    pub region: String,
    pub count: u64,
}

/// One table of a document: a rule name and its lines.
#[derive(Debug, PartialEq, Eq)]
pub struct RuleTable {
    pub rule: String,
    pub regions: Vec<RegionCount>,
}

/// The lines of `regions`, each as a region text and a budget.
pub open spec fn region_views(regions: Seq<RegionCount>) -> Seq<(Seq<char>, u64)> {
    Seq::new(regions.len(), |i: int| (regions[i].region@, regions[i].count))
}

/// The tables of `tables`, each as a rule text and its lines.
pub open spec fn table_views(tables: Seq<RuleTable>) -> Seq<(Seq<char>, Seq<(Seq<char>, u64)>)> {
    Seq::new(tables.len(), |i: int| (tables[i].rule@, region_views(tables[i].regions@)))
}

/// Why a text was not accepted as a budget store.
#[derive(Debug, PartialEq, Eq)]
pub enum ParseError {
    /// The text is not a document of tables of non-negative integers. The field
    /// holds what the decoder says went wrong.
    Malformed(String),
    /// A table is named by a text that is no valid rule identifier. The field
    /// holds that text.
    InvalidRuleId(String),
}

impl ParseError {
    /// What the error says, as a text.
    pub open spec fn text(&self) -> Seq<char> {
        match self {
            ParseError::Malformed(reason) => reason@,
            ParseError::InvalidRuleId(name) => "invalid rule identifier '"@ + name@ + "'"@,
        }
    }

    /// What the error says.
    pub fn message(&self) -> (r: String)
        ensures
            r@ == self.text(),
    {
        match self {
            ParseError::Malformed(reason) => reason.clone(),
            ParseError::InvalidRuleId(name) => {
                let mut out = String::from_str("invalid rule identifier '");
                out.append(name.as_str());
                out.append("'");
                out
            },
        }
    }
}

/// What the `toml` crate decodes `text` into, as a map from rule names to maps
/// from region keys to unsigned 64-bit integers: the tables in ascending order
/// of name, each with its lines in ascending order of key; `None` where the
/// crate rejects the text.
pub uninterp spec fn toml_tables(text: Seq<char>) -> Option<Seq<(Seq<char>, Seq<(Seq<char>, u64)>)>>;

#[verifier::external_type_specification]
#[verifier::external_body]
pub struct ExTomlError(toml::de::Error);

/// Decodes `text` with `toml::from_str`, as a map from strings to maps from
/// strings to `u64`, and hands the tables out in the maps' order.
///
/// Trusted: the outcome is `toml_tables` of the text, which the crate decodes
/// or rejects as a whole.
#[verifier::external_body]
fn decode_tables(text: &str) -> (r: Result<Vec<RuleTable>, toml::de::Error>)
    ensures
        match r {
            Ok(tables) => toml_tables(text@) == Some(table_views(tables@)),
            Err(_) => toml_tables(text@) is None,
        },
{
    let decoded = toml::from_str::<
        std::collections::BTreeMap<String, std::collections::BTreeMap<String, u64>>,
    >(text)?;
    Ok(decoded.into_iter().map(|(rule, regions)| RuleTable {
        rule,
        regions: regions.into_iter().map(|(region, count)| RegionCount { region, count }).collect(),
    }).collect())
}

/// What the decoder says went wrong, by `toml::de::Error::message`.
///
/// Trusted: nothing is claimed of the text.
#[verifier::external_body]
fn error_message(error: &toml::de::Error) -> (r: String) {
    error.message().to_owned()
}

/// `budgets` with the lines of one table added in their order, a later line
/// replacing an earlier one for the same region.
pub open spec fn with_regions(
    budgets: Budgets,
    rule: Seq<char>,
    regions: Seq<(Seq<char>, u64)>,
) -> Budgets
    decreases regions.len(),
{
    if regions.len() == 0 {
        budgets
    } else {
        with_regions(budgets, rule, regions.drop_last()).insert(
            (rule, region_key(regions.last().0)),
            regions.last().1,
        )
    }
}

/// The budgets that `tables` set, taken in their order.
pub open spec fn tables_budgets(tables: Seq<(Seq<char>, Seq<(Seq<char>, u64)>)>) -> Budgets
    decreases tables.len(),
{
    if tables.len() == 0 {
        Map::empty()
    } else {
        with_regions(tables_budgets(tables.drop_last()), tables.last().0, tables.last().1)
    }
}

/// The name of the first table that is not named by a valid rule identifier.
pub open spec fn first_invalid_rule(tables: Seq<(Seq<char>, Seq<(Seq<char>, u64)>)>) -> Option<
    Seq<char>,
>
    decreases tables.len(),
{
    if tables.len() == 0 {
        None
    } else if !valid_rule_text(tables[0].0) {
        Some(tables[0].0)
    } else {
        first_invalid_rule(tables.drop_first())
    }
}

/// Whether `outcome` is what reading `tables` gives: the store of their
/// budgets, or the first table name that is no rule identifier.
pub open spec fn reads_tables(
    tables: Seq<(Seq<char>, Seq<(Seq<char>, u64)>)>,
    outcome: Result<CountsManager, ParseError>,
) -> bool {
    match first_invalid_rule(tables) {
        Some(name) => outcome matches Err(ParseError::InvalidRuleId(text)) && text@ == name,
        None => outcome matches Ok(store) && store@ == tables_budgets(tables),
    }
}

/// Whether `outcome` is what parsing gives for a text that decodes to
/// `decoded`.
pub open spec fn parses(
    decoded: Option<Seq<(Seq<char>, Seq<(Seq<char>, u64)>)>>,
    outcome: Result<CountsManager, ParseError>,
) -> bool {
    match decoded {
        Some(tables) => reads_tables(tables, outcome),
        None => outcome matches Err(ParseError::Malformed(_)),
    }
}

/// Tables named by valid rule identifiers up to `n` do not hold the first
/// invalid name.
pub proof fn lemma_first_invalid_skip(tables: Seq<(Seq<char>, Seq<(Seq<char>, u64)>)>, n: int)
    requires
        0 <= n <= tables.len(),
        forall|i: int| 0 <= i < n ==> valid_rule_text(#[trigger] tables[i].0),
    ensures
        first_invalid_rule(tables) == first_invalid_rule(tables.skip(n)),
    decreases n,
{
    if n == 0 {
        assert(tables.skip(0) =~= tables);
    } else {
        assert(valid_rule_text(tables[0].0));
        let rest = tables.drop_first();
        assert forall|i: int| 0 <= i < n - 1 implies valid_rule_text(#[trigger] rest[i].0) by {
            assert(rest[i] == tables[i + 1]);
        }
        lemma_first_invalid_skip(rest, n - 1);
        assert(rest.skip(n - 1) =~= tables.skip(n));
    }
}

/// Sets in `store` the budgets of one table's lines, in their order.
fn set_regions(store: &mut CountsManager, rule: &RuleId, regions: &Vec<RegionCount>)
    ensures
        final(store)@ == with_regions(old(store)@, rule@, region_views(regions@)),
{
    let ghost lines = region_views(regions@);
    let mut i: usize = 0;
    proof {
        assert(lines.take(0) =~= Seq::<(Seq<char>, u64)>::empty());
    }
    while i < regions.len()
        invariant
            i <= regions.len(),
            lines == region_views(regions@),
            store@ == with_regions(old(store)@, rule@, lines.take(i as int)),
        decreases regions.len() - i,
    {
        let region = RegionPath::new(regions[i].region.as_str());
        store.set_count(rule, &region, regions[i].count);
        proof {
            assert(lines.take(i + 1).drop_last() =~= lines.take(i as int));
            assert(lines.take(i + 1).last() == lines[i as int]);
        }
        i += 1;
    }
    proof {
        assert(lines.take(regions.len() as int) =~= lines);
    }
}

/// The store that `tables` describe, or the first table name that is no valid
/// rule identifier.
///
/// Region keys are brought into normal form. Where two lines set a budget for
/// the same rule and region, the later one stands.
pub fn from_tables(tables: &Vec<RuleTable>) -> (r: Result<CountsManager, ParseError>)
    ensures
        reads_tables(table_views(tables@), r),
{
    let ghost views = table_views(tables@);
    let mut store = CountsManager::new();
    let mut i: usize = 0;
    proof {
        assert(views.take(0) =~= Seq::<(Seq<char>, Seq<(Seq<char>, u64)>)>::empty());
    }
    while i < tables.len()
        invariant
            i <= tables.len(),
            views == table_views(tables@),
            forall|j: int| 0 <= j < i ==> valid_rule_text(#[trigger] views[j].0),
            store@ == tables_budgets(views.take(i as int)),
        decreases tables.len() - i,
    {
        match RuleId::new(tables[i].rule.as_str()) {
            Some(rule) => {
                set_regions(&mut store, &rule, &tables[i].regions);
                proof {
                    assert(views.take(i + 1).drop_last() =~= views.take(i as int));
                    assert(views.take(i + 1).last() == views[i as int]);
                }
            },
            None => {
                proof {
                    lemma_first_invalid_skip(views, i as int);
                    assert(views.skip(i as int)[0] == views[i as int]);
                }
                return Err(ParseError::InvalidRuleId(tables[i].rule.clone()));
            },
        }
        i += 1;
    }
    proof {
        lemma_first_invalid_skip(views, tables.len() as int);
        assert(views.take(tables.len() as int) =~= views);
    }
    Ok(store)
}

impl CountsManager {
    /// Reads a store from its persisted text.
    ///
    /// The text is accepted where the `toml` crate decodes it into tables of
    /// non-negative integers and every table is named by a valid rule
    /// identifier. No store is returned for a text that is accepted in part.
    pub fn parse(text: &str) -> (r: Result<CountsManager, ParseError>)
        ensures
            parses(toml_tables(text@), r),
    {
        match decode_tables(text) {
            Ok(tables) => from_tables(&tables),
            Err(error) => Err(ParseError::Malformed(error_message(&error))),
        }
    }
}

/// The keys of `budgets` in ascending order, each with its budget.
pub open spec fn listing(budgets: Budgets) -> Seq<(KeyView, u64)> {
    let keys = sorted_keys(budgets.dom());
    Seq::new(keys.len(), |i: int| (keys[i], budgets[keys[i]]))
}

/// A store has one listing only, which `listing` names.
pub proof fn lemma_listing_unique(list: Seq<(KeyView, u64)>, budgets: Budgets)
    requires
        is_listing(list, budgets),
    ensures
        list == listing(budgets),
{
    let keys = listed_keys(list);
    assert forall|k: KeyView| keys.contains(k) <==> budgets.dom().contains(k) by {
        if keys.contains(k) {
            let i = choose|i: int| 0 <= i < keys.len() && keys[i] == k;
            assert(list[i].0 == k);
        }
    }
    lemma_sorted_keys(keys, budgets.dom());
    assert(list =~= listing(budgets));
}

/// The tables of a listing: one for each run of entries with the same rule,
/// holding the regions of the run in their order.
pub open spec fn group_tables(list: Seq<(KeyView, u64)>) -> Seq<(Seq<char>, Seq<(Seq<char>, u64)>)>
    decreases list.len(),
{
    if list.len() == 0 {
        Seq::empty()
    } else {
        let before = group_tables(list.drop_last());
        let entry = list.last();
        let line = (entry.0.1, entry.1);
        if before.len() > 0 && before.last().0 == entry.0.0 {
            before.update(before.len() - 1, (entry.0.0, before.last().1.push(line)))
        } else {
            before.push((entry.0.0, seq![line]))
        }
    }
}

/// The tables that persist `budgets`: rules in ascending order, and under each
/// rule its regions in ascending order.
pub open spec fn budget_tables(budgets: Budgets) -> Seq<(Seq<char>, Seq<(Seq<char>, u64)>)> {
    group_tables(listing(budgets))
}

/// The budgets of a list of entries, a later entry replacing an earlier one
/// for the same key.
pub open spec fn listed_budgets(list: Seq<(KeyView, u64)>) -> Budgets
    decreases list.len(),
{
    if list.len() == 0 {
        Map::empty()
    } else {
        listed_budgets(list.drop_last()).insert(list.last().0, list.last().1)
    }
}

/// The budgets of a store's listing are the store's budgets.
pub proof fn lemma_listed_budgets(list: Seq<(KeyView, u64)>, budgets: Budgets)
    requires
        is_listing(list, budgets),
    ensures
        listed_budgets(list) == budgets,
{
    lemma_listed_budgets_prefix(list, list.len() as int);
    assert(list.take(list.len() as int) =~= list);
    let got = listed_budgets(list);
    assert forall|k: KeyView| got.dom().contains(k) <==> budgets.dom().contains(k) by {
        if budgets.dom().contains(k) {
            assert(listed_keys(list).contains(k));
            let i = choose|i: int| 0 <= i < list.len() && listed_keys(list)[i] == k;
            assert(list[i].0 == k);
        }
    }
    assert(got =~= budgets);
}

/// The budgets of a prefix of an ascending list: the keys of the prefix, each
/// with the budget listed for it.
proof fn lemma_listed_budgets_prefix(list: Seq<(KeyView, u64)>, n: int)
    requires
        ascending(listed_keys(list)),
        0 <= n <= list.len(),
    ensures
        forall|k: KeyView|
            listed_budgets(list.take(n)).dom().contains(k) <==> exists|i: int|
                0 <= i < n && (#[trigger] list[i]).0 == k,
        forall|i: int|
            0 <= i < n ==> listed_budgets(list.take(n))[(#[trigger] list[i]).0] == list[i].1,
    decreases n,
{
    let keys = listed_keys(list);
    if n == 0 {
        assert(list.take(0) =~= Seq::<(KeyView, u64)>::empty());
    } else {
        lemma_listed_budgets_prefix(list, n - 1);
        assert(list.take(n).drop_last() =~= list.take(n - 1));
        assert(list.take(n).last() == list[n - 1]);
        let shorter = listed_budgets(list.take(n - 1));
        let longer = listed_budgets(list.take(n));
        assert(longer == shorter.insert(list[n - 1].0, list[n - 1].1));
        assert forall|k: KeyView| longer.dom().contains(k) <==> exists|i: int|
            0 <= i < n && (#[trigger] list[i]).0 == k by {
            if shorter.dom().contains(k) {
                let i = choose|i: int| 0 <= i < n - 1 && (#[trigger] list[i]).0 == k;
                assert(list[i].0 == k);
            }
            if k == list[n - 1].0 {
                assert(list[n - 1].0 == k);
            }
            if exists|i: int| 0 <= i < n && (#[trigger] list[i]).0 == k {
                let i = choose|i: int| 0 <= i < n && (#[trigger] list[i]).0 == k;
                if i < n - 1 {
                    assert(list[i].0 == k);
                    assert(shorter.dom().contains(k));
                }
            }
        }
        assert forall|i: int| 0 <= i < n implies listed_budgets(list.take(n))[(
        #[trigger] list[i]).0] == list[i].1 by {
            if i < n - 1 {
                assert(key_less(keys[i], keys[n - 1]));
                lemma_key_irreflexive(keys[i]);
            }
        }
    }
}

/// A line added to the last table sets one more budget.
pub proof fn lemma_add_line(
    tables: Seq<(Seq<char>, Seq<(Seq<char>, u64)>)>,
    line: (Seq<char>, u64),
)
    requires
        tables.len() > 0,
    ensures
        tables_budgets(
            tables.update(tables.len() - 1, (tables.last().0, tables.last().1.push(line))),
        ) == tables_budgets(tables).insert((tables.last().0, region_key(line.0)), line.1),
{
    let last = tables.last();
    let longer = tables.update(tables.len() - 1, (last.0, last.1.push(line)));
    assert(longer.drop_last() =~= tables.drop_last());
    assert(last.1.push(line).drop_last() =~= last.1);
}

/// A table of one line added at the end sets one more budget.
pub proof fn lemma_add_table(
    tables: Seq<(Seq<char>, Seq<(Seq<char>, u64)>)>,
    rule: Seq<char>,
    line: (Seq<char>, u64),
)
    ensures
        tables_budgets(tables.push((rule, seq![line]))) == tables_budgets(tables).insert(
            (rule, region_key(line.0)),
            line.1,
        ),
{
    let longer = tables.push((rule, seq![line]));
    assert(longer.drop_last() =~= tables);
    assert(seq![line].drop_last() =~= Seq::<(Seq<char>, u64)>::empty());
    assert(with_regions(tables_budgets(tables), rule, seq![line].drop_last()) == tables_budgets(
        tables,
    ));
}

/// The tables of the first `n` entries of a list of valid keys are named by
/// valid rule identifiers and set the budgets of those entries.
proof fn lemma_group_tables(list: Seq<(KeyView, u64)>, n: int)
    requires
        0 <= n <= list.len(),
        forall|i: int| 0 <= i < list.len() ==> valid_key((#[trigger] list[i]).0),
    ensures
        tables_budgets(group_tables(list.take(n))) == listed_budgets(list.take(n)),
        forall|t: int|
            0 <= t < group_tables(list.take(n)).len() ==> valid_rule_text(
                (#[trigger] group_tables(list.take(n))[t]).0,
            ),
    decreases n,
{
    if n == 0 {
        assert(list.take(0) =~= Seq::<(KeyView, u64)>::empty());
    } else {
        lemma_group_tables(list, n - 1);
        let before = group_tables(list.take(n - 1));
        let entry = list[n - 1];
        let line = (entry.0.1, entry.1);
        assert(list.take(n).drop_last() =~= list.take(n - 1));
        assert(list.take(n).last() == entry);
        assert(valid_key(entry.0));
        lemma_region_key_normal(entry.0.1);
        if before.len() > 0 && before.last().0 == entry.0.0 {
            lemma_add_line(before, line);
        } else {
            lemma_add_table(before, entry.0.0, line);
        }
    }
}

/// Reading back the tables that persist a store gives the store: every table
/// is named by a valid rule identifier, and the budgets that the tables set
/// are the store's budgets.
pub proof fn lemma_tables_round_trip(list: Seq<(KeyView, u64)>, budgets: Budgets)
    requires
        is_listing(list, budgets),
        forall|k: KeyView| budgets.dom().contains(k) ==> valid_key(k),
    ensures
        first_invalid_rule(budget_tables(budgets)) is None,
        tables_budgets(budget_tables(budgets)) == budgets,
{
    lemma_listing_unique(list, budgets);
    lemma_listed_budgets(list, budgets);
    lemma_group_tables(list, list.len() as int);
    assert(list.take(list.len() as int) =~= list);
    let tables = budget_tables(budgets);
    lemma_first_invalid_skip(tables, tables.len() as int);
}

impl CountsManager {
    /// The tables that persist the store: rules in ascending order, and under
    /// each rule its regions in ascending order.
    ///
    /// Reading the tables back gives a store with the same budgets.
    pub fn to_tables(&self) -> (tables: Vec<RuleTable>)
        ensures
            table_views(tables@) == budget_tables(self@),
            first_invalid_rule(table_views(tables@)) is None,
            tables_budgets(table_views(tables@)) == self@,
    {
        let entries = self.entries();
        let ghost list = listed(entries@);
        let mut tables: Vec<RuleTable> = Vec::new();
        let mut i: usize = 0;
        proof {
            lemma_listing_unique(list, self@);
            assert(list.take(0) =~= Seq::<(KeyView, u64)>::empty());
            assert(table_views(tables@) =~= group_tables(list.take(0)));
        }
        while i < entries.len()
            invariant
                i <= entries.len(),
                list == listed(entries@),
                table_views(tables@) == group_tables(list.take(i as int)),
                forall|j: int| 0 <= j < i ==> valid_key((#[trigger] list[j]).0),
            decreases entries.len() - i,
        {
            let rule = entries[i].0.as_str();
            let region = entries[i].1.as_str();
            let count = entries[i].2;
            let ghost before = table_views(tables@);
            let ghost line = (region@, count);
            proof {
                assert(list[i as int] == ((rule@, region@), count));
                assert(list.take(i + 1).drop_last() =~= list.take(i as int));
                assert(list.take(i + 1).last() == list[i as int]);
            }
            let last = tables.len();
            if last > 0 && same_text(tables[last - 1].rule.as_str(), rule) {
                let ghost old_tables = tables@;
                tables[last - 1].regions.push(RegionCount { region: region.to_owned(), count });
                proof {
                    assert(tables@.len() == old_tables.len());
                    assert(tables@[last - 1].rule == old_tables[last - 1].rule);
                    assert(region_views(tables@[last - 1].regions@) =~= region_views(
                        old_tables[last - 1].regions@,
                    ).push(line));
                    assert forall|t: int| 0 <= t < last - 1 implies tables@[t]
                        == old_tables[t] by {}
                    assert(table_views(tables@) =~= before.update(
                        last - 1,
                        (before.last().0, before.last().1.push(line)),
                    ));
                }
            } else {
                let mut regions: Vec<RegionCount> = Vec::new();
                regions.push(RegionCount { region: region.to_owned(), count });
                tables.push(RuleTable { rule: rule.to_owned(), regions });
                proof {
                    assert(region_views(regions@) =~= seq![line]);
                    assert(table_views(tables@) =~= before.push((rule@, seq![line])));
                }
            }
            i += 1;
        }
        proof {
            assert(list.take(entries.len() as int) =~= list);
            assert forall|k: KeyView| self@.dom().contains(k) implies valid_key(k) by {
                assert(listed_keys(list).contains(k));
                let j = choose|j: int| 0 <= j < list.len() && listed_keys(list)[j] == k;
                assert(list[j].0 == k);
            }
            lemma_tables_round_trip(list, self@);
        }
        tables
    }
}

/// Whether `c` cannot stand as itself between the quotes of a key: a control
/// character.
pub open spec fn is_control(c: char) -> bool {
    (c as u32) < 0x20 || c == '\u{7f}'
}

/// How `c` is written between the quotes of a key: a quote and a backslash
/// after a backslash, a control character by its code point in four
/// hexadecimal digits after `\u`, and any other character as itself.
pub open spec fn escaped_char(c: char) -> Seq<char> {
    if c == '"' {
        seq!['\\', '"']
    } else if c == '\\' {
        seq!['\\', '\\']
    } else if is_control(c) {
        seq![
            '\\',
            'u',
            '0',
            '0',
            digit_char(((c as u32) / 16) as nat),
            digit_char(((c as u32) % 16) as nat),
        ]
    } else {
        seq![c]
    }
}

/// The characters of `text`, each as it is written between quotes.
pub open spec fn escaped(text: Seq<char>) -> Seq<char>
    decreases text.len(),
{
    if text.len() == 0 {
        Seq::empty()
    } else {
        escaped(text.drop_last()) + escaped_char(text.last())
    }
}

/// `text` as a quoted key.
pub open spec fn quoted(text: Seq<char>) -> Seq<char> {
    seq!['"'] + escaped(text) + seq!['"']
}

/// One line of a table: the quoted region key, an equals sign between two
/// spaces, the budget as a decimal numeral, and a line feed.
pub open spec fn region_line(line: (Seq<char>, u64)) -> Seq<char> {
    quoted(line.0) + seq![' ', '=', ' '] + decimal(line.1 as nat) + seq!['\n']
}

/// The lines of a table, in their order.
pub open spec fn region_lines(lines: Seq<(Seq<char>, u64)>) -> Seq<char>
    decreases lines.len(),
{
    if lines.len() == 0 {
        Seq::empty()
    } else {
        region_lines(lines.drop_last()) + region_line(lines.last())
    }
}

/// One table: its name in square brackets on a line, then its lines.
pub open spec fn table_text(table: (Seq<char>, Seq<(Seq<char>, u64)>)) -> Seq<char> {
    seq!['['] + table.0 + seq![']', '\n'] + region_lines(table.1)
}

/// A document: its tables in their order, with an empty line between two of
/// them. The document without tables is the empty text.
pub open spec fn tables_text(tables: Seq<(Seq<char>, Seq<(Seq<char>, u64)>)>) -> Seq<char>
    decreases tables.len(),
{
    if tables.len() == 0 {
        Seq::empty()
    } else if tables.len() == 1 {
        table_text(tables[0])
    } else {
        tables_text(tables.drop_last()) + seq!['\n'] + table_text(tables.last())
    }
}

/// Appends `c` to `out` as it is written between quotes.
fn push_escaped_char(out: &mut String, c: char)
    ensures
        final(out)@ == old(out)@ + escaped_char(c),
{
    if c == '"' {
        push_char(out, '\\');
        push_char(out, '"');
        assert(out@ =~= old(out)@ + escaped_char(c));
    } else if c == '\\' {
        push_char(out, '\\');
        push_char(out, '\\');
        assert(out@ =~= old(out)@ + escaped_char(c));
    } else if (c as u32) < 0x20 || c == '\u{7f}' {
        let code: u32 = c as u32;
        push_char(out, '\\');
        push_char(out, 'u');
        push_char(out, '0');
        push_char(out, '0');
        push_char(out, digit(code / 16));
        push_char(out, digit(code % 16));
        assert(out@ =~= old(out)@ + escaped_char(c));
    } else {
        push_char(out, c);
        assert(out@ =~= old(out)@ + escaped_char(c));
    }
}

/// Appends `key` to `out` as a quoted key.
fn push_quoted(out: &mut String, key: &str)
    ensures
        final(out)@ == old(out)@ + quoted(key@),
{
    let chars = chars_of(key);
    push_char(out, '"');
    let mut i: usize = 0;
    proof {
        assert(chars@.take(0) =~= Seq::<char>::empty());
        assert(out@ =~= old(out)@ + seq!['"'] + escaped(chars@.take(0)));
    }
    while i < chars.len()
        invariant
            i <= chars.len(),
            out@ == old(out)@ + seq!['"'] + escaped(chars@.take(i as int)),
        decreases chars.len() - i,
    {
        let ghost before = out@;
        push_escaped_char(out, chars[i]);
        proof {
            assert(chars@.take(i + 1).drop_last() =~= chars@.take(i as int));
            assert(chars@.take(i + 1).last() == chars@[i as int]);
            assert(out@ =~= old(out)@ + seq!['"'] + escaped(chars@.take(i + 1)));
        }
        i += 1;
    }
    push_char(out, '"');
    proof {
        assert(chars@.take(chars.len() as int) =~= chars@);
        assert(out@ =~= old(out)@ + quoted(key@));
    }
}

/// Appends one line of a table to `out`.
fn push_region_line(out: &mut String, line: &RegionCount)
    ensures
        final(out)@ == old(out)@ + region_line((line.region@, line.count)),
{
    push_quoted(out, line.region.as_str());
    push_char(out, ' ');
    push_char(out, '=');
    push_char(out, ' ');
    push_decimal(out, line.count);
    push_char(out, '\n');
    proof {
        assert(out@ =~= old(out)@ + region_line((line.region@, line.count)));
    }
}

/// Appends one table to `out`.
fn push_table(out: &mut String, table: &RuleTable)
    ensures
        final(out)@ == old(out)@ + table_text((table.rule@, region_views(table.regions@))),
{
    let ghost lines = region_views(table.regions@);
    push_char(out, '[');
    out.append(table.rule.as_str());
    push_char(out, ']');
    push_char(out, '\n');
    let ghost head = old(out)@ + seq!['['] + table.rule@ + seq![']', '\n'];
    let mut i: usize = 0;
    proof {
        assert(lines.take(0) =~= Seq::<(Seq<char>, u64)>::empty());
        assert(out@ =~= head + region_lines(lines.take(0)));
    }
    while i < table.regions.len()
        invariant
            i <= table.regions.len(),
            lines == region_views(table.regions@),
            out@ == head + region_lines(lines.take(i as int)),
        decreases table.regions.len() - i,
    {
        push_region_line(out, &table.regions[i]);
        proof {
            assert(lines.take(i + 1).drop_last() =~= lines.take(i as int));
            assert(lines.take(i + 1).last() == lines[i as int]);
            assert(out@ =~= head + region_lines(lines.take(i + 1)));
        }
        i += 1;
    }
    proof {
        assert(lines.take(table.regions.len() as int) =~= lines);
        assert(out@ =~= old(out)@ + table_text((table.rule@, lines)));
    }
}

/// The text of a document of tables.
pub fn render_tables(tables: &Vec<RuleTable>) -> (r: String)
    ensures
        r@ == tables_text(table_views(tables@)),
{
    let ghost views = table_views(tables@);
    let mut out = String::new();
    let mut i: usize = 0;
    proof {
        assert(views.take(0) =~= Seq::<(Seq<char>, Seq<(Seq<char>, u64)>)>::empty());
    }
    while i < tables.len()
        invariant
            i <= tables.len(),
            views == table_views(tables@),
            out@ == tables_text(views.take(i as int)),
        decreases tables.len() - i,
    {
        let ghost before = out@;
        if i > 0 {
            push_char(&mut out, '\n');
        }
        push_table(&mut out, &tables[i]);
        proof {
            let longer = views.take(i + 1);
            assert(longer.drop_last() =~= views.take(i as int));
            assert(longer.last() == views[i as int]);
            if i == 0 {
                assert(longer[0] == views[0]);
                assert(out@ =~= table_text(views[0]));
            } else {
                assert(out@ =~= before + seq!['\n'] + table_text(views[i as int]));
            }
        }
        i += 1;
    }
    proof {
        assert(views.take(tables.len() as int) =~= views);
    }
    out
}

impl CountsManager {
    /// The persisted text of the store.
    ///
    /// Rules and regions are written in ascending order, so the text depends
    /// on the budgets alone: stores that hold the same budgets give the same
    /// text, byte for byte.
    pub fn to_toml_string(&self) -> (r: String)
        ensures
            r@ == tables_text(budget_tables(self@)),
    {
        let tables = self.to_tables();
        render_tables(&tables)
    }
}

} // verus!
