//! Merging two budget stores that were tightened independently.
//!
//! A budget may shrink and never grow. When two branches both lower a budget,
//! the merged store keeps the lower of the two, so that no manual resolution
//! is needed and no branch's tightening is lost.

use vstd::prelude::*;
use vstd::string::*;
use crate::config::counts::{is_listing, listed, listed_keys, Budgets, CountsManager};
use crate::config::tables::{
    budget_tables, first_invalid_rule, parses, tables_budgets, tables_text, toml_tables,
    ParseError,
};
use crate::text::KeyView;
use crate::types::{RegionPath, RuleId};

verus! {

/// The smaller of two budgets.
pub open spec fn lower(a: u64, b: u64) -> u64 {
    if a <= b {
        a
    } else {
        b
    }
}

/// The minimum-wins merge of two stores: every key of either side, with the
/// lower budget where both sides set one and the only budget where one does.
pub open spec fn merge_budgets(ours: Budgets, theirs: Budgets) -> Budgets {
    Map::new(
        |k: KeyView| ours.dom().contains(k) || theirs.dom().contains(k),
        |k: KeyView|
            if ours.dom().contains(k) && theirs.dom().contains(k) {
                lower(ours[k], theirs[k])
            } else if ours.dom().contains(k) {
                ours[k]
            } else {
                theirs[k]
            },
    )
}

/// The merged store holds exactly the keys of the two sides. A key that only
/// the common ancestor held is not among them.
pub proof fn lemma_merge_keys(ours: Budgets, theirs: Budgets)
    ensures
        merge_budgets(ours, theirs).dom() == ours.dom().union(theirs.dom()),
{
    assert(merge_budgets(ours, theirs).dom() =~= ours.dom().union(theirs.dom()));
}

/// The merged budget of a key exceeds neither side's budget for it: it is the
/// lower of the two where both sides set one, and the side's own budget where
/// only one side does.
pub proof fn lemma_merge_never_loosens(ours: Budgets, theirs: Budgets, key: KeyView)
    requires
        ours.dom().contains(key) || theirs.dom().contains(key),
    ensures
        merge_budgets(ours, theirs).dom().contains(key),
        ours.dom().contains(key) ==> merge_budgets(ours, theirs)[key] <= ours[key],
        theirs.dom().contains(key) ==> merge_budgets(ours, theirs)[key] <= theirs[key],
        ours.dom().contains(key) && theirs.dom().contains(key) ==> {
            ||| merge_budgets(ours, theirs)[key] == ours[key]
            ||| merge_budgets(ours, theirs)[key] == theirs[key]
        },
        ours.dom().contains(key) && !theirs.dom().contains(key) ==> merge_budgets(
            ours,
            theirs,
        )[key] == ours[key],
        !ours.dom().contains(key) && theirs.dom().contains(key) ==> merge_budgets(
            ours,
            theirs,
        )[key] == theirs[key],
{
}

/// Merging is symmetric, and merging a store with itself changes nothing.
pub proof fn lemma_merge_symmetric(ours: Budgets, theirs: Budgets)
    ensures
        merge_budgets(ours, theirs) == merge_budgets(theirs, ours),
        merge_budgets(ours, ours) == ours,
{
    assert(merge_budgets(ours, theirs) =~= merge_budgets(theirs, ours));
    assert(merge_budgets(ours, ours) =~= ours);
}

/// Every budget of `counts` with its rule and region, in ascending order.
pub fn extract_all_counts(counts: &CountsManager) -> (r: Vec<(RuleId, RegionPath, u64)>)
    ensures
        is_listing(listed(r@), counts@),
{
    counts.entries()
}

/// Merges `ours` and `theirs`, the lower budget winning.
///
/// The common ancestor `_base` takes no part in the decision: it is accepted
/// so that the call has the shape of a three-way merge.
pub fn merge_counts(_base: &CountsManager, ours: &CountsManager, theirs: &CountsManager) -> (merged:
    CountsManager)
    ensures
        merged@ == merge_budgets(ours@, theirs@),
{
    let ghost goal = merge_budgets(ours@, theirs@);
    let mut merged = CountsManager::new();
    let ours_counts = extract_all_counts(ours);
    let theirs_counts = extract_all_counts(theirs);
    let ghost ours_keys = listed_keys(listed(ours_counts@));
    let ghost theirs_keys = listed_keys(listed(theirs_counts@));

    let mut i: usize = 0;
    while i < ours_counts.len()
        invariant
            i <= ours_counts.len(),
            goal == merge_budgets(ours@, theirs@),
            ours_keys == listed_keys(listed(ours_counts@)),
            is_listing(listed(ours_counts@), ours@),
            forall|k: KeyView|
                merged@.dom().contains(k) <==> exists|j: int|
                    0 <= j < i && #[trigger] ours_keys[j] == k,
            forall|k: KeyView| merged@.dom().contains(k) ==> merged@[k] == goal[k],
        decreases ours_counts.len() - i,
    {
        let rule = &ours_counts[i].0;
        let region = &ours_counts[i].1;
        let count = ours_counts[i].2;
        let ghost key = (rule@, region@);
        proof {
            assert(listed(ours_counts@)[i as int].0 == key);
            assert(ours_keys[i as int] == key);
        }
        let final_count = match theirs.get_count(rule, region) {
            Some(other) => if other < count {
                other
            } else {
                count
            },
            None => count,
        };
        let ghost before = merged@;
        merged.set_count(rule, region, final_count);
        i += 1;
        proof {
            assert forall|k: KeyView| merged@.dom().contains(k) <==> exists|j: int|
                0 <= j < i && #[trigger] ours_keys[j] == k by {
                if before.dom().contains(k) {
                    let j = choose|j: int| 0 <= j < i - 1 && #[trigger] ours_keys[j] == k;
                    assert(ours_keys[j] == k);
                }
            }
        }
    }

    let mut n: usize = 0;
    while n < theirs_counts.len()
        invariant
            n <= theirs_counts.len(),
            goal == merge_budgets(ours@, theirs@),
            theirs_keys == listed_keys(listed(theirs_counts@)),
            is_listing(listed(theirs_counts@), theirs@),
            forall|k: KeyView|
                merged@.dom().contains(k) <==> (ours@.dom().contains(k) || exists|j: int|
                    0 <= j < n && #[trigger] theirs_keys[j] == k),
            forall|k: KeyView| merged@.dom().contains(k) ==> merged@[k] == goal[k],
        decreases theirs_counts.len() - n,
    {
        let rule = &theirs_counts[n].0;
        let region = &theirs_counts[n].1;
        let count = theirs_counts[n].2;
        let ghost key = (rule@, region@);
        proof {
            assert(listed(theirs_counts@)[n as int].0 == key);
            assert(theirs_keys[n as int] == key);
        }
        let ghost before = merged@;
        if ours.get_count(rule, region).is_none() {
            merged.set_count(rule, region, count);
        }
        n += 1;
        proof {
            assert forall|k: KeyView|
                merged@.dom().contains(k) <==> (ours@.dom().contains(k) || exists|j: int|
                    0 <= j < n && #[trigger] theirs_keys[j] == k) by {
                if before.dom().contains(k) && !ours@.dom().contains(k) {
                    let j = choose|j: int| 0 <= j < n - 1 && #[trigger] theirs_keys[j] == k;
                    assert(theirs_keys[j] == k);
                }
            }
        }
    }
    proof {
        assert forall|k: KeyView| merged@.dom().contains(k) <==> goal.dom().contains(k) by {
            if theirs@.dom().contains(k) {
                assert(theirs_keys.contains(k));
                let j = choose|j: int| 0 <= j < theirs_keys.len() && theirs_keys[j] == k;
                assert(theirs_keys[j] == k);
            }
        }
        assert(merged@ =~= goal);
    }
    merged
}

/// The exit code of a merge that was performed.
pub const EXIT_SUCCESS: i32 = 0;

/// The exit code of a merge that failed.
pub const EXIT_ERROR: i32 = 1;

/// One of the three versions that a merge is given: where it lies, and its
/// text, or `None` where there is no file at that path.
#[derive(Debug, PartialEq, Eq)]
pub struct MergeInput {
    pub path: String,
    pub text: Option<String>,
}

/// A version that could not be read as a budget store.
#[derive(Debug, PartialEq, Eq)]
pub struct MergeError {
    /// Which version: `base`, `ours` or `theirs`.
    pub label: String,
    /// Where the version lies.
    pub path: String,
    /// Why it was not accepted.
    pub error: ParseError,
}

impl MergeError {
    /// What the error says, as a text.
    pub open spec fn text(&self) -> Seq<char> {
        "Failed to parse "@ + self.label@ + " file '"@ + self.path@ + "': "@ + self.error.text()
    }

    /// What the error says.
    pub fn message(&self) -> (r: String)
        ensures
            r@ == self.text(),
    {
        let mut out = String::from_str("Failed to parse ");
        out.append(self.label.as_str());
        out.append(" file '");
        out.append(self.path.as_str());
        out.append("': ");
        let detail = self.error.message();
        out.append(detail.as_str());
        out
    }
}

/// The budgets that a version stands for: none where there is no file, those
/// of its tables where its text is accepted, and `None` where it is not.
pub open spec fn version_budgets(text: Option<Seq<char>>) -> Option<Budgets> {
    match text {
        None => Some(Map::empty()),
        Some(content) => match toml_tables(content) {
            Some(tables) => if first_invalid_rule(tables) is None {
                Some(tables_budgets(tables))
            } else {
                None
            },
            None => None,
        },
    }
}

/// The text of `input`, if it has one.
pub open spec fn input_text(input: MergeInput) -> Option<Seq<char>> {
    match input.text {
        Some(content) => Some(content@),
        None => None,
    }
}

/// Whether `failure` says why `input`, the version called `label`, is not
/// accepted: it names the version and its path, and holds the error that
/// parsing the version's text gives.
pub open spec fn reports(failure: MergeError, input: MergeInput, label: Seq<char>) -> bool {
    &&& failure.label@ == label
    &&& failure.path@ == input.path@
    &&& input.text matches Some(content) && parses(toml_tables(content@), Err(failure.error))
}

/// Reads one version of a merge. A version without a file is the empty store.
pub fn parse_counts_file(input: &MergeInput, label: &str) -> (r: Result<CountsManager, MergeError>)
    ensures
        match r {
            Ok(store) => version_budgets(input_text(*input)) == Some(store@),
            Err(failure) => version_budgets(input_text(*input)) is None && reports(
                failure,
                *input,
                label@,
            ),
        },
{
    match &input.text {
        None => Ok(CountsManager::new()),
        Some(content) => match CountsManager::parse(content.as_str()) {
            Ok(store) => Ok(store),
            Err(error) => Err(
                MergeError { label: label.to_owned(), path: input.path.clone(), error },
            ),
        },
    }
}

/// Whether `outcome` is what merging the three versions gives: the persisted
/// text of the merge of ours and theirs where all three are accepted, and
/// else the first of base, ours and theirs that is not.
pub open spec fn merges(
    base: MergeInput,
    ours: MergeInput,
    theirs: MergeInput,
    outcome: Result<String, MergeError>,
) -> bool {
    if version_budgets(input_text(base)) is None {
        outcome matches Err(failure) && reports(failure, base, "base"@)
    } else if version_budgets(input_text(ours)) is None {
        outcome matches Err(failure) && reports(failure, ours, "ours"@)
    } else if version_budgets(input_text(theirs)) is None {
        outcome matches Err(failure) && reports(failure, theirs, "theirs"@)
    } else {
        outcome matches Ok(merged) && merged@ == tables_text(
            budget_tables(
                merge_budgets(
                    version_budgets(input_text(ours))->0,
                    version_budgets(input_text(theirs))->0,
                ),
            ),
        )
    }
}

/// Merges three versions of a persisted store and gives the text to put in
/// place of ours.
///
/// A version that is present and not accepted fails the whole merge, the
/// common ancestor too, so that nothing is written over ours.
pub fn run_merge_driver_inner(base: &MergeInput, ours: &MergeInput, theirs: &MergeInput) -> (r:
    Result<String, MergeError>)
    ensures
        merges(*base, *ours, *theirs, r),
{
    let base_counts = match parse_counts_file(base, "base") {
        Ok(store) => store,
        Err(failure) => {
            return Err(failure);
        },
    };
    let ours_counts = match parse_counts_file(ours, "ours") {
        Ok(store) => store,
        Err(failure) => {
            return Err(failure);
        },
    };
    let theirs_counts = match parse_counts_file(theirs, "theirs") {
        Ok(store) => store,
        Err(failure) => {
            return Err(failure);
        },
    };
    let merged = merge_counts(&base_counts, &ours_counts, &theirs_counts);
    Ok(merged.to_toml_string())
}

/// The exit code for the outcome of a merge.
pub fn exit_code(outcome: &Result<String, MergeError>) -> (code: i32)
    ensures
        code == if outcome is Ok {
            EXIT_SUCCESS
        } else {
            EXIT_ERROR
        },
{
    match outcome {
        Ok(_) => EXIT_SUCCESS,
        Err(_) => EXIT_ERROR,
    }
}

} // verus!
