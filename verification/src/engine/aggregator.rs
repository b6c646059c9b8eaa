//! Aggregation of violations and comparison with their budgets.
//!
//! Violations are grouped by rule and region. A group passes when it holds no
//! more violations than the budget that the store resolves for it, and the
//! whole passes when every group does. Groups come out in ascending order of
//! rule and region, so that equal inputs give equal reports.

use vstd::prelude::*;
use crate::config::counts::{resolve_budget, Budgets, CountsManager};
use crate::keys::{
    ascending, entry_keys, entry_map, find_key, lemma_insert_map, lemma_sorted_keys, lists_keys,
    put, sorted_keys, Entry,
};
use crate::rules::Violation;
use crate::text::{chars_of, KeyView};
use crate::types::{RegionPath, RuleId};

verus! {

/// The violations of `violations` that are filed under `key`, in their order.
pub open spec fn group_of(violations: Seq<Violation>, key: KeyView) -> Seq<Violation>
    decreases violations.len(),
{
    if violations.len() == 0 {
        Seq::empty()
    } else {
        let rest = group_of(violations.drop_last(), key);
        if violations.last().key() == key {
            rest.push(violations.last())
        } else {
            rest
        }
    }
}

/// The keys under which at least one of `violations` is filed.
pub open spec fn violation_keys(violations: Seq<Violation>) -> Set<KeyView> {
    Set::new(|k: KeyView| exists|i: int| 0 <= i < violations.len() && violations[i].key() == k)
}

/// What a status says, with rule and region as texts.
pub struct StatusView {
    pub rule: Seq<char>,
    pub region: Seq<char>,
    pub actual_count: u64,
    pub budget: u64,
    pub passed: bool,
    pub violations: Seq<Violation>,
}

/// What an aggregation says.
pub struct ResultView {
    pub statuses: Seq<StatusView>,
    pub passed: bool,
    pub total_violations: usize,
    pub violations_over_budget: usize,
}

/// The status of the group filed under `key`: its violations in their order,
/// their number, the budget that the store resolves for the file of the first
/// of them, and whether the number stays within the budget.
pub open spec fn expected_status(
    budgets: Budgets,
    violations: Seq<Violation>,
    key: KeyView,
) -> StatusView {
    let group = group_of(violations, key);
    let budget = resolve_budget(budgets, key.0, group[0].file@);
    StatusView {
        rule: key.0,
        region: key.1,
        actual_count: group.len() as u64,
        budget,
        passed: group.len() <= budget,
        violations: group,
    }
}

/// One status for each key that has a violation, in ascending order of key.
pub open spec fn expected_statuses(budgets: Budgets, violations: Seq<Violation>) -> Seq<
    StatusView,
> {
    let keys = sorted_keys(violation_keys(violations));
    Seq::new(keys.len(), |i: int| expected_status(budgets, violations, keys[i]))
}

/// The keys of `statuses`, in their order.
pub open spec fn status_keys(statuses: Seq<StatusView>) -> Seq<KeyView> {
    Seq::new(statuses.len(), |i: int| (statuses[i].rule, statuses[i].region))
}

/// By how much the groups that fail exceed their budgets, in sum.
pub open spec fn excess(statuses: Seq<StatusView>) -> nat
    decreases statuses.len(),
{
    if statuses.len() == 0 {
        0
    } else {
        let last = statuses.last();
        let over: nat = if last.actual_count > last.budget {
            (last.actual_count - last.budget) as nat
        } else {
            0
        };
        excess(statuses.drop_last()) + over
    }
}

/// The sum of the counts of `statuses`.
pub open spec fn counted(statuses: Seq<StatusView>) -> nat
    decreases statuses.len(),
{
    if statuses.len() == 0 {
        0
    } else {
        counted(statuses.drop_last()) + statuses.last().actual_count as nat
    }
}

/// Whether every status passed.
pub open spec fn all_passed(statuses: Seq<StatusView>) -> bool {
    forall|i: int| 0 <= i < statuses.len() ==> (#[trigger] statuses[i]).passed
}

/// The report on `violations` against `budgets`.
pub open spec fn aggregation(budgets: Budgets, violations: Seq<Violation>) -> ResultView {
    let statuses = expected_statuses(budgets, violations);
    ResultView {
        statuses,
        passed: all_passed(statuses),
        total_violations: violations.len() as usize,
        violations_over_budget: excess(statuses) as usize,
    }
}

/// Whether the parts of `result` agree: a status passed where its count stays
/// within its budget, the whole passed where every status did, the counts sum
/// to the total, and the excess is that of the statuses.
pub open spec fn coherent(result: ResultView) -> bool {
    &&& forall|i: int|
        0 <= i < result.statuses.len() ==> (#[trigger] result.statuses[i]).passed == (
        result.statuses[i].actual_count <= result.statuses[i].budget)
    &&& result.passed == all_passed(result.statuses)
    &&& counted(result.statuses) == result.total_violations
    &&& excess(result.statuses) == result.violations_over_budget
}

/// The status of one rule in one region.
#[derive(Debug, Clone, PartialEq, Eq)]
pub struct RuleRegionStatus {
    pub rule_id: RuleId,
    pub region: RegionPath,
    pub actual_count: u64,
    pub budget: u64,
    pub passed: bool,
    pub violations: Vec<Violation>,
}

impl View for RuleRegionStatus {
    type V = StatusView;

    open spec fn view(&self) -> StatusView {
        StatusView {
            rule: self.rule_id@,
            region: self.region@,
            actual_count: self.actual_count,
            budget: self.budget,
            passed: self.passed,
            violations: self.violations@,
        }
    }
}

/// The statuses of `statuses`, each by its view.
pub open spec fn status_views(statuses: Seq<RuleRegionStatus>) -> Seq<StatusView> {
    Seq::new(statuses.len(), |i: int| statuses[i]@)
}

/// The result of aggregating violations against budgets.
#[derive(Debug, Clone, PartialEq, Eq)]
pub struct AggregationResult {
    /// One status for each rule and region that has a violation.
    pub statuses: Vec<RuleRegionStatus>,
    /// Whether every status passed.
    pub passed: bool,
    /// The number of violations.
    pub total_violations: usize,
    /// By how much the failing statuses exceed their budgets, in sum.
    pub violations_over_budget: usize,
}

impl View for AggregationResult {
    type V = ResultView;

    open spec fn view(&self) -> ResultView {
        ResultView {
            statuses: status_views(self.statuses@),
            passed: self.passed,
            total_violations: self.total_violations,
            violations_over_budget: self.violations_over_budget,
        }
    }
}

/// Adding a violation at the end extends the group of its key and leaves the
/// other groups as they are.
pub proof fn lemma_group_of_push(violations: Seq<Violation>, violation: Violation, key: KeyView)
    ensures
        group_of(violations.push(violation), key) == if violation.key() == key {
            group_of(violations, key).push(violation)
        } else {
            group_of(violations, key)
        },
{
    assert(violations.push(violation).drop_last() =~= violations);
}

/// A key under which nothing is filed has an empty group.
pub proof fn lemma_group_of_absent(violations: Seq<Violation>, key: KeyView)
    requires
        !violation_keys(violations).contains(key),
    ensures
        group_of(violations, key) == Seq::<Violation>::empty(),
    decreases violations.len(),
{
    if violations.len() > 0 {
        let shorter = violations.drop_last();
        assert(violations[violations.len() - 1].key() != key);
        assert(!violation_keys(shorter).contains(key)) by {
            if violation_keys(shorter).contains(key) {
                let i = choose|i: int| 0 <= i < shorter.len() && shorter[i].key() == key;
                assert(violations[i].key() == key);
            }
        }
        lemma_group_of_absent(shorter, key);
    }
}

/// The sum of `lens`.
pub open spec fn sum(lens: Seq<nat>) -> nat
    decreases lens.len(),
{
    if lens.len() == 0 {
        0
    } else {
        sum(lens.drop_last()) + lens.last()
    }
}

/// Putting a number into a list adds it to the sum.
pub proof fn lemma_sum_insert(lens: Seq<nat>, place: int, len: nat)
    requires
        0 <= place <= lens.len(),
    ensures
        sum(lens.insert(place, len)) == sum(lens) + len,
    decreases lens.len(),
{
    let out = lens.insert(place, len);
    if place == lens.len() {
        assert(out.drop_last() =~= lens);
    } else {
        assert(out.drop_last() =~= lens.drop_last().insert(place, len));
        lemma_sum_insert(lens.drop_last(), place, len);
    }
}

/// Replacing a number in a list changes the sum by the difference.
pub proof fn lemma_sum_update(lens: Seq<nat>, place: int, len: nat)
    requires
        0 <= place < lens.len(),
    ensures
        sum(lens.update(place, len)) + lens[place] == sum(lens) + len,
    decreases lens.len(),
{
    let out = lens.update(place, len);
    if place == lens.len() - 1 {
        assert(out.drop_last() =~= lens.drop_last());
    } else {
        assert(out.drop_last() =~= lens.drop_last().update(place, len));
        lemma_sum_update(lens.drop_last(), place, len);
    }
}

/// The sum of a prefix does not exceed the sum of the whole.
pub proof fn lemma_sum_prefix(lens: Seq<nat>, n: int)
    requires
        0 <= n <= lens.len(),
    ensures
        sum(lens.take(n)) <= sum(lens),
    decreases lens.len() - n,
{
    if n == lens.len() {
        assert(lens.take(n) =~= lens);
    } else {
        lemma_sum_prefix(lens, n + 1);
        assert(lens.take(n + 1).drop_last() =~= lens.take(n));
    }
}

/// The violations gathered so far under one key, with the budget resolved when
/// the first of them came.
struct Group {
    rule_id: RuleId,
    region: RegionPath,
    budget: u64,
    violations: Vec<Violation>,
}

/// Whether `entry` holds the group of its key among `seen`, with the budget of
/// the group's first violation.
spec fn is_group(entry: Entry<Group>, seen: Seq<Violation>, budgets: Budgets) -> bool {
    &&& entry.value.rule_id@ == entry.rule@
    &&& entry.value.region@ == entry.region@
    &&& entry.value.violations@ == group_of(seen, entry.key())
    &&& entry.value.violations@.len() > 0
    &&& entry.value.budget == resolve_budget(
        budgets,
        entry.rule@,
        entry.value.violations@[0].file@,
    )
}

/// The sizes of the groups of `groups`.
spec fn group_lens(groups: Seq<Entry<Group>>) -> Seq<nat> {
    Seq::new(groups.len(), |i: int| groups[i].value.violations@.len())
}

/// Whether `groups` holds the groups of `seen`: one for each key that has a
/// violation, in ascending order of key.
spec fn are_groups(groups: Seq<Entry<Group>>, seen: Seq<Violation>, budgets: Budgets) -> bool {
    &&& lists_keys(entry_keys(groups), violation_keys(seen))
    &&& forall|g: int| 0 <= g < groups.len() ==> is_group(#[trigger] groups[g], seen, budgets)
    &&& sum(group_lens(groups)) == seen.len()
}

/// Files `violation` into the group of its key, opening the group where it is
/// the first of its key.
fn file_violation(
    groups: &mut Vec<Entry<Group>>,
    counts: &CountsManager,
    violation: Violation,
    Ghost(seen): Ghost<Seq<Violation>>,
)
    requires
        are_groups(old(groups)@, seen, counts@),
    ensures
        are_groups(final(groups)@, seen.push(violation), counts@),
{
    let rule = chars_of(violation.rule_id.as_str());
    let region = chars_of(violation.region.as_str());
    let ghost key = violation.key();
    let ghost before = groups@;
    let ghost now = seen.push(violation);
    let (found, place) = find_key(groups, &rule, &region);
    proof {
        assert forall|k: KeyView|
            violation_keys(now).contains(k) <==> (k == key || violation_keys(seen).contains(
                k,
            )) by {
            if violation_keys(now).contains(k) {
                let i = choose|i: int| 0 <= i < now.len() && now[i].key() == k;
                if i < seen.len() {
                    assert(seen[i].key() == k);
                }
            }
            if violation_keys(seen).contains(k) {
                let i = choose|i: int| 0 <= i < seen.len() && seen[i].key() == k;
                assert(now[i].key() == k);
            }
            if k == key {
                assert(now[seen.len() as int].key() == k);
            }
        }
    }
    if found {
        groups[place].value.violations.push(violation);
        proof {
            let after = groups@;
            assert(entry_keys(after) =~= entry_keys(before));
            assert(entry_keys(before)[place as int] == key);
            assert(entry_keys(before).contains(key));
            assert forall|g: int| 0 <= g < after.len() implies is_group(
                #[trigger] after[g],
                now,
                counts@,
            ) by {
                assert(is_group(before[g], seen, counts@));
                lemma_group_of_push(seen, violation, after[g].key());
                if g != place {
                    assert(after[g] == before[g]);
                    if before[g].key() == key {
                        assert(entry_keys(before)[g] == entry_keys(before)[place as int]);
                        crate::keys::lemma_ascending_distinct(
                            entry_keys(before),
                            g,
                            place as int,
                        );
                    }
                }
            }
            let len = after[place as int].value.violations@.len();
            assert(group_lens(after) =~= group_lens(before).update(place as int, len));
            lemma_sum_update(group_lens(before), place as int, len);
        }
    } else {
        let budget = counts.get_budget(&violation.rule_id, violation.file.as_str());
        let rule_id = violation.rule_id.clone();
        let region_path = violation.region.clone();
        let mut violations: Vec<Violation> = Vec::new();
        violations.push(violation);
        let entry = Entry {
            rule,
            region,
            value: Group { rule_id, region: region_path, budget, violations },
        };
        proof {
            lemma_insert_map(before, entry, place as int);
            lemma_group_of_absent(seen, key);
            lemma_group_of_push(seen, violation, key);
            assert(entry.value.violations@ =~= seq![violation]);
            assert(group_of(now, key) =~= seq![violation]);
        }
        groups.insert(place, entry);
        proof {
            let after = groups@;
            let keys = entry_keys(before);
            let out = entry_keys(after);
            assert(out == keys.insert(place as int, key));
            assert forall|k: KeyView| out.contains(k) <==> violation_keys(now).contains(k) by {
                if out.contains(k) {
                    let i = choose|i: int| 0 <= i < out.len() && out[i] == k;
                    if i < place {
                        assert(keys[i] == k);
                    } else if i > place {
                        assert(keys[i - 1] == k);
                    }
                }
                if keys.contains(k) {
                    let i = choose|i: int| 0 <= i < keys.len() && keys[i] == k;
                    let i1 = if i < place { i } else { i + 1 };
                    assert(out[i1] == k);
                }
                if k == key {
                    assert(out[place as int] == k);
                }
            }
            assert forall|g: int| 0 <= g < after.len() implies is_group(
                #[trigger] after[g],
                now,
                counts@,
            ) by {
                if g != place {
                    let g0 = if g < place { g } else { g - 1 };
                    assert(after[g] == before[g0]);
                    assert(is_group(before[g0], seen, counts@));
                    assert(keys[g0] == before[g0].key());
                    assert(keys.contains(before[g0].key()));
                    lemma_group_of_push(seen, violation, before[g0].key());
                }
            }
            assert(group_lens(after) =~= group_lens(before).insert(place as int, 1nat));
            lemma_sum_insert(group_lens(before), place as int, 1nat);
        }
    }
}

/// Compares violations with the budgets of a store.
pub struct ViolationAggregator {
    counts: CountsManager,
}

impl View for ViolationAggregator {
    type V = Budgets;

    closed spec fn view(&self) -> Budgets {
        self.counts@
    }
}

impl ViolationAggregator {
    /// An aggregator that compares with the budgets of `counts`.
    pub fn new(counts: CountsManager) -> (r: Self)
        ensures
            r@ == counts@,
    {
        ViolationAggregator { counts }
    }

    /// Whether all of `violations` that share a rule and a region lie in files
    /// with the same budget, so that the budget of a group does not depend on
    /// which of its violations comes first.
    pub fn budgets_agree(&self, violations: &Vec<Violation>) -> (r: bool)
        ensures
            r == uniform(self@, violations@),
    {
        let mut seen: Vec<Entry<u64>> = Vec::new();
        let mut i: usize = 0;
        while i < violations.len()
            invariant
                i <= violations.len(),
                ascending(entry_keys(seen@)),
                forall|j: int|
                    0 <= j < i ==> entry_map(seen@).dom().contains(
                        (#[trigger] violations@[j]).key(),
                    ) && entry_map(seen@)[violations@[j].key()] == resolve_budget(
                        self.counts@,
                        violations@[j].rule_id@,
                        violations@[j].file@,
                    ),
                forall|k: KeyView|
                    entry_keys(seen@).contains(k) ==> exists|j: int|
                        0 <= j < i && (#[trigger] violations@[j]).key() == k,
            decreases violations.len() - i,
        {
            let violation = &violations[i];
            let budget = self.counts.get_budget(&violation.rule_id, violation.file.as_str());
            let rule = chars_of(violation.rule_id.as_str());
            let region = chars_of(violation.region.as_str());
            let (found, place) = find_key(&seen, &rule, &region);
            if found {
                proof {
                    crate::keys::lemma_entry_map_at(seen@, place as int);
                }
                if seen[place].value != budget {
                    proof {
                        let k = violation.key();
                        let j = choose|j: int| 0 <= j < i && (#[trigger] violations@[j]).key() == k;
                        assert(violations@[j].key() == violations@[i as int].key());
                    }
                    return false;
                }
            } else {
                let ghost before = seen@;
                put(&mut seen, rule, region, budget);
                proof {
                    assert forall|k: KeyView| entry_keys(seen@).contains(k) implies exists|j: int|
                        0 <= j < i + 1 && (#[trigger] violations@[j]).key() == k by {
                        if k == violation.key() {
                            assert(violations@[i as int].key() == k);
                        } else {
                            assert(entry_keys(before).contains(k));
                            let j = choose|j: int|
                                0 <= j < i && (#[trigger] violations@[j]).key() == k;
                            assert(violations@[j].key() == k);
                        }
                    }
                }
            }
            i += 1;
        }
        true
    }

    /// Groups `violations` by rule and region and compares each group with its
    /// budget.
    ///
    /// The region of a violation is taken as it is given. The budget of a group
    /// is the one that the store resolves for the file of the group's first
    /// violation. The statuses come in ascending order of rule and region, one
    /// for each rule and region that has a violation, and no other.
    pub fn aggregate(&self, violations: Vec<Violation>) -> (result: AggregationResult)
        ensures
            result@ == aggregation(self@, violations@),
            lists_keys(status_keys(result@.statuses), violation_keys(violations@)),
            coherent(result@),
    {
        let total_violations: usize = violations.len();
        let mut groups: Vec<Entry<Group>> = Vec::new();
        proof {
            assert(violations@.take(0) =~= Seq::<Violation>::empty());
            assert(group_lens(groups@) =~= Seq::<nat>::empty());
        }
        for violation in iter: violations
            invariant
                iter.seq() == violations@,
                are_groups(groups@, violations@.take(iter.index() as int), self.counts@),
        {
            proof {
                assert(violations@.take(iter.index() + 1) =~= violations@.take(
                    iter.index() as int,
                ).push(violation));
            }
            file_violation(
                &mut groups,
                &self.counts,
                violation,
                Ghost(violations@.take(iter.index() as int)),
            );
        }
        proof {
            assert(violations@.take(violations@.len() as int) =~= violations@);
            lemma_sorted_keys(entry_keys(groups@), violation_keys(violations@));
        }
        let ghost keys = entry_keys(groups@);
        let ghost lens = group_lens(groups@);
        let mut statuses: Vec<RuleRegionStatus> = Vec::new();
        let mut all: bool = true;
        let mut over: usize = 0;
        for entry in iter: groups
            invariant
                iter.seq() == groups@,
                keys == entry_keys(groups@),
                lens == group_lens(groups@),
                are_groups(groups@, violations@, self.counts@),
                sum(lens) == violations@.len(),
                violations@.len() == total_violations,
                statuses@.len() == iter.index(),
                forall|j: int|
                    0 <= j < statuses@.len() ==> (#[trigger] statuses@[j])@ == expected_status(
                        self.counts@,
                        violations@,
                        keys[j],
                    ),
                forall|j: int|
                    0 <= j < statuses@.len() ==> (#[trigger] statuses@[j]).passed == (
                    statuses@[j].actual_count <= statuses@[j].budget),
                all == all_passed(status_views(statuses@)),
                over == excess(status_views(statuses@)),
                over <= sum(lens.take(iter.index() as int)),
                counted(status_views(statuses@)) == sum(lens.take(iter.index() as int)),
        {
            let ghost index = iter.index() as int;
            proof {
                assert(is_group(groups@[index], violations@, self.counts@));
                lemma_sum_prefix(lens, index + 1);
                assert(lens.take(index + 1).drop_last() =~= lens.take(index));
            }
            let group = entry.value;
            let actual_count = group.violations.len() as u64;
            let passed = actual_count <= group.budget;
            if !passed {
                all = false;
                over = over + (actual_count - group.budget) as usize;
            }
            let ghost before = status_views(statuses@);
            let status = RuleRegionStatus {
                rule_id: group.rule_id,
                region: group.region,
                actual_count,
                budget: group.budget,
                passed,
                violations: group.violations,
            };
            statuses.push(status);
            proof {
                let after = status_views(statuses@);
                assert(after =~= before.push(status@));
                assert(after.drop_last() =~= before);
                assert(all_passed(after) == (all_passed(before) && passed)) by {
                    if all_passed(before) && passed {
                        assert forall|i: int| 0 <= i < after.len() implies (
                        #[trigger] after[i]).passed by {
                            if i < before.len() {
                                assert(after[i] == before[i]);
                            }
                        }
                    }
                    if all_passed(after) {
                        assert(after[before.len() as int].passed);
                        assert forall|i: int| 0 <= i < before.len() implies (
                        #[trigger] before[i]).passed by {
                            assert(before[i] == after[i]);
                        }
                    }
                }
            }
        }
        proof {
            assert(status_views(statuses@) =~= expected_statuses(self.counts@, violations@));
            assert(status_keys(status_views(statuses@)) =~= keys);
            assert(lens.take(lens.len() as int) =~= lens);
            assert forall|i: int| 0 <= i < statuses@.len() implies (#[trigger] status_views(
                statuses@,
            )[i]).passed == (status_views(statuses@)[i].actual_count <= status_views(
                statuses@,
            )[i].budget) by {
                assert(status_views(statuses@)[i] == statuses@[i]@);
            }
        }
        AggregationResult {
            statuses,
            passed: all,
            total_violations,
            violations_over_budget: over,
        }
    }
}

/// The group of a key holds the violations of that key, each as often as it
/// occurs.
pub proof fn lemma_group_of_counts(violations: Seq<Violation>, key: KeyView, violation: Violation)
    ensures
        group_of(violations, key).to_multiset().count(violation) == if violation.key() == key {
            violations.to_multiset().count(violation)
        } else {
            0
        },
    decreases violations.len(),
{
    broadcast use vstd::seq_lib::group_to_multiset_ensures;

    if violations.len() == 0 {
        assert(violations.to_multiset().count(violation) == 0) by {
            assert(!violations.contains(violation));
        }
        assert(!group_of(violations, key).contains(violation));
    } else {
        let shorter = violations.drop_last();
        let last = violations.last();
        lemma_group_of_counts(shorter, key, violation);
        assert(violations =~= shorter.push(last));
        assert(violations.to_multiset() =~= shorter.to_multiset().insert(last));
        if last.key() == key {
            assert(group_of(violations, key).to_multiset() =~= group_of(
                shorter,
                key,
            ).to_multiset().insert(last));
        }
    }
}

/// Whether all violations of `violations` that share a rule and a region are
/// in files with the same budget.
pub open spec fn uniform(budgets: Budgets, violations: Seq<Violation>) -> bool {
    forall|i: int, j: int|
        0 <= i < violations.len() && 0 <= j < violations.len() && (#[trigger] violations[i]).key()
            == (#[trigger] violations[j]).key() ==> resolve_budget(
            budgets,
            violations[i].rule_id@,
            violations[i].file@,
        ) == resolve_budget(budgets, violations[j].rule_id@, violations[j].file@)
}

/// Whether two reports agree in all but the order of the violations within a
/// status.
pub open spec fn same_report(a: ResultView, b: ResultView) -> bool {
    &&& a.passed == b.passed
    &&& a.total_violations == b.total_violations
    &&& a.violations_over_budget == b.violations_over_budget
    &&& a.statuses.len() == b.statuses.len()
    &&& forall|i: int|
        0 <= i < a.statuses.len() ==> {
            &&& (#[trigger] a.statuses[i]).rule == b.statuses[i].rule
            &&& a.statuses[i].region == b.statuses[i].region
            &&& a.statuses[i].actual_count == b.statuses[i].actual_count
            &&& a.statuses[i].budget == b.statuses[i].budget
            &&& a.statuses[i].passed == b.statuses[i].passed
            &&& a.statuses[i].violations.to_multiset() == b.statuses[i].violations.to_multiset()
        }
}

/// The excess and the overall outcome depend on the counts, budgets and
/// outcomes of the statuses alone.
proof fn lemma_same_sums(a: Seq<StatusView>, b: Seq<StatusView>)
    requires
        a.len() == b.len(),
        forall|i: int|
            0 <= i < a.len() ==> (#[trigger] a[i]).actual_count == b[i].actual_count && a[i].budget
                == b[i].budget && a[i].passed == b[i].passed,
    ensures
        excess(a) == excess(b),
        all_passed(a) == all_passed(b),
    decreases a.len(),
{
    if a.len() > 0 {
        assert(a[a.len() - 1].actual_count == b[a.len() - 1].actual_count);
        assert forall|i: int| 0 <= i < a.drop_last().len() implies (#[trigger] a.drop_last()[i]).actual_count
            == b.drop_last()[i].actual_count && a.drop_last()[i].budget == b.drop_last()[i].budget
            && a.drop_last()[i].passed == b.drop_last()[i].passed by {
            assert(a.drop_last()[i] == a[i]);
        }
        lemma_same_sums(a.drop_last(), b.drop_last());
    }
    if all_passed(a) {
        assert forall|i: int| 0 <= i < b.len() implies (#[trigger] b[i]).passed by {
            assert(a[i].passed);
        }
    }
    if all_passed(b) {
        assert forall|i: int| 0 <= i < a.len() implies (#[trigger] a[i]).passed by {
            assert(b[i].passed);
        }
    }
}

/// The report does not depend on the order in which the violations come, but
/// for the order of the violations within a status: where the files of every
/// rule and region have one budget, two lists that hold the same violations
/// equally often give the same statuses with the same counts, budgets and
/// outcomes, and the same totals.
pub proof fn lemma_aggregation_of_rearranged(
    budgets: Budgets,
    first: Seq<Violation>,
    second: Seq<Violation>,
)
    requires
        first.to_multiset() == second.to_multiset(),
        uniform(budgets, first),
    ensures
        same_report(aggregation(budgets, first), aggregation(budgets, second)),
{
    broadcast use vstd::seq_lib::group_to_multiset_ensures;

    first.to_multiset_ensures();
    second.to_multiset_ensures();
    assert(first.len() == second.len());
    assert forall|k: KeyView| violation_keys(first).contains(k) <==> violation_keys(
        second,
    ).contains(k) by {
        if violation_keys(first).contains(k) {
            let i = choose|i: int| 0 <= i < first.len() && first[i].key() == k;
            assert(first.contains(first[i]));
            assert(second.to_multiset().count(first[i]) > 0);
            assert(second.contains(first[i]));
            let j = choose|j: int| 0 <= j < second.len() && second[j] == first[i];
            assert(second[j].key() == k);
        }
        if violation_keys(second).contains(k) {
            let i = choose|i: int| 0 <= i < second.len() && second[i].key() == k;
            assert(second.contains(second[i]));
            assert(first.to_multiset().count(second[i]) > 0);
            assert(first.contains(second[i]));
            let j = choose|j: int| 0 <= j < first.len() && first[j] == second[i];
            assert(first[j].key() == k);
        }
    }
    assert(violation_keys(first) =~= violation_keys(second));
    let keys = sorted_keys(violation_keys(first));
    let a = expected_statuses(budgets, first);
    let b = expected_statuses(budgets, second);
    assert forall|i: int| 0 <= i < a.len() implies {
        &&& (#[trigger] a[i]).rule == b[i].rule
        &&& a[i].region == b[i].region
        &&& a[i].actual_count == b[i].actual_count
        &&& a[i].budget == b[i].budget
        &&& a[i].passed == b[i].passed
        &&& a[i].violations.to_multiset() == b[i].violations.to_multiset()
    } by {
        let k = keys[i];
        let ga = group_of(first, k);
        let gb = group_of(second, k);
        assert forall|v: Violation| ga.to_multiset().count(v) == gb.to_multiset().count(v) by {
            lemma_group_of_counts(first, k, v);
            lemma_group_of_counts(second, k, v);
        }
        assert(ga.to_multiset() =~= gb.to_multiset());
        ga.to_multiset_ensures();
        gb.to_multiset_ensures();
        assert(ga.len() == gb.len());
        if ga.len() > 0 {
            // The first of each group is a violation of `first` filed under `k`.
            assert(ga.contains(ga[0]));
            lemma_group_of_counts(first, k, ga[0]);
            assert(first.to_multiset().count(ga[0]) > 0);
            assert(first.contains(ga[0]));
            let ia = choose|ia: int| 0 <= ia < first.len() && first[ia] == ga[0];
            assert(gb.contains(gb[0]));
            lemma_group_of_counts(second, k, gb[0]);
            assert(gb.to_multiset().count(gb[0]) > 0);
            assert(first.to_multiset().count(gb[0]) > 0);
            assert(first.contains(gb[0]));
            let ib = choose|ib: int| 0 <= ib < first.len() && first[ib] == gb[0];
            assert(first[ia].key() == k && first[ib].key() == k);
        } else {
            assert(ga =~= gb);
        }
    }
    lemma_same_sums(a, b);
}

} // verus!
