//! The budget store: for each rule, the number of violations tolerated in each
//! region, and the resolution of the budget that applies to a file.
//!
//! A file inherits the budget of the nearest enclosing region that is
//! configured for the rule. A rule without any configured enclosing region has
//! budget zero: what is not configured is not tolerated.

use vstd::prelude::*;
use crate::keys::{ascending, entry_keys, entry_map, find_key, lemma_entry_map_at, put, Entry};
use crate::text::{chars_of, copy_of, KeyView};
use crate::types::{
    is_region_key, region_key, region_key_of, root_key, valid_rule_text, RegionPath, RuleId,
};

verus! {

/// What a store holds: the budget filed under each configured rule and region.
pub type Budgets = Map<KeyView, u64>;

/// The nearest region configured for `rule` among the directories that enclose
/// `path[..end]`, the root last; `None` where none of them is configured.
///
/// The directories are those that end at a separator of the path, so that
/// `src` encloses `src/x` and does not enclose `srcx/y`.
pub open spec fn nearest_region(
    budgets: Budgets,
    rule: Seq<char>,
    path: Seq<char>,
    end: int,
) -> Option<Seq<char>>
    decreases end,
{
    if end <= 0 {
        if budgets.dom().contains((rule, root_key())) {
            Some(root_key())
        } else {
            None
        }
    } else if path[end - 1] == '/' && budgets.dom().contains(
        (rule, region_key(path.take(end - 1))),
    ) {
        Some(region_key(path.take(end - 1)))
    } else {
        nearest_region(budgets, rule, path, end - 1)
    }
}

/// The budget that applies to the file at `path` for `rule`: that of the
/// nearest configured enclosing region, and zero where there is none.
pub open spec fn resolve_budget(budgets: Budgets, rule: Seq<char>, path: Seq<char>) -> u64 {
    match nearest_region(budgets, rule, path, path.len() as int) {
        Some(region) => budgets[(rule, region)],
        None => 0,
    }
}

/// Whether `key` can stand in a store: a valid rule text with a region key in
/// normal form.
pub open spec fn valid_key(key: KeyView) -> bool {
    valid_rule_text(key.0) && is_region_key(key.1)
}

/// The keys and budgets of `triples`, each rule and region by its text.
pub open spec fn listed(triples: Seq<(RuleId, RegionPath, u64)>) -> Seq<(KeyView, u64)> {
    Seq::new(triples.len(), |i: int| ((triples[i].0@, triples[i].1@), triples[i].2))
}

/// The keys of `list`, in their order.
pub open spec fn listed_keys(list: Seq<(KeyView, u64)>) -> Seq<KeyView> {
    Seq::new(list.len(), |i: int| list[i].0)
}

/// Whether `list` lists `budgets`: every key of `budgets` once, in ascending
/// order, with its budget, and nothing else.
pub open spec fn is_listing(list: Seq<(KeyView, u64)>, budgets: Budgets) -> bool {
    &&& ascending(listed_keys(list))
    &&& forall|i: int|
        0 <= i < list.len() ==> budgets.dom().contains((#[trigger] list[i]).0) && budgets[list[i].0]
            == list[i].1
    &&& forall|k: KeyView| budgets.dom().contains(k) ==> listed_keys(list).contains(k)
}

/// The store of budgets, by rule and region.
#[derive(Debug)]
pub struct CountsManager {
    entries: Vec<Entry<u64>>,
}

impl View for CountsManager {
    type V = Budgets;

    closed spec fn view(&self) -> Budgets {
        entry_map(self.entries@)
    }
}

impl CountsManager {
    #[verifier::type_invariant]
    spec fn well_formed(&self) -> bool {
        &&& ascending(entry_keys(self.entries@))
        &&& forall|i: int|
            0 <= i < self.entries@.len() ==> valid_key(#[trigger] entry_keys(self.entries@)[i])
    }

    /// The store that holds no budget.
    pub fn new() -> (r: CountsManager)
        ensures
            r@ == Map::<KeyView, u64>::empty(),
    {
        let r = CountsManager { entries: Vec::new() };
        assert(r@ =~= Map::<KeyView, u64>::empty());
        r
    }

    /// Sets the budget of `rule` in `region` to `count`, whether or not one was
    /// set before.
    pub fn set_count(&mut self, rule: &RuleId, region: &RegionPath, count: u64)
        ensures
            final(self)@ == old(self)@.insert((rule@, region@), count),
    {
        proof {
            use_type_invariant(&*self);
        }
        let rule_chars = chars_of(rule.as_str());
        let region_chars = chars_of(region.as_str());
        let ghost before = self.entries@;
        let mut entries: Vec<Entry<u64>> = Vec::new();
        core::mem::swap(&mut self.entries, &mut entries);
        put(&mut entries, rule_chars, region_chars, count);
        proof {
            let after = entries@;
            assert forall|i: int| 0 <= i < after.len() implies valid_key(
                #[trigger] entry_keys(after)[i],
            ) by {
                let k = entry_keys(after)[i];
                assert(entry_keys(after).contains(k));
                if k != (rule@, region@) {
                    let j = choose|j: int|
                        0 <= j < entry_keys(before).len() && entry_keys(before)[j] == k;
                    assert(valid_key(entry_keys(before)[j]));
                }
            }
        }
        core::mem::swap(&mut self.entries, &mut entries);
    }

    /// The budget set for exactly `rule` and `region`, if one is set.
    pub fn get_count(&self, rule: &RuleId, region: &RegionPath) -> (r: Option<u64>)
        ensures
            r is Some <==> self@.dom().contains((rule@, region@)),
            r matches Some(count) ==> count == self@[(rule@, region@)],
    {
        let rule_chars = chars_of(rule.as_str());
        let region_chars = chars_of(region.as_str());
        self.count_at(&rule_chars, &region_chars)
    }

    /// The budget set for exactly the rule and region with these characters.
    pub(crate) fn count_at(&self, rule: &Vec<char>, region: &Vec<char>) -> (r: Option<u64>)
        ensures
            r is Some <==> self@.dom().contains((rule@, region@)),
            r matches Some(count) ==> count == self@[(rule@, region@)],
    {
        proof {
            use_type_invariant(self);
        }
        let (found, place) = find_key(&self.entries, rule, region);
        if found {
            proof {
                lemma_entry_map_at(self.entries@, place as int);
            }
            Some(self.entries[place].value)
        } else {
            None
        }
    }

    /// The budget that applies to the file at `file` for `rule`.
    ///
    /// Each enclosing directory is looked up once, so a call takes a number of
    /// lookups that grows with the depth of the path, not with the size of the
    /// store.
    pub fn get_budget(&self, rule: &RuleId, file: &str) -> (budget: u64)
        ensures
            budget == resolve_budget(self@, rule@, file@),
    {
        let rule_chars = chars_of(rule.as_str());
        let path = chars_of(file);
        let mut end: usize = path.len();
        while end > 0
            invariant
                end <= path.len(),
                path@ == file@,
                rule_chars@ == rule@,
                nearest_region(self@, rule@, file@, file@.len() as int) == nearest_region(
                    self@,
                    rule@,
                    file@,
                    end as int,
                ),
            decreases end,
        {
            if path[end - 1] == '/' {
                let candidate = region_key_of(&path, end - 1);
                match self.count_at(&rule_chars, &candidate) {
                    Some(count) => {
                        return count;
                    },
                    None => {},
                }
            }
            end -= 1;
        }
        let mut root: Vec<char> = Vec::new();
        root.push('.');
        assert(root@ =~= root_key());
        match self.count_at(&rule_chars, &root) {
            Some(count) => count,
            None => 0,
        }
    }

    /// Every budget of the store with its rule and region, in ascending order
    /// of rule text and then region text.
    pub fn entries(&self) -> (r: Vec<(RuleId, RegionPath, u64)>)
        ensures
            is_listing(listed(r@), self@),
    {
        proof {
            use_type_invariant(self);
        }
        let mut out: Vec<(RuleId, RegionPath, u64)> = Vec::new();
        let mut i: usize = 0;
        while i < self.entries.len()
            invariant
                i <= self.entries.len(),
                out@.len() == i,
                ascending(entry_keys(self.entries@)),
                forall|j: int|
                    0 <= j < self.entries@.len() ==> valid_key(
                        #[trigger] entry_keys(self.entries@)[j],
                    ),
                forall|j: int|
                    0 <= j < i ==> {
                        &&& (#[trigger] out@[j]).0@ == self.entries@[j].rule@
                        &&& out@[j].1@ == self.entries@[j].region@
                        &&& out@[j].2 == self.entries@[j].value
                    },
            decreases self.entries.len() - i,
        {
            let entry = &self.entries[i];
            assert(valid_key(entry_keys(self.entries@)[i as int]));
            let rule = RuleId::from_chars(&entry.rule);
            let region = RegionPath::from_chars(&entry.region);
            out.push((rule, region, entry.value));
            i += 1;
        }
        proof {
            let list = listed(out@);
            let keys = entry_keys(self.entries@);
            assert(listed_keys(list) =~= keys);
            assert forall|j: int| 0 <= j < list.len() implies self@.dom().contains(
                (#[trigger] list[j]).0,
            ) && self@[list[j].0] == list[j].1 by {
                lemma_entry_map_at(self.entries@, j);
            }
            assert forall|k: KeyView| self@.dom().contains(k) implies listed_keys(list).contains(
                k,
            ) by {}
        }
        out
    }

    /// The number of budgets that the store holds.
    pub fn len(&self) -> (n: usize)
        ensures
            n == self@.dom().len(),
            self@.dom().finite(),
    {
        proof {
            use_type_invariant(self);
            lemma_entry_map_len(self.entries@);
        }
        self.entries.len()
    }
}

impl Default for CountsManager {
    fn default() -> (r: Self)
        ensures
            r@ == Map::<KeyView, u64>::empty(),
    {
        CountsManager::new()
    }
}

impl Clone for CountsManager {
    fn clone(&self) -> (r: Self)
        ensures
            r@ == self@,
    {
        proof {
            use_type_invariant(self);
        }
        let mut entries: Vec<Entry<u64>> = Vec::new();
        let mut i: usize = 0;
        while i < self.entries.len()
            invariant
                i <= self.entries.len(),
                entries@.len() == i,
                forall|j: int|
                    0 <= j < i ==> (#[trigger] entries@[j]).key() == self.entries@[j].key()
                        && entries@[j].value == self.entries@[j].value,
            decreases self.entries.len() - i,
        {
            let entry = &self.entries[i];
            entries.push(
                Entry {
                    rule: copy_of(&entry.rule),
                    region: copy_of(&entry.region),
                    value: entry.value,
                },
            );
            i += 1;
        }
        proof {
            assert(entry_keys(entries@) =~= entry_keys(self.entries@));
            assert forall|k: KeyView| entry_map(entries@).dom().contains(k) implies entry_map(
                entries@,
            )[k] == entry_map(self.entries@)[k] by {
                let j = entry_keys(entries@).index_of(k);
                assert(entry_keys(entries@)[j] == k);
            }
            assert(entry_map(entries@) =~= entry_map(self.entries@));
        }
        CountsManager { entries }
    }
}

/// An ascending list holds as many keys as it has entries.
pub proof fn lemma_entry_map_len<V>(entries: Seq<Entry<V>>)
    requires
        ascending(entry_keys(entries)),
    ensures
        entry_map(entries).dom().finite(),
        entry_map(entries).dom().len() == entries.len(),
    decreases entries.len(),
{
    let keys = entry_keys(entries);
    if entries.len() == 0 {
        assert(entry_map(entries).dom() =~= Set::<KeyView>::empty());
    } else {
        let shorter = entries.drop_last();
        let last = entries.last();
        assert(entry_keys(shorter) =~= keys.drop_last());
        assert(ascending(entry_keys(shorter))) by {
            assert forall|i: int, j: int| 0 <= i < j < shorter.len() implies crate::text::key_less(
                #[trigger] entry_keys(shorter)[i],
                #[trigger] entry_keys(shorter)[j],
            ) by {
                assert(crate::text::key_less(keys[i], keys[j]));
            }
        }
        lemma_entry_map_len(shorter);
        assert(!entry_keys(shorter).contains(last.key())) by {
            if entry_keys(shorter).contains(last.key()) {
                let i = choose|i: int|
                    0 <= i < shorter.len() && entry_keys(shorter)[i] == last.key();
                assert(keys[i] == keys[entries.len() - 1]);
                crate::keys::lemma_ascending_distinct(keys, i, entries.len() - 1);
            }
        }
        assert(entry_map(entries).dom() =~= entry_map(shorter).dom().insert(last.key())) by {
            assert forall|k: KeyView|
                entry_map(entries).dom().contains(k) <==> entry_map(shorter).dom().insert(
                    last.key(),
                ).contains(k) by {
                if keys.contains(k) {
                    let i = choose|i: int| 0 <= i < keys.len() && keys[i] == k;
                    if i < shorter.len() {
                        assert(entry_keys(shorter)[i] == k);
                    }
                }
                if entry_keys(shorter).contains(k) {
                    let i = choose|i: int| 0 <= i < shorter.len() && entry_keys(shorter)[i] == k;
                    assert(keys[i] == k);
                }
                if k == last.key() {
                    assert(keys[entries.len() - 1] == k);
                }
            }
        }
    }
}

/// Whether no directory that ends at a separator of `path` from `low` up to
/// `end` is configured for `rule`.
pub open spec fn unconfigured_between(
    budgets: Budgets,
    rule: Seq<char>,
    path: Seq<char>,
    low: int,
    end: int,
) -> bool {
    forall|cut: int|
        low <= cut < end && cut < path.len() && path[cut] == '/' ==> !budgets.dom().contains(
            (rule, region_key(#[trigger] path.take(cut))),
        )
}

/// What `nearest_region` finds is configured, it stands before a separator of
/// the path or is the root, and no directory further down the path is
/// configured. Where it finds nothing, neither the root nor any directory of
/// the path is configured.
pub proof fn lemma_nearest_region(budgets: Budgets, rule: Seq<char>, path: Seq<char>, end: int)
    requires
        0 <= end <= path.len(),
    ensures
        match nearest_region(budgets, rule, path, end) {
            Some(region) => {
                &&& budgets.dom().contains((rule, region))
                &&& {
                    ||| exists|cut: int|
                        0 <= cut < end && path[cut] == '/' && region == region_key(
                            #[trigger] path.take(cut),
                        ) && unconfigured_between(budgets, rule, path, cut + 1, end)
                    ||| region == root_key() && unconfigured_between(budgets, rule, path, 0, end)
                }
            },
            None => {
                &&& !budgets.dom().contains((rule, root_key()))
                &&& unconfigured_between(budgets, rule, path, 0, end)
            },
        },
    decreases end,
{
    if end > 0 {
        let here = region_key(path.take(end - 1));
        if path[end - 1] == '/' && budgets.dom().contains((rule, here)) {
            assert(unconfigured_between(budgets, rule, path, end, end));
        } else {
            lemma_nearest_region(budgets, rule, path, end - 1);
            match nearest_region(budgets, rule, path, end - 1) {
                Some(region) => {
                    if region == root_key() && unconfigured_between(
                        budgets,
                        rule,
                        path,
                        0,
                        end - 1,
                    ) {
                        assert(unconfigured_between(budgets, rule, path, 0, end));
                    } else {
                        let cut = choose|cut: int|
                            0 <= cut < end - 1 && path[cut] == '/' && region == region_key(
                                #[trigger] path.take(cut),
                            ) && unconfigured_between(budgets, rule, path, cut + 1, end - 1);
                        assert(unconfigured_between(budgets, rule, path, cut + 1, end));
                    }
                },
                None => {
                    assert(unconfigured_between(budgets, rule, path, 0, end));
                },
            }
        }
    }
}

/// Two paths with the same nearest configured region have the same budget.
pub proof fn lemma_same_region_same_budget(
    budgets: Budgets,
    rule: Seq<char>,
    first: Seq<char>,
    second: Seq<char>,
)
    requires
        nearest_region(budgets, rule, first, first.len() as int) == nearest_region(
            budgets,
            rule,
            second,
            second.len() as int,
        ),
    ensures
        resolve_budget(budgets, rule, first) == resolve_budget(budgets, rule, second),
{
}

/// A rule that is configured in no region has budget zero at every path.
pub proof fn lemma_unconfigured_rule_has_no_budget(
    budgets: Budgets,
    rule: Seq<char>,
    path: Seq<char>,
)
    requires
        forall|region: Seq<char>| !budgets.dom().contains((rule, region)),
    ensures
        resolve_budget(budgets, rule, path) == 0,
{
    lemma_nearest_region(budgets, rule, path, path.len() as int);
}

/// The budget of a path depends on the store's contents, the rule's text and
/// the path alone: equal arguments give equal budgets.
pub proof fn lemma_budget_is_a_function(
    budgets: Budgets,
    other: Budgets,
    rule: Seq<char>,
    path: Seq<char>,
)
    requires
        budgets =~= other,
    ensures
        resolve_budget(budgets, rule, path) == resolve_budget(other, rule, path),
{
}

} // verus!
