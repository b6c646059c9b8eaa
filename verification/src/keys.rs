//! Ordered lists of keys. A budget store and an aggregation both file their
//! items under a rule and a region, and both keep the keys in ascending order,
//! so that a key occurs once and its place is found by bisection.

use vstd::prelude::*;
use crate::text::{
    chars_equal, chars_less, key_less, lemma_key_irreflexive, lemma_key_total,
    lemma_key_transitive, KeyView,
};

verus! {

/// An item filed under a rule text and a region text, both held as characters.
#[derive(Debug)]
pub struct Entry<V> {
    pub rule: Vec<char>,
    pub region: Vec<char>,
    pub value: V,
}

impl<V> Entry<V> {
    /// The key under which the item is filed.
    pub open spec fn key(&self) -> KeyView {
        (self.rule@, self.region@)
    }
}

/// The keys of `entries`, in their order.
pub open spec fn entry_keys<V>(entries: Seq<Entry<V>>) -> Seq<KeyView> {
    Seq::new(entries.len(), |i: int| entries[i].key())
}

/// What `entries` holds: each key with the value filed under it.
pub open spec fn entry_map<V>(entries: Seq<Entry<V>>) -> Map<KeyView, V> {
    Map::new(
        |k: KeyView| entry_keys(entries).contains(k),
        |k: KeyView| entries[entry_keys(entries).index_of(k)].value,
    )
}

/// In an ascending list each entry is what the map holds under its key.
pub proof fn lemma_entry_map_at<V>(entries: Seq<Entry<V>>, i: int)
    requires
        ascending(entry_keys(entries)),
        0 <= i < entries.len(),
    ensures
        entry_map(entries).dom().contains(entries[i].key()),
        entry_map(entries)[entries[i].key()] == entries[i].value,
{
    let keys = entry_keys(entries);
    assert(keys[i] == entries[i].key());
    assert(keys.contains(entries[i].key()));
    let j = keys.index_of(entries[i].key());
    lemma_ascending_distinct(keys, i, j);
}

/// Whether `keys` ascends strictly.
pub open spec fn ascending(keys: Seq<KeyView>) -> bool {
    forall|i: int, j: int| 0 <= i < j < keys.len() ==> key_less(#[trigger] keys[i], #[trigger] keys[j])
}

/// In an ascending list a key stands at one place only.
pub proof fn lemma_ascending_distinct(keys: Seq<KeyView>, i: int, j: int)
    requires
        ascending(keys),
        0 <= i < keys.len(),
        0 <= j < keys.len(),
        keys[i] == keys[j],
    ensures
        i == j,
{
    lemma_key_irreflexive(keys[i]);
    if i < j {
        assert(key_less(keys[i], keys[j]));
    } else if j < i {
        assert(key_less(keys[j], keys[i]));
    }
}

/// Two ascending lists that hold the same keys are the same list.
pub proof fn lemma_ascending_unique(a: Seq<KeyView>, b: Seq<KeyView>)
    requires
        ascending(a),
        ascending(b),
        forall|k: KeyView| a.contains(k) <==> b.contains(k),
    ensures
        a == b,
    decreases a.len(),
{
    if a.len() == 0 {
        if b.len() > 0 {
            assert(b.contains(b[0]));
            assert(a.contains(b[0]));
        }
        assert(a =~= b);
    } else if b.len() == 0 {
        assert(a.contains(a[0]));
        assert(b.contains(a[0]));
    } else {
        // The last key of each list is its greatest, so the two are equal.
        let la = a.last();
        let lb = b.last();
        assert(a.contains(la));
        assert(b.contains(lb));
        let ia = choose|i: int| 0 <= i < b.len() && b[i] == la;
        let ib = choose|i: int| 0 <= i < a.len() && a[i] == lb;
        assert(b.contains(la));
        assert(a.contains(lb));
        if ia < b.len() - 1 {
            assert(key_less(b[ia], b[b.len() - 1]));
        }
        if ib < a.len() - 1 {
            assert(key_less(a[ib], a[a.len() - 1]));
        }
        if la != lb {
            // la < lb and lb < la
            assert(key_less(la, lb));
            assert(key_less(lb, la));
            lemma_key_transitive(la, lb, la);
            lemma_key_irreflexive(la);
        }
        let a0 = a.drop_last();
        let b0 = b.drop_last();
        assert forall|k: KeyView| a0.contains(k) <==> b0.contains(k) by {
            if a0.contains(k) {
                let i = choose|i: int| 0 <= i < a0.len() && a0[i] == k;
                assert(a[i] == k);
                assert(key_less(a[i], a[a.len() - 1]));
                assert(a.contains(k));
                let j = choose|j: int| 0 <= j < b.len() && b[j] == k;
                lemma_key_irreflexive(k);
                assert(j < b.len() - 1);
                assert(b0[j] == k);
            }
            if b0.contains(k) {
                let i = choose|i: int| 0 <= i < b0.len() && b0[i] == k;
                assert(b[i] == k);
                assert(key_less(b[i], b[b.len() - 1]));
                assert(b.contains(k));
                let j = choose|j: int| 0 <= j < a.len() && a[j] == k;
                lemma_key_irreflexive(k);
                assert(j < a.len() - 1);
                assert(a0[j] == k);
            }
        }
        assert(ascending(a0)) by {
            assert forall|i: int, j: int| 0 <= i < j < a0.len() implies key_less(
                #[trigger] a0[i],
                #[trigger] a0[j],
            ) by {
                assert(key_less(a[i], a[j]));
            }
        }
        assert(ascending(b0)) by {
            assert forall|i: int, j: int| 0 <= i < j < b0.len() implies key_less(
                #[trigger] b0[i],
                #[trigger] b0[j],
            ) by {
                assert(key_less(b[i], b[j]));
            }
        }
        lemma_ascending_unique(a0, b0);
        assert(a =~= a0.push(la));
        assert(b =~= b0.push(lb));
    }
}

/// Whether the key `(rule, region)` comes strictly before `other`.
pub fn key_before<V>(rule: &Vec<char>, region: &Vec<char>, other: &Entry<V>) -> (r: bool)
    ensures
        r == key_less((rule@, region@), other.key()),
{
    if chars_less(rule, &other.rule) {
        true
    } else if chars_equal(rule, &other.rule) {
        chars_less(region, &other.region)
    } else {
        false
    }
}

/// Whether `other` comes strictly before the key `(rule, region)`.
pub fn key_after<V>(rule: &Vec<char>, region: &Vec<char>, other: &Entry<V>) -> (r: bool)
    ensures
        r == key_less(other.key(), (rule@, region@)),
{
    if chars_less(&other.rule, rule) {
        true
    } else if chars_equal(rule, &other.rule) {
        chars_less(&other.region, region)
    } else {
        false
    }
}

/// Whether `place` is where `key` stands in `keys`, or where it would have to
/// be put: the first place whose key does not come before it.
pub open spec fn is_place(keys: Seq<KeyView>, key: KeyView, place: int) -> bool {
    &&& 0 <= place <= keys.len()
    &&& forall|i: int| 0 <= i < place ==> key_less(#[trigger] keys[i], key)
    &&& forall|i: int| place <= i < keys.len() ==> !key_less(#[trigger] keys[i], key)
}

/// Finds the place of the key `(rule, region)` in an ascending list, and says
/// whether the key stands there.
pub fn find_key<V>(keys: &Vec<Entry<V>>, rule: &Vec<char>, region: &Vec<char>) -> (r: (
    bool,
    usize,
))
    requires
        ascending(entry_keys(keys@)),
    ensures
        is_place(entry_keys(keys@), (rule@, region@), r.1 as int),
        r.0 <==> entry_keys(keys@).contains((rule@, region@)),
        r.0 ==> r.1 < keys.len() && keys[r.1 as int].key() == (rule@, region@),
{
    let ghost views = entry_keys(keys@);
    let ghost key = (rule@, region@);
    let mut low: usize = 0;
    let mut high: usize = keys.len();
    while low < high
        invariant
            views == entry_keys(keys@),
            key == (rule@, region@),
            ascending(views),
            low <= high <= keys.len(),
            forall|i: int| 0 <= i < low ==> key_less(#[trigger] views[i], key),
            forall|i: int| high <= i < views.len() ==> !key_less(#[trigger] views[i], key),
        decreases high - low,
    {
        let mid: usize = low + (high - low) / 2;
        if key_after(rule, region, &keys[mid]) {
            proof {
                assert(views[mid as int] == keys[mid as int].key());
                assert forall|i: int| 0 <= i < mid + 1 implies key_less(
                    #[trigger] views[i],
                    key,
                ) by {
                    if i < mid {
                        assert(key_less(views[i], views[mid as int]));
                        lemma_key_transitive(views[i], views[mid as int], key);
                    }
                }
            }
            low = mid + 1;
        } else {
            proof {
                assert(views[mid as int] == keys[mid as int].key());
                assert forall|i: int| mid <= i < views.len() implies !key_less(
                    #[trigger] views[i],
                    key,
                ) by {
                    if mid < i && key_less(views[i], key) {
                        assert(key_less(views[mid as int], views[i]));
                        lemma_key_transitive(views[mid as int], views[i], key);
                    }
                }
            }
            high = mid;
        }
    }
    let found = low < keys.len() && !key_before(rule, region, &keys[low]);
    proof {
        if low < keys.len() {
            assert(views[low as int] == keys[low as int].key());
        }
        if found {
            lemma_key_total(key, views[low as int]);
            assert(views.contains(key));
        } else if views.contains(key) {
            let i = choose|i: int| 0 <= i < views.len() && views[i] == key;
            lemma_key_irreflexive(key);
            if i < low {
                assert(key_less(views[i], key));
            } else if i > low {
                assert(key_less(views[low as int], views[i]));
            }
        }
    }
    (found, low)
}

/// Putting a key at its place into an ascending list that lacks it leaves the
/// list ascending.
pub proof fn lemma_insert_ascending(keys: Seq<KeyView>, key: KeyView, place: int)
    requires
        ascending(keys),
        is_place(keys, key, place),
        !keys.contains(key),
    ensures
        ascending(keys.insert(place, key)),
{
    let out = keys.insert(place, key);
    assert forall|i: int, j: int| 0 <= i < j < out.len() implies key_less(
        #[trigger] out[i],
        #[trigger] out[j],
    ) by {
        if j == place {
            assert(out[i] == keys[i]);
        } else if i == place {
            assert(out[j] == keys[j - 1]);
            assert(keys.contains(keys[j - 1]));
            if !key_less(key, keys[j - 1]) {
                lemma_key_total(key, keys[j - 1]);
            }
        } else {
            let i0 = if i < place { i } else { i - 1 };
            let j0 = if j < place { j } else { j - 1 };
            assert(out[i] == keys[i0]);
            assert(out[j] == keys[j0]);
            assert(key_less(keys[i0], keys[j0]));
        }
    }
}

/// Putting a new entry at its place adds its key and value to what the list
/// holds, and changes nothing else.
pub proof fn lemma_insert_map<V>(entries: Seq<Entry<V>>, entry: Entry<V>, place: int)
    requires
        ascending(entry_keys(entries)),
        is_place(entry_keys(entries), entry.key(), place),
        !entry_keys(entries).contains(entry.key()),
    ensures
        ascending(entry_keys(entries.insert(place, entry))),
        entry_keys(entries.insert(place, entry)) == entry_keys(entries).insert(
            place,
            entry.key(),
        ),
        entry_map(entries.insert(place, entry)) == entry_map(entries).insert(
            entry.key(),
            entry.value,
        ),
{
    let out = entries.insert(place, entry);
    let keys = entry_keys(entries);
    assert(entry_keys(out) =~= keys.insert(place, entry.key()));
    lemma_insert_ascending(keys, entry.key(), place);
    let expected = entry_map(entries).insert(entry.key(), entry.value);
    assert forall|k: KeyView| entry_map(out).dom().contains(k) <==> expected.dom().contains(
        k,
    ) by {
        if entry_keys(out).contains(k) {
            let i = choose|i: int| 0 <= i < out.len() && entry_keys(out)[i] == k;
            if i < place {
                assert(keys[i] == k);
            } else if i > place {
                assert(keys[i - 1] == k);
            }
        }
        if keys.contains(k) {
            let i = choose|i: int| 0 <= i < keys.len() && keys[i] == k;
            let i1 = if i < place { i } else { i + 1 };
            assert(entry_keys(out)[i1] == k);
        }
        if k == entry.key() {
            assert(entry_keys(out)[place] == k);
        }
    }
    assert forall|k: KeyView| entry_map(out).dom().contains(k) implies entry_map(out)[k]
        == expected[k] by {
        assert(entry_keys(out).contains(k));
        let i = choose|i: int| 0 <= i < out.len() && entry_keys(out)[i] == k;
        lemma_entry_map_at(out, i);
        if i < place {
            lemma_entry_map_at(entries, i);
        } else if i > place {
            lemma_entry_map_at(entries, i - 1);
            assert(keys.contains(entries[i - 1].key())) by {
                assert(keys[i - 1] == entries[i - 1].key());
            }
        }
    }
    assert(entry_map(out) =~= expected);
}

/// Replacing the value of an entry changes the value under its key, and
/// nothing else.
pub proof fn lemma_update_map<V>(entries: Seq<Entry<V>>, entry: Entry<V>, place: int)
    requires
        ascending(entry_keys(entries)),
        0 <= place < entries.len(),
        entries[place].key() == entry.key(),
    ensures
        entry_keys(entries.update(place, entry)) == entry_keys(entries),
        entry_map(entries.update(place, entry)) == entry_map(entries).insert(
            entry.key(),
            entry.value,
        ),
{
    let out = entries.update(place, entry);
    let keys = entry_keys(entries);
    assert(entry_keys(out) =~= keys);
    let expected = entry_map(entries).insert(entry.key(), entry.value);
    assert(keys[place] == entry.key());
    assert forall|k: KeyView| entry_map(out).dom().contains(k) implies entry_map(out)[k]
        == expected[k] by {
        assert(entry_keys(out).contains(k));
        let i = choose|i: int| 0 <= i < out.len() && entry_keys(out)[i] == k;
        lemma_entry_map_at(out, i);
        lemma_entry_map_at(entries, i);
        if i != place && k == entry.key() {
            lemma_ascending_distinct(keys, i, place);
        }
    }
    assert(entry_map(out) =~= expected);
}

/// Files `value` under the key `(rule, region)`: in place of the value that
/// stood there, or as a new entry at the key's place.
pub fn put<V>(entries: &mut Vec<Entry<V>>, rule: Vec<char>, region: Vec<char>, value: V)
    requires
        ascending(entry_keys(old(entries)@)),
    ensures
        ascending(entry_keys(final(entries)@)),
        entry_map(final(entries)@) == entry_map(old(entries)@).insert((rule@, region@), value),
        forall|k: KeyView|
            entry_keys(final(entries)@).contains(k) <==> (k == (rule@, region@) || entry_keys(
                old(entries)@,
            ).contains(k)),
{
    let (found, place) = find_key(entries, &rule, &region);
    let entry = Entry { rule, region, value };
    let ghost before = entries@;
    if found {
        proof {
            lemma_update_map(before, entry, place as int);
        }
        entries.set(place, entry);
        proof {
            assert(entry_keys(before)[place as int] == entry.key());
        }
    } else {
        proof {
            lemma_insert_map(before, entry, place as int);
        }
        entries.insert(place, entry);
        proof {
            let keys = entry_keys(before);
            let out = keys.insert(place as int, entry.key());
            assert forall|k: KeyView| out.contains(k) <==> (k == entry.key() || keys.contains(
                k,
            )) by {
                if out.contains(k) {
                    let i = choose|i: int| 0 <= i < out.len() && out[i] == k;
                    if i < place {
                        assert(keys[i] == k);
                    } else if i > place {
                        assert(keys[i - 1] == k);
                    }
                }
                if keys.contains(k) {
                    let i = choose|i: int| 0 <= i < keys.len() && keys[i] == k;
                    let i1 = if i < place { i } else { i + 1 };
                    assert(out[i1] == k);
                }
                if k == entry.key() {
                    assert(out[place as int] == k);
                }
            }
        }
    }
}

/// Whether `list` holds exactly the keys of `keys`, in ascending order.
pub open spec fn lists_keys(list: Seq<KeyView>, keys: Set<KeyView>) -> bool {
    ascending(list) && forall|k: KeyView| list.contains(k) <==> keys.contains(k)
}

/// The keys of `keys` in ascending order.
pub open spec fn sorted_keys(keys: Set<KeyView>) -> Seq<KeyView> {
    choose|list: Seq<KeyView>| lists_keys(list, keys)
}

/// A set of keys has at most one ascending list, which `sorted_keys` names.
pub proof fn lemma_sorted_keys(list: Seq<KeyView>, keys: Set<KeyView>)
    requires
        lists_keys(list, keys),
    ensures
        sorted_keys(keys) == list,
{
    lemma_ascending_unique(sorted_keys(keys), list);
}

} // verus!
