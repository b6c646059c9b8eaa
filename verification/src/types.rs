//! Validated identifiers: rule identifiers, region paths and source languages.

use vstd::prelude::*;
use crate::text::{chars_of, string_of};

verus! {

/// Whether `c` may occur in a rule identifier: an ASCII letter, an ASCII digit,
/// a hyphen or an underscore.
pub open spec fn is_rule_char(c: char) -> bool {
    ('a' <= c && c <= 'z') || ('A' <= c && c <= 'Z') || ('0' <= c && c <= '9') || c == '-' || c
        == '_'
}

/// Whether `text` is accepted as a rule identifier: not empty, and made of rule
/// characters only.
pub open spec fn valid_rule_text(text: Seq<char>) -> bool {
    text.len() > 0 && forall|i: int| 0 <= i < text.len() ==> is_rule_char(#[trigger] text[i])
}

/// `text` without the separators at its end.
pub open spec fn strip_trailing_separators(text: Seq<char>) -> Seq<char>
    decreases text.len(),
{
    if text.len() > 0 && text.last() == '/' {
        strip_trailing_separators(text.drop_last())
    } else {
        text
    }
}

/// The root region.
pub open spec fn root_key() -> Seq<char> {
    seq!['.']
}

/// The region key that `text` denotes: `text` without trailing separators, and
/// the root where nothing is left.
pub open spec fn region_key(text: Seq<char>) -> Seq<char> {
    let stripped = strip_trailing_separators(text);
    if stripped.len() == 0 {
        root_key()
    } else {
        stripped
    }
}

/// Whether `text` is a region key in normal form: not empty and without a
/// separator at its end.
pub open spec fn is_region_key(text: Seq<char>) -> bool {
    text.len() > 0 && text.last() != '/'
}

/// `strip_trailing_separators` yields a prefix that ends in no separator.
pub proof fn lemma_strip_trailing(text: Seq<char>)
    ensures
        strip_trailing_separators(text).len() <= text.len(),
        strip_trailing_separators(text) == text.take(
            strip_trailing_separators(text).len() as int,
        ),
        strip_trailing_separators(text).len() > 0 ==> strip_trailing_separators(text).last()
            != '/',
        forall|i: int|
            strip_trailing_separators(text).len() <= i < text.len() ==> #[trigger] text[i] == '/',
    decreases text.len(),
{
    if text.len() > 0 && text.last() == '/' {
        let shorter = text.drop_last();
        lemma_strip_trailing(shorter);
        let n = strip_trailing_separators(shorter).len() as int;
        assert(shorter.take(n) =~= text.take(n));
        assert forall|i: int| n <= i < text.len() implies #[trigger] text[i] == '/' by {
            if i < shorter.len() {
                assert(shorter[i] == '/');
            }
        }
    } else {
        assert(text.take(text.len() as int) =~= text);
    }
}

/// Every region key is in normal form, and a text in normal form is its own key.
pub proof fn lemma_region_key_normal(text: Seq<char>)
    ensures
        is_region_key(region_key(text)),
        is_region_key(text) ==> region_key(text) == text,
{
    lemma_strip_trailing(text);
}

/// The identifier of a lint rule: a text that `valid_rule_text` accepts.
#[derive(Debug, PartialEq, Eq, PartialOrd, Ord, Hash)]
pub struct RuleId {
    text: String,
}

impl View for RuleId {
    type V = Seq<char>;

    closed spec fn view(&self) -> Seq<char> {
        self.text@
    }
}

impl RuleId {
    #[verifier::type_invariant]
    spec fn well_formed(&self) -> bool {
        valid_rule_text(self.text@)
    }

    /// The identifier with the text `id`, or `None` where `id` is not a valid
    /// rule identifier.
    pub fn new(id: &str) -> (r: Option<RuleId>)
        ensures
            r is Some <==> valid_rule_text(id@),
            r matches Some(rule) ==> rule@ == id@,
    {
        let chars = chars_of(id);
        if is_valid_rule_chars(&chars) {
            Some(RuleId { text: id.to_owned() })
        } else {
            None
        }
    }

    /// The identifier whose text is `chars`.
    pub(crate) fn from_chars(chars: &Vec<char>) -> (r: RuleId)
        requires
            valid_rule_text(chars@),
        ensures
            r@ == chars@,
    {
        RuleId { text: string_of(chars) }
    }

    /// The text of the identifier.
    pub fn as_str(&self) -> (r: &str)
        ensures
            r@ == self@,
            valid_rule_text(r@),
    {
        proof {
            use_type_invariant(self);
        }
        self.text.as_str()
    }
}

impl Clone for RuleId {
    fn clone(&self) -> (r: Self)
        ensures
            r@ == self@,
    {
        proof {
            use_type_invariant(self);
        }
        RuleId { text: self.text.clone() }
    }
}

/// Whether `chars` is a valid rule identifier.
pub fn is_valid_rule_chars(chars: &Vec<char>) -> (r: bool)
    ensures
        r == valid_rule_text(chars@),
{
    if chars.len() == 0 {
        return false;
    }
    let mut i: usize = 0;
    while i < chars.len()
        invariant
            i <= chars.len(),
            forall|j: int| 0 <= j < i ==> is_rule_char(#[trigger] chars@[j]),
        decreases chars.len() - i,
    {
        let c: char = chars[i];
        let ok = ('a' <= c && c <= 'z') || ('A' <= c && c <= 'Z') || ('0' <= c && c <= '9') || c
            == '-' || c == '_';
        if !ok {
            return false;
        }
        i += 1;
    }
    true
}

/// The length of `chars[..end]` without the separators at its end.
pub fn stripped_len(chars: &Vec<char>, end: usize) -> (r: usize)
    requires
        end <= chars.len(),
    ensures
        r == strip_trailing_separators(chars@.take(end as int)).len(),
        r <= end,
{
    let mut n: usize = end;
    while n > 0 && chars[n - 1] == '/'
        invariant
            n <= end,
            end <= chars.len(),
            strip_trailing_separators(chars@.take(end as int)) == strip_trailing_separators(
                chars@.take(n as int),
            ),
        decreases n,
    {
        proof {
            let t = chars@.take(n as int);
            assert(t.last() == '/');
            assert(t.drop_last() =~= chars@.take(n - 1));
        }
        n -= 1;
    }
    proof {
        let t = chars@.take(n as int);
        if n > 0 {
            assert(t.last() != '/');
        }
    }
    n
}

/// The region key that `chars[..end]` denotes.
pub fn region_key_of(chars: &Vec<char>, end: usize) -> (r: Vec<char>)
    requires
        end <= chars.len(),
    ensures
        r@ == region_key(chars@.take(end as int)),
        is_region_key(r@),
{
    proof {
        lemma_region_key_normal(chars@.take(end as int));
        lemma_strip_trailing(chars@.take(end as int));
    }
    let n = stripped_len(chars, end);
    let mut out: Vec<char> = Vec::new();
    if n == 0 {
        out.push('.');
        assert(out@ =~= root_key());
        return out;
    }
    let mut i: usize = 0;
    while i < n
        invariant
            i <= n,
            n <= end,
            end <= chars.len(),
            out@ == chars@.take(i as int),
        decreases n - i,
    {
        out.push(chars[i]);
        i += 1;
        assert(out@ =~= chars@.take(i as int));
    }
    assert(chars@.take(end as int).take(n as int) =~= chars@.take(n as int));
    out
}

/// A directory scope to which a budget applies, in normal form: `.` is the
/// root, and no key ends in a separator.
#[derive(Debug, PartialEq, Eq, PartialOrd, Ord, Hash)]
pub struct RegionPath {
    text: String,
}

impl View for RegionPath {
    type V = Seq<char>;

    closed spec fn view(&self) -> Seq<char> {
        self.text@
    }
}

impl RegionPath {
    #[verifier::type_invariant]
    spec fn well_formed(&self) -> bool {
        is_region_key(self.text@)
    }

    /// The region that `path` denotes.
    pub fn new(path: &str) -> (r: RegionPath)
        ensures
            r@ == region_key(path@),
    {
        let chars = chars_of(path);
        RegionPath::from_chars(&region_key_of_whole(&chars))
    }

    /// The region whose key is `chars`.
    pub(crate) fn from_chars(chars: &Vec<char>) -> (r: RegionPath)
        requires
            is_region_key(chars@),
        ensures
            r@ == chars@,
    {
        RegionPath { text: string_of(chars) }
    }

    /// The key of the region.
    pub fn as_str(&self) -> (r: &str)
        ensures
            r@ == self@,
            is_region_key(r@),
    {
        proof {
            use_type_invariant(self);
        }
        self.text.as_str()
    }
}

impl Clone for RegionPath {
    fn clone(&self) -> (r: Self)
        ensures
            r@ == self@,
    {
        proof {
            use_type_invariant(self);
        }
        RegionPath { text: self.text.clone() }
    }
}

/// The region key that the whole of `chars` denotes.
pub fn region_key_of_whole(chars: &Vec<char>) -> (r: Vec<char>)
    ensures
        r@ == region_key(chars@),
        is_region_key(r@),
{
    assert(chars@.take(chars.len() as int) =~= chars@);
    region_key_of(chars, chars.len())
}

/// A source language for which rules can be written.
#[derive(Debug, Clone, Copy, PartialEq, Eq, Hash, Structural)]
pub enum Language {
    Rust,
    TypeScript,
    JavaScript,
    Python,
    Go,
}

} // verus!
