//! Ordering of the lines of a report.
//!
//! A line is ranked by a rule, a place and a line number. Lines are put in
//! ascending order of rank, and lines of equal rank keep the order in which
//! they came.

use vstd::prelude::*;
use crate::text::{
    chars_equal, chars_less, lemma_lex_asymmetric, lemma_lex_irreflexive, lemma_lex_total,
    lemma_lex_transitive, lex_less,
};

verus! {

/// The rank of a line: a rule text, the text of a place, and a line number.
pub type Rank = (Seq<char>, Seq<char>, u32);

/// A line of a report with its rank.
pub type RankedLine = (Rank, Seq<char>);

/// Order on ranks: by rule, then by place, then by line number.
pub open spec fn rank_less(a: Rank, b: Rank) -> bool {
    lex_less(a.0, b.0) || (a.0 == b.0 && (lex_less(a.1, b.1) || (a.1 == b.1 && a.2 < b.2)))
}

/// `sorted` with `line` put behind the lines that do not rank above it.
pub open spec fn insert_ranked(sorted: Seq<RankedLine>, line: RankedLine) -> Seq<RankedLine>
    decreases sorted.len(),
{
    if sorted.len() > 0 && rank_less(line.0, sorted.last().0) {
        insert_ranked(sorted.drop_last(), line).push(sorted.last())
    } else {
        sorted.push(line)
    }
}

/// The lines of `lines` in ascending order of rank, lines of equal rank in
/// the order in which they stand in `lines`.
pub open spec fn stable_sorted(lines: Seq<RankedLine>) -> Seq<RankedLine>
    decreases lines.len(),
{
    if lines.len() == 0 {
        Seq::empty()
    } else {
        insert_ranked(stable_sorted(lines.drop_last()), lines.last())
    }
}

/// Whether no line of `lines` ranks above a later one.
pub open spec fn ranked_ascending(lines: Seq<RankedLine>) -> bool {
    forall|i: int, j: int|
        0 <= i < j < lines.len() ==> !rank_less((#[trigger] lines[j]).0, (#[trigger] lines[i]).0)
}

/// The order on ranks is transitive, and so is its complement.
pub proof fn lemma_rank_order(a: Rank, b: Rank, c: Rank)
    ensures
        !rank_less(a, a),
        rank_less(a, b) && rank_less(b, c) ==> rank_less(a, c),
        !rank_less(b, a) && !rank_less(c, b) ==> !rank_less(c, a),
        rank_less(a, b) ==> !rank_less(b, a),
{
    lemma_lex_irreflexive(a.0);
    lemma_lex_irreflexive(a.1);
    if rank_less(a, b) && rank_less(b, c) {
        if lex_less(a.0, b.0) && lex_less(b.0, c.0) {
            lemma_lex_transitive(a.0, b.0, c.0);
        } else if a.0 == b.0 && b.0 == c.0 {
            if lex_less(a.1, b.1) && lex_less(b.1, c.1) {
                lemma_lex_transitive(a.1, b.1, c.1);
            }
        }
    }
    if rank_less(a, b) {
        if lex_less(a.0, b.0) {
            lemma_lex_asymmetric(a.0, b.0);
            lemma_lex_irreflexive(a.0);
        } else {
            lemma_lex_irreflexive(a.0);
            if lex_less(a.1, b.1) {
                lemma_lex_asymmetric(a.1, b.1);
                lemma_lex_irreflexive(a.1);
            } else {
                lemma_lex_irreflexive(a.1);
            }
        }
    }
    if !rank_less(b, a) && !rank_less(c, b) && rank_less(c, a) {
        // a <= b <= c and c < a
        if lex_less(c.0, a.0) {
            if a.0 != b.0 {
                lemma_lex_total_less(a.0, b.0);
                lemma_lex_transitive(c.0, a.0, b.0);
            }
        } else {
            // c.0 == a.0
            if a.0 != b.0 {
                lemma_lex_total_less(a.0, b.0);
            } else if lex_less(c.1, a.1) {
                if a.1 != b.1 {
                    lemma_lex_total_less(a.1, b.1);
                    lemma_lex_transitive(c.1, a.1, b.1);
                }
            } else {
                if a.1 != b.1 {
                    lemma_lex_total_less(a.1, b.1);
                }
            }
        }
    }
}

/// Of two different texts one comes before the other.
proof fn lemma_lex_total_less(a: Seq<char>, b: Seq<char>)
    requires
        a != b,
        !lex_less(b, a),
    ensures
        lex_less(a, b),
{
    if !lex_less(a, b) {
        lemma_lex_total(a, b);
    }
}

/// Putting a line into an ascending list leaves it ascending, adds the line
/// and loses none.
pub proof fn lemma_insert_ranked(sorted: Seq<RankedLine>, line: RankedLine)
    requires
        ranked_ascending(sorted),
    ensures
        ranked_ascending(insert_ranked(sorted, line)),
        insert_ranked(sorted, line).to_multiset() == sorted.to_multiset().insert(line),
        insert_ranked(sorted, line).len() == sorted.len() + 1,
    decreases sorted.len(),
{
    broadcast use vstd::seq_lib::group_to_multiset_ensures;

    if sorted.len() > 0 && rank_less(line.0, sorted.last().0) {
        let shorter = sorted.drop_last();
        let last = sorted.last();
        assert(ranked_ascending(shorter)) by {
            assert forall|i: int, j: int| 0 <= i < j < shorter.len() implies !rank_less(
                (#[trigger] shorter[j]).0,
                (#[trigger] shorter[i]).0,
            ) by {
                assert(shorter[i] == sorted[i] && shorter[j] == sorted[j]);
            }
        }
        lemma_insert_ranked(shorter, line);
        let inner = insert_ranked(shorter, line);
        let out = inner.push(last);
        assert(sorted =~= shorter.push(last));
        assert(out.to_multiset() =~= sorted.to_multiset().insert(line));
        assert forall|i: int, j: int| 0 <= i < j < out.len() implies !rank_less(
            (#[trigger] out[j]).0,
            (#[trigger] out[i]).0,
        ) by {
            if j == out.len() - 1 {
                // out[i] is the line or a line of `shorter`
                assert(inner.to_multiset().count(inner[i]) > 0);
                if inner[i] == line {
                    lemma_rank_order(line.0, last.0, line.0);
                } else {
                    assert(shorter.to_multiset().count(inner[i]) > 0);
                    assert(shorter.contains(inner[i]));
                    let k = choose|k: int| 0 <= k < shorter.len() && shorter[k] == inner[i];
                    assert(sorted[k] == inner[i]);
                    assert(!rank_less(sorted[sorted.len() - 1].0, sorted[k].0));
                }
            } else {
                assert(out[i] == inner[i] && out[j] == inner[j]);
            }
        }
    } else {
        let out = sorted.push(line);
        assert forall|i: int, j: int| 0 <= i < j < out.len() implies !rank_less(
            (#[trigger] out[j]).0,
            (#[trigger] out[i]).0,
        ) by {
            if j == out.len() - 1 {
                if i < sorted.len() - 1 {
                    assert(!rank_less(sorted[sorted.len() - 1].0, sorted[i].0));
                    lemma_rank_order(sorted[i].0, sorted.last().0, line.0);
                }
            } else {
                assert(out[i] == sorted[i] && out[j] == sorted[j]);
            }
        }
    }
}

/// `stable_sorted` gives the same lines in ascending order.
pub proof fn lemma_stable_sorted(lines: Seq<RankedLine>)
    ensures
        ranked_ascending(stable_sorted(lines)),
        stable_sorted(lines).to_multiset() == lines.to_multiset(),
        stable_sorted(lines).len() == lines.len(),
    decreases lines.len(),
{
    broadcast use vstd::seq_lib::group_to_multiset_ensures;

    if lines.len() > 0 {
        lemma_stable_sorted(lines.drop_last());
        lemma_insert_ranked(stable_sorted(lines.drop_last()), lines.last());
        assert(lines =~= lines.drop_last().push(lines.last()));
    }
}

/// A line of a report, ready to be put in order.
#[derive(Debug)]
pub struct Ranked {
    pub rule: Vec<char>,
    pub place: Vec<char>,
    pub line: u32,
    pub text: String,
}

impl View for Ranked {
    type V = RankedLine;

    open spec fn view(&self) -> RankedLine {
        ((self.rule@, self.place@, self.line), self.text@)
    }
}

/// The lines of `lines`, each by its view.
pub open spec fn ranked_views(lines: Seq<Ranked>) -> Seq<RankedLine> {
    Seq::new(lines.len(), |i: int| lines[i]@)
}

/// Whether `a` ranks strictly below `b`.
pub fn ranks_below(a: &Ranked, b: &Ranked) -> (r: bool)
    ensures
        r == rank_less(a@.0, b@.0),
{
    if chars_less(&a.rule, &b.rule) {
        true
    } else if !chars_equal(&a.rule, &b.rule) {
        false
    } else if chars_less(&a.place, &b.place) {
        true
    } else if !chars_equal(&a.place, &b.place) {
        false
    } else {
        a.line < b.line
    }
}

/// A line stands at `place` in the list that `insert_ranked` gives where it
/// ranks below every line from `place` on and not below the one before.
pub proof fn lemma_insert_ranked_at(sorted: Seq<RankedLine>, line: RankedLine, place: int)
    requires
        0 <= place <= sorted.len(),
        forall|i: int| place <= i < sorted.len() ==> rank_less(line.0, (#[trigger] sorted[i]).0),
        place > 0 ==> !rank_less(line.0, sorted[place - 1].0),
    ensures
        insert_ranked(sorted, line) == sorted.insert(place, line),
    decreases sorted.len() - place,
{
    if place == sorted.len() {
        assert(sorted.push(line) =~= sorted.insert(place, line));
    } else {
        assert(rank_less(line.0, sorted[sorted.len() - 1].0));
        let shorter = sorted.drop_last();
        assert forall|i: int| place <= i < shorter.len() implies rank_less(
            line.0,
            (#[trigger] shorter[i]).0,
        ) by {
            assert(shorter[i] == sorted[i]);
        }
        lemma_insert_ranked_at(shorter, line, place);
        assert(shorter.insert(place, line).push(sorted.last()) =~= sorted.insert(place, line));
    }
}

/// Puts `lines` in ascending order of rank, lines of equal rank in the order
/// in which they came.
pub fn sort_ranked(lines: Vec<Ranked>) -> (sorted: Vec<Ranked>)
    ensures
        ranked_views(sorted@) == stable_sorted(ranked_views(lines@)),
{
    let ghost views = ranked_views(lines@);
    let mut sorted: Vec<Ranked> = Vec::new();
    proof {
        assert(views.take(0) =~= Seq::<RankedLine>::empty());
        assert(ranked_views(sorted@) =~= stable_sorted(views.take(0)));
    }
    for line in iter: lines
        invariant
            iter.seq() == lines@,
            views == ranked_views(lines@),
            ranked_views(sorted@) == stable_sorted(views.take(iter.index() as int)),
    {
        let ghost before = ranked_views(sorted@);
        let mut place: usize = sorted.len();
        while place > 0 && ranks_below(&line, &sorted[place - 1])
            invariant
                place <= sorted.len(),
                before == ranked_views(sorted@),
                forall|i: int|
                    place <= i < before.len() ==> rank_less(line@.0, (#[trigger] before[i]).0),
            decreases place,
        {
            proof {
                assert(before[place - 1] == sorted@[place - 1]@);
            }
            place -= 1;
        }
        proof {
            if place > 0 {
                assert(before[place - 1] == sorted@[place - 1]@);
            }
            lemma_insert_ranked_at(before, line@, place as int);
            let index = iter.index() as int;
            assert(views.take(index + 1).drop_last() =~= views.take(index));
            assert(views.take(index + 1).last() == line@);
        }
        sorted.insert(place, line);
        proof {
            assert(ranked_views(sorted@) =~= before.insert(place as int, line@));
        }
    }
    proof {
        assert(views.take(views.len() as int) =~= views);
    }
    sorted
}

/// The segments of `text`: what stands between its separators, empty segments
/// too.
pub open spec fn segments(text: Seq<char>) -> Seq<Seq<char>>
    decreases text.len(),
{
    if text.len() == 0 {
        seq![Seq::empty()]
    } else {
        let before = segments(text.drop_last());
        if text.last() == '/' {
            before.push(Seq::empty())
        } else {
            before.update(before.len() - 1, before.last().push(text.last()))
        }
    }
}

/// The part of a path's key that the segment at `index` gives.
///
/// An empty segment gives nothing, but for the one before a leading separator,
/// which marks the root. A segment that is one dot gives nothing, but at the
/// start of the path. Every other segment gives its text after one character
/// for its kind. The kinds are ordered: the root, the directory itself, the
/// directory above, and a name.
pub open spec fn segment_key(segments: Seq<Seq<char>>, index: int) -> Seq<char> {
    let segment = segments[index];
    if segment.len() == 0 {
        if index == 0 && segments.len() > 1 {
            seq!['\u{1}']
        } else {
            Seq::empty()
        }
    } else if segment == seq!['.'] {
        if index == 0 {
            seq!['\u{2}']
        } else {
            Seq::empty()
        }
    } else if segment == seq!['.', '.'] {
        seq!['\u{3}']
    } else {
        seq!['\u{4}'] + segment
    }
}

/// The key of the first `n` segments: their parts, with the character zero
/// between two of them.
pub open spec fn segments_key(segments: Seq<Seq<char>>, n: int) -> Seq<char>
    decreases n,
{
    if n <= 0 {
        Seq::empty()
    } else {
        let before = segments_key(segments, n - 1);
        let part = segment_key(segments, n - 1);
        if part.len() == 0 {
            before
        } else if before.len() == 0 {
            part
        } else {
            before + seq!['\u{0}'] + part
        }
    }
}

/// The key by which a path is ranked.
///
/// Keys are compared as texts. Since the character between two segments comes
/// before every other, this compares paths segment by segment, as long as no
/// segment holds the character zero: `a/b` comes before `a-b/c`, and a path
/// before every path that it is the start of.
pub open spec fn path_key(path: Seq<char>) -> Seq<char> {
    segments_key(segments(path), segments(path).len() as int)
}

/// The texts of `segments`, each by its view.
pub open spec fn segment_views(segments: Seq<Vec<char>>) -> Seq<Seq<char>> {
    Seq::new(segments.len(), |i: int| segments[i]@)
}

/// The segments of `text`.
pub fn segments_of(text: &Vec<char>) -> (r: Vec<Vec<char>>)
    ensures
        segment_views(r@) == segments(text@),
{
    let mut out: Vec<Vec<char>> = Vec::new();
    out.push(Vec::new());
    let mut i: usize = 0;
    proof {
        assert(text@.take(0) =~= Seq::<char>::empty());
        assert(segment_views(out@) =~= segments(text@.take(0)));
    }
    while i < text.len()
        invariant
            i <= text.len(),
            out@.len() > 0,
            segment_views(out@) == segments(text@.take(i as int)),
        decreases text.len() - i,
    {
        let ghost before = segment_views(out@);
        proof {
            assert(text@.take(i + 1).drop_last() =~= text@.take(i as int));
            assert(text@.take(i + 1).last() == text@[i as int]);
        }
        if text[i] == '/' {
            out.push(Vec::new());
            proof {
                assert(segment_views(out@) =~= before.push(Seq::empty()));
            }
        } else {
            let last = out.len() - 1;
            out[last].push(text[i]);
            proof {
                assert(segment_views(out@) =~= before.update(
                    before.len() - 1,
                    before.last().push(text@[i as int]),
                ));
            }
        }
        i += 1;
    }
    proof {
        assert(text@.take(text.len() as int) =~= text@);
    }
    out
}

/// The key by which the path `path` is ranked.
pub fn path_key_of(path: &Vec<char>) -> (key: Vec<char>)
    ensures
        key@ == path_key(path@),
{
    let parts = segments_of(path);
    let ghost views = segment_views(parts@);
    let mut key: Vec<char> = Vec::new();
    let mut n: usize = 0;
    while n < parts.len()
        invariant
            n <= parts.len(),
            views == segment_views(parts@),
            key@ == segments_key(views, n as int),
        decreases parts.len() - n,
    {
        let part = &parts[n];
        let ghost before = key@;
        proof {
            assert(views[n as int] == part@);
        }
        let one_dot = part.len() == 1 && part[0] == '.';
        let two_dots = part.len() == 2 && part[0] == '.' && part[1] == '.';
        proof {
            assert(one_dot == (part@ == seq!['.'])) by {
                if one_dot {
                    assert(part@ =~= seq!['.']);
                }
            }
            assert(two_dots == (part@ == seq!['.', '.'])) by {
                if two_dots {
                    assert(part@ =~= seq!['.', '.']);
                }
            }
        }
        let skipped = if part.len() == 0 {
            !(n == 0 && parts.len() > 1)
        } else {
            one_dot && n != 0
        };
        if !skipped {
            if key.len() > 0 {
                key.push('\u{0}');
            }
            if part.len() == 0 {
                key.push('\u{1}');
            } else if one_dot {
                key.push('\u{2}');
            } else if two_dots {
                key.push('\u{3}');
            } else {
                key.push('\u{4}');
                let ghost head = key@;
                let mut i: usize = 0;
                while i < part.len()
                    invariant
                        i <= part.len(),
                        key@ == head + part@.take(i as int),
                    decreases part.len() - i,
                {
                    key.push(part[i]);
                    i += 1;
                    assert(key@ =~= head + part@.take(i as int));
                }
                proof {
                    assert(part@.take(part.len() as int) =~= part@);
                }
            }
            proof {
                let piece = segment_key(views, n as int);
                assert(piece.len() > 0);
                if before.len() == 0 {
                    assert(key@ =~= piece);
                } else {
                    assert(key@ =~= before + seq!['\u{0}'] + piece);
                }
            }
        }
        n += 1;
    }
    key
}

} // verus!
