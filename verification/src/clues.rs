//! Clues near a match: where they stand, and what they decide.
use aho_corasick::AhoCorasick;
use vstd::prelude::*;
use vstd::seq_lib::*;
use vstd::string::*;
use vstd::utf8::*;

use crate::automaton::{bytewise_find_all, bytewise_patterns, finds_every, pattern_at};
use crate::emit::{is_excluded, span_excluded, ByteRange};
use crate::text::{contains_in, count_where, occurs_at, Text};
use crate::window::{after_span, before_span, positional_bounds_after, positional_bounds_before};

verus! {

/// A term that must, or must not, stand on a certain side of a match.
#[derive(Clone, Debug)]
pub enum PositionalClue {
    /// The match stands before the term.
    Before(String),
    /// The match stands after the term.
    After(String),
    /// The term stands directly beside the match, on either side.
    Adjacent(String),
    /// The match does not stand before the term.
    NotBefore(String),
    /// The match does not stand after the term.
    NotAfter(String),
}

/// A clue, by the characters of its term.
#[verifier::ext_equal]
pub ghost enum ClueModel {
    Before(Seq<char>),
    After(Seq<char>),
    Adjacent(Seq<char>),
    NotBefore(Seq<char>),
    NotAfter(Seq<char>),
}

impl View for PositionalClue {
    type V = ClueModel;

    open spec fn view(&self) -> ClueModel {
        match self {
            PositionalClue::Before(s) => ClueModel::Before(s@),
            PositionalClue::After(s) => ClueModel::After(s@),
            PositionalClue::Adjacent(s) => ClueModel::Adjacent(s@),
            PositionalClue::NotBefore(s) => ClueModel::NotBefore(s@),
            PositionalClue::NotAfter(s) => ClueModel::NotAfter(s@),
        }
    }
}

/// The clues of a list, each by what it says.
pub open spec fn clue_models(v: Seq<PositionalClue>) -> Seq<ClueModel> {
    Seq::new(v.len(), |i: int| v[i]@)
}

/// `s` is the prefix and a term behind it.
pub open spec fn prefixed(s: Seq<char>, prefix: Seq<char>) -> bool {
    occurs_at(s, prefix, 0) && s.len() > prefix.len()
}

/// What stands behind the prefix.
pub open spec fn behind(s: Seq<char>, prefix: Seq<char>) -> Seq<char> {
    s.subrange(prefix.len() as int, s.len() as int)
}

/// The clue that a string writes, if it writes one.
pub open spec fn parsed_clue(s: Seq<char>) -> Option<ClueModel> {
    if prefixed(s, "not_before:"@) {
        Some(ClueModel::NotBefore(behind(s, "not_before:"@)))
    } else if prefixed(s, "not_after:"@) {
        Some(ClueModel::NotAfter(behind(s, "not_after:"@)))
    } else if prefixed(s, "before:"@) {
        Some(ClueModel::Before(behind(s, "before:"@)))
    } else if prefixed(s, "after:"@) {
        Some(ClueModel::After(behind(s, "after:"@)))
    } else if prefixed(s, "adjacent:"@) {
        Some(ClueModel::Adjacent(behind(s, "adjacent:"@)))
    } else {
        None
    }
}

pub open spec fn opt_clue(o: Option<PositionalClue>) -> Option<ClueModel> {
    match o {
        Some(c) => Some(c@),
        None => None,
    }
}

fn strip(text: &Text<'_>, prefix: &str) -> (r: Option<String>)
    requires
        text.wf(),
    ensures
        match r {
            Some(s) => prefixed(text@, prefix@) && s@ == behind(text@, prefix@),
            None => !prefixed(text@, prefix@),
        },
{
    let n: usize = text.len();
    let k: usize = prefix.unicode_len();
    if n > k && text.at(prefix, 0) {
        Some(text.slice(k, n))
    } else {
        None
    }
}

impl PositionalClue {
    /// Reads a clue such as `before:函式`. No clue where the prefix is unknown
    /// or nothing stands behind it.
    pub fn parse(s: &str) -> (r: Option<Self>)
        ensures
            opt_clue(r) == parsed_clue(s@),
    {
        let text = Text::new(s);
        if let Some(t) = strip(&text, "not_before:") {
            return Some(PositionalClue::NotBefore(t));
        }
        if let Some(t) = strip(&text, "not_after:") {
            return Some(PositionalClue::NotAfter(t));
        }
        if let Some(t) = strip(&text, "before:") {
            return Some(PositionalClue::Before(t));
        }
        if let Some(t) = strip(&text, "after:") {
            return Some(PositionalClue::After(t));
        }
        if let Some(t) = strip(&text, "adjacent:") {
            return Some(PositionalClue::Adjacent(t));
        }
        None
    }

    /// A copy of the clue.
    pub fn copy(&self) -> (r: Self)
        ensures
            r@ == self@,
    {
        match self {
            PositionalClue::Before(s) => PositionalClue::Before(s.clone()),
            PositionalClue::After(s) => PositionalClue::After(s.clone()),
            PositionalClue::Adjacent(s) => PositionalClue::Adjacent(s.clone()),
            PositionalClue::NotBefore(s) => PositionalClue::NotBefore(s.clone()),
            PositionalClue::NotAfter(s) => PositionalClue::NotAfter(s.clone()),
        }
    }
}

/// The term stands directly before `s` or directly behind `e`, outside the
/// excluded ranges.
pub open spec fn stands_beside(
    t: Seq<char>,
    ex: Seq<ByteRange>,
    s: int,
    e: int,
    term: Seq<char>,
) -> bool {
    ||| occurs_at(t, term, s - term.len()) && !span_excluded(t, ex, s - term.len(), s)
    ||| occurs_at(t, term, e) && !span_excluded(t, ex, e, e + term.len())
}

/// The clue holds of the match `s..e`.
pub open spec fn clue_holds(
    t: Seq<char>,
    ex: Seq<ByteRange>,
    s: int,
    e: int,
    clue: ClueModel,
) -> bool {
    match clue {
        ClueModel::Before(term) => contains_in(t, term, e, after_span(t, ex, e)),
        ClueModel::After(term) => contains_in(t, term, before_span(t, ex, s), s),
        ClueModel::Adjacent(term) => stands_beside(t, ex, s, e, term),
        ClueModel::NotBefore(term) => !contains_in(t, term, e, after_span(t, ex, e)),
        ClueModel::NotAfter(term) => !contains_in(t, term, before_span(t, ex, s), s),
    }
}

/// Every clue holds of the match `s..e`.
pub open spec fn all_hold(
    t: Seq<char>,
    ex: Seq<ByteRange>,
    s: int,
    e: int,
    clues: Seq<ClueModel>,
) -> bool {
    forall|k: int| 0 <= k < clues.len() ==> clue_holds(t, ex, s, e, #[trigger] clues[k])
}

fn is_beside(text: &Text<'_>, s: usize, e: usize, excluded: &[ByteRange], term: &str) -> (r: bool)
    requires
        text.wf(),
        s <= e <= text@.len(),
    ensures
        r == stands_beside(text@, excluded@, s as int, e as int, term@),
{
    let n: usize = text.len();
    let k: usize = term.unicode_len();
    let before: bool = s >= k && text.at(term, s - k) && !is_excluded(
        text.byte(s - k),
        text.byte(s),
        excluded,
    );
    let after: bool = n - e >= k && text.at(term, e) && !is_excluded(
        text.byte(e),
        text.byte(e + k),
        excluded,
    );
    before || after
}

/// Whether every clue holds of the match `s..e`.
pub fn check_positional_clues(
    text: &Text<'_>,
    s: usize,
    e: usize,
    excluded: &[ByteRange],
    clues: &Vec<PositionalClue>,
) -> (r: bool)
    requires
        text.wf(),
        s <= e <= text@.len(),
    ensures
        r == all_hold(text@, excluded@, s as int, e as int, clue_models(clues@)),
{
    let ghost said = clue_models(clues@);
    let end: usize = positional_bounds_after(text, e, excluded);
    let start: usize = positional_bounds_before(text, s, excluded);
    let mut k: usize = 0;
    while k < clues.len()
        invariant
            text.wf(),
            s <= e <= text@.len(),
            end == after_span(text@, excluded@, e as int),
            start == before_span(text@, excluded@, s as int),
            e <= end <= text@.len(),
            start <= s,
            k <= clues@.len(),
            said == clue_models(clues@),
            forall|j: int|
                0 <= j < k ==> clue_holds(
                    text@,
                    excluded@,
                    s as int,
                    e as int,
                    #[trigger] said[j],
                ),
        decreases clues@.len() - k,
    {
        let holds: bool = match &clues[k] {
            PositionalClue::Before(term) => text.find(term.as_str(), e, end).is_some(),
            PositionalClue::After(term) => text.find(term.as_str(), start, s).is_some(),
            PositionalClue::Adjacent(term) => is_beside(text, s, e, excluded, term.as_str()),
            PositionalClue::NotBefore(term) => text.find(term.as_str(), e, end).is_none(),
            PositionalClue::NotAfter(term) => text.find(term.as_str(), start, s).is_none(),
        };
        assert(said[k as int] == clues@[k as int]@);
        assert(holds == clue_holds(text@, excluded@, s as int, e as int, said[k as int]));
        if !holds {
            return false;
        }
        k = k + 1;
    }
    true
}

/// The entries ascend by their offsets.
pub open spec fn by_offset(v: Seq<(usize, u16)>) -> bool {
    forall|i: int, j: int| 0 <= i < j < v.len() ==> (#[trigger] v[i]).0 <= (#[trigger] v[j]).0
}

/// `v` holds every match of the patterns in `h` and nothing else, as the byte
/// where it begins and the number of its pattern.
pub open spec fn clue_hits(p: Seq<Seq<char>>, h: Seq<u8>, v: Seq<(usize, u16)>) -> bool {
    &&& forall|i: int|
        0 <= i < v.len() ==> pattern_at(p, h, (#[trigger] v[i]).1 as int, v[i].0 as int)
    &&& forall|k: int, b: int| #[trigger]
        pattern_at(p, h, k, b) ==> exists|i: int|
            0 <= i < v.len() && (#[trigger] v[i]).0 == b && v[i].1 == k
}

/// `v` is `before` with every match of the patterns besides, in order.
pub open spec fn indexed(
    p: Seq<Seq<char>>,
    h: Seq<u8>,
    before: Seq<(usize, u16)>,
    v: Seq<(usize, u16)>,
) -> bool {
    by_offset(v) && exists|added: Seq<(usize, u16)>| #[trigger]
        clue_hits(p, h, added) && v.to_multiset() == before.to_multiset().add(added.to_multiset())
}

/// An item put into a list comes to what the list holds.
pub(crate) proof fn lemma_insert_multiset<T>(v: Seq<T>, i: int, x: T)
    requires
        0 <= i <= v.len(),
    ensures
        v.insert(i, x).to_multiset() == v.to_multiset().insert(x),
{
    let w = v.insert(i, x);
    assert(w.remove(i) =~= v);
    to_multiset_remove(w, i);
    w.to_multiset_ensures();
    assert(w[i] == x);
    assert(w.contains(x));
    assert(w.to_multiset().count(x) > 0);
    assert(w.to_multiset() =~= v.to_multiset().insert(x));
}

/// Puts an entry into an ordered list, behind those with the same offset.
fn insert_ordered(v: &mut Vec<(usize, u16)>, x: (usize, u16))
    requires
        by_offset(old(v)@),
    ensures
        by_offset(final(v)@),
        final(v)@.to_multiset() == old(v)@.to_multiset().insert(x),
{
    let mut at: usize = v.len();
    while at > 0 && v[at - 1].0 > x.0
        invariant
            at <= v@.len(),
            by_offset(v@),
            forall|k: int| at <= k < v@.len() ==> (#[trigger] v@[k]).0 > x.0,
        decreases at,
    {
        at = at - 1;
    }
    proof {
        lemma_insert_multiset(v@, at as int, x);
        let w = v@.insert(at as int, x);
        assert forall|i: int, j: int| 0 <= i < j < w.len() implies (#[trigger] w[i]).0 <= (
        #[trigger] w[j]).0 by {
            let before = v@;
            if j < at {
                assert(before[i].0 <= before[j].0);
            } else if i < at && j == at {
                assert(before[i].0 <= before[at - 1].0);
            } else if i < at {
                assert(before[i].0 <= before[j - 1].0);
            } else if i > at {
                assert(before[i - 1].0 <= before[j - 1].0);
            } else {
                assert(before[j - 1].0 > x.0);
            }
        }
    }
    v.insert(at, x);
}

/// Puts a list in order, entry by entry.
fn ordered(v: &Vec<(usize, u16)>) -> (r: Vec<(usize, u16)>)
    ensures
        by_offset(r@),
        r@.to_multiset() == v@.to_multiset(),
{
    let mut r: Vec<(usize, u16)> = Vec::new();
    let mut i: usize = 0;
    assert(v@.take(0) =~= r@);
    while i < v.len()
        invariant
            i <= v@.len(),
            by_offset(r@),
            r@.to_multiset() == v@.take(i as int).to_multiset(),
        decreases v@.len() - i,
    {
        proof {
            assert(v@.take(i + 1) =~= v@.take(i as int).push(v@[i as int]));
            to_multiset_build(v@.take(i as int), v@[i as int]);
        }
        insert_ordered(&mut r, v[i]);
        i = i + 1;
    }
    assert(v@.take(v@.len() as int) =~= v@);
    r
}

/// Adds every place where a clue stands to the index, which is in order
/// afterwards. Without an automaton there is nothing to add.
pub fn build_clue_index_into(
    clue_ac: Option<&AhoCorasick>,
    text: &str,
    out: &mut Vec<(usize, u16)>,
)
    requires
        clue_ac matches Some(ac) ==> {
            &&& finds_every(*ac)
            &&& bytewise_patterns(*ac).len() <= 65536
        },
    ensures
        match clue_ac {
            Some(ac) => indexed(
                bytewise_patterns(*ac),
                encode_utf8(text@),
                old(out)@,
                final(out)@,
            ),
            None => final(out)@ == old(out)@,
        },
{
    match clue_ac {
        None => {},
        Some(ac) => {
            let ghost p = bytewise_patterns(*ac);
            let ghost h = encode_utf8(text@);
            let ghost before = out@;
            let found = bytewise_find_all(ac, text);
            let mut i: usize = 0;
            while i < found.len()
                invariant
                    i <= found@.len(),
                    forall|k: int|
                        0 <= k < found@.len() ==> pattern_at(
                            p,
                            h,
                            (#[trigger] found@[k]).1 as int,
                            found@[k].0 as int,
                        ),
                    p.len() <= 65536,
                    out@.len() == before.len() + i,
                    out@ =~= before + narrowed(found@.take(i as int)),
                decreases found@.len() - i,
            {
                let (b, k) = found[i];
                assert(pattern_at(p, h, found@[i as int].1 as int, found@[i as int].0 as int));
                proof {
                    assert(found@.take(i + 1) =~= found@.take(i as int).push(found@[i as int]));
                    assert(narrowed(found@.take(i + 1)) =~= narrowed(found@.take(i as int)).push(
                        (b, k as u16),
                    ));
                }
                out.push((b, k as u16));
                i = i + 1;
            }
            proof {
                assert(found@.take(found@.len() as int) =~= found@);
                lemma_narrowed(p, h, found@);
                lemma_multiset_add(before, narrowed(found@));
            }
            let now = ordered(out);
            *out = now;
        },
    }
}

/// The matches with their patterns' numbers as two bytes.
spec fn narrowed(v: Seq<(usize, usize)>) -> Seq<(usize, u16)> {
    Seq::new(v.len(), |i: int| (v[i].0, v[i].1 as u16))
}

proof fn lemma_multiset_add(a: Seq<(usize, u16)>, b: Seq<(usize, u16)>)
    ensures
        (a + b).to_multiset() == a.to_multiset().add(b.to_multiset()),
    decreases b.len(),
{
    if b.len() == 0 {
        assert(a + b =~= a);
        b.to_multiset_ensures();
        assert(b.to_multiset().len() == 0);
        assert(a.to_multiset().add(b.to_multiset()) =~= a.to_multiset());
    } else {
        let c = b.drop_last();
        lemma_multiset_add(a, c);
        assert(a + b =~= (a + c).push(b.last()));
        assert(b =~= c.push(b.last()));
        to_multiset_build(a + c, b.last());
        to_multiset_build(c, b.last());
        assert((a + b).to_multiset() =~= a.to_multiset().add(b.to_multiset()));
    }
}

proof fn lemma_narrowed(p: Seq<Seq<char>>, h: Seq<u8>, v: Seq<(usize, usize)>)
    requires
        crate::automaton::all_matches(p, h, v),
        p.len() <= 65536,
    ensures
        clue_hits(p, h, narrowed(v)),
{
    let w = narrowed(v);
    assert forall|i: int| 0 <= i < w.len() implies pattern_at(
        p,
        h,
        (#[trigger] w[i]).1 as int,
        w[i].0 as int,
    ) by {
        assert(pattern_at(p, h, v[i].1 as int, v[i].0 as int));
    }
    assert forall|k: int, b: int| #[trigger] pattern_at(p, h, k, b) implies exists|i: int|
        0 <= i < w.len() && (#[trigger] w[i]).0 == b && w[i].1 == k by {
        let i = choose|i: int| 0 <= i < v.len() && (#[trigger] v[i]).0 == b && v[i].1 == k;
        assert(w[i].0 == b && w[i].1 == k);
    }
}

/// First entry at byte `b` or after it.
pub open spec fn first_from(v: Seq<(usize, u16)>, b: int, n: int) -> int
    decreases n,
{
    if n <= 0 || v[n - 1].0 < b {
        if n <= 0 { 0 } else { n }
    } else {
        first_from(v, b, n - 1)
    }
}

/// First entry of `from..to` whose number is listed, else `to`.
pub open spec fn first_listed(v: Seq<(usize, u16)>, ids: Seq<u16>, from: int, to: int) -> int
    decreases to - from,
{
    if from >= to || ids.contains(v[from].1) {
        from
    } else {
        first_listed(v, ids, from + 1, to)
    }
}

/// How many of the listed numbers the entries `from..to` hold.
pub open spec fn distinct_listed(v: Seq<(usize, u16)>, ids: Seq<u16>, from: int, to: int) -> nat {
    count_where(0, ids.len() as int, held(v, ids, from, to))
}

/// The entries `from..to` hold the `k`-th of the listed numbers.
pub open spec fn held(v: Seq<(usize, u16)>, ids: Seq<u16>, from: int, to: int) -> spec_fn(
    int,
) -> bool {
    |k: int| exists|m: int| from <= m < to && (#[trigger] v[m]).1 == ids[k]
}

pub open spec fn ids_of(o: Option<&[u16]>) -> Seq<u16> {
    match o {
        Some(s) => s@,
        None => Seq::empty(),
    }
}

/// Each number is greater than the one before it.
pub open spec fn rising(ids: Seq<u16>) -> bool {
    forall|i: int, j: int| 0 <= i < j < ids.len() ==> #[trigger] ids[i] < #[trigger] ids[j]
}

/// The entries of a window: what is counted ends with the first negative clue.
pub open spec fn window_clues(
    v: Seq<(usize, u16)>,
    start: int,
    end: int,
    pos: Seq<u16>,
    neg: Seq<u16>,
) -> (nat, bool) {
    let lo = first_from(v, start, v.len() as int);
    let hi = first_from(v, end, v.len() as int);
    let m = first_listed(v, neg, lo, hi);
    if m < hi {
        (distinct_listed(v, pos, lo, m + 1), true)
    } else {
        (distinct_listed(v, pos, lo, hi), false)
    }
}

proof fn lemma_first_from(v: Seq<(usize, u16)>, b: int, n: int, k: int)
    requires
        0 <= k <= n <= v.len(),
        forall|i: int| 0 <= i < k ==> (#[trigger] v[i]).0 < b,
        forall|i: int| k <= i < n ==> (#[trigger] v[i]).0 >= b,
    ensures
        first_from(v, b, n) == k,
    decreases n,
{
    if k < n {
        assert(v[n - 1].0 >= b);
        lemma_first_from(v, b, n - 1, k);
    } else if k > 0 {
        assert(v[k - 1].0 < b);
    }
}

fn lower_bound(v: &[(usize, u16)], b: usize) -> (r: usize)
    requires
        by_offset(v@),
    ensures
        r == first_from(v@, b as int, v@.len() as int),
        r <= v@.len(),
        forall|i: int| 0 <= i < r ==> (#[trigger] v@[i]).0 < b,
        forall|i: int| r <= i < v@.len() ==> (#[trigger] v@[i]).0 >= b,
{
    let mut lo: usize = 0;
    let mut hi: usize = v.len();
    while lo < hi
        invariant
            by_offset(v@),
            lo <= hi <= v@.len(),
            forall|i: int| 0 <= i < lo ==> (#[trigger] v@[i]).0 < b,
            forall|i: int| hi <= i < v@.len() ==> (#[trigger] v@[i]).0 >= b,
        decreases hi - lo,
    {
        let mid: usize = lo + (hi - lo) / 2;
        if v[mid].0 < b {
            assert forall|i: int| 0 <= i < mid + 1 implies (#[trigger] v@[i]).0 < b by {
                if i < mid {
                    assert(v@[i].0 <= v@[mid as int].0);
                }
            }
            lo = mid + 1;
        } else {
            assert forall|i: int| mid <= i < v@.len() implies (#[trigger] v@[i]).0 >= b by {
                if mid < i {
                    assert(v@[mid as int].0 <= v@[i].0);
                }
            }
            hi = mid;
        }
    }
    proof {
        lemma_first_from(v@, b as int, v@.len() as int, lo as int);
    }
    lo
}

/// Place of a number in a rising list.
fn place(ids: &[u16], id: u16) -> (r: Option<usize>)
    requires
        rising(ids@),
    ensures
        match r {
            Some(k) => k < ids@.len() && ids@[k as int] == id,
            None => !ids@.contains(id),
        },
{
    let mut lo: usize = 0;
    let mut hi: usize = ids.len();
    while lo < hi
        invariant
            rising(ids@),
            lo <= hi <= ids@.len(),
            forall|i: int| 0 <= i < lo ==> #[trigger] ids@[i] < id,
            forall|i: int| hi <= i < ids@.len() ==> #[trigger] ids@[i] > id,
        decreases hi - lo,
    {
        let mid: usize = lo + (hi - lo) / 2;
        if ids[mid] == id {
            return Some(mid);
        }
        if ids[mid] < id {
            assert forall|i: int| 0 <= i < mid + 1 implies #[trigger] ids@[i] < id by {
                if i < mid {
                    assert(ids@[i] < ids@[mid as int]);
                }
            }
            lo = mid + 1;
        } else {
            assert forall|i: int| mid <= i < ids@.len() implies #[trigger] ids@[i] > id by {
                if mid < i {
                    assert(ids@[mid as int] < ids@[i]);
                }
            }
            hi = mid;
        }
    }
    None
}

proof fn lemma_count_flip(n: int, f: spec_fn(int) -> bool, g: spec_fn(int) -> bool, k: int)
    requires
        0 <= k < n,
        !f(k),
        g(k),
        forall|j: int| 0 <= j < n && j != k ==> #[trigger] f(j) == g(j),
    ensures
        count_where(0, n, g) == count_where(0, n, f) + 1,
    decreases n,
{
    if n - 1 > k {
        lemma_count_flip(n - 1, f, g, k);
        assert(f(n - 1) == g(n - 1));
    } else {
        lemma_count_same(n - 1, f, g);
    }
}

proof fn lemma_count_same(n: int, f: spec_fn(int) -> bool, g: spec_fn(int) -> bool)
    requires
        forall|j: int| 0 <= j < n ==> #[trigger] f(j) == g(j),
    ensures
        count_where(0, n, g) == count_where(0, n, f),
    decreases n,
{
    if n > 0 {
        lemma_count_same(n - 1, f, g);
        assert(f(n - 1) == g(n - 1));
    }
}

proof fn lemma_count_none(n: int, f: spec_fn(int) -> bool)
    requires
        forall|j: int| 0 <= j < n ==> !#[trigger] f(j),
    ensures
        count_where(0, n, f) == 0,
    decreases n,
{
    if n > 0 {
        lemma_count_none(n - 1, f);
        assert(!f(n - 1));
    }
}

/// Looks up the clues of a window in the index: how many of the positive ones
/// stand in it, up to the first negative one, and whether a negative one does.
pub fn lookup_clues_in_window(
    clue_index: &[(usize, u16)],
    win_start: usize,
    win_end: usize,
    pos_ids: Option<&[u16]>,
    neg_ids: Option<&[u16]>,
) -> (r: (usize, bool))
    requires
        by_offset(clue_index@),
        rising(ids_of(pos_ids)),
        rising(ids_of(neg_ids)),
    ensures
        r.0 == window_clues(
            clue_index@,
            win_start as int,
            win_end as int,
            ids_of(pos_ids),
            ids_of(neg_ids),
        ).0,
        r.1 == window_clues(
            clue_index@,
            win_start as int,
            win_end as int,
            ids_of(pos_ids),
            ids_of(neg_ids),
        ).1,
{
    let ghost v = clue_index@;
    let ghost pos = ids_of(pos_ids);
    let ghost neg = ids_of(neg_ids);
    let lo: usize = lower_bound(clue_index, win_start);
    let hi: usize = lower_bound(clue_index, win_end);
    let n: usize = match pos_ids {
        Some(ids) => ids.len(),
        None => 0,
    };
    let mut seen: Vec<bool> = Vec::new();
    let mut i: usize = 0;
    while i < n
        invariant
            i <= n,
            seen@.len() == i,
            forall|k: int| 0 <= k < i ==> !#[trigger] seen@[k],
        decreases n - i,
    {
        seen.push(false);
        i = i + 1;
    }
    let mut count: usize = 0;
    let mut m: usize = lo;
    proof {
        lemma_count_none(n as int, held(v, pos, lo as int, lo as int));
    }
    while m < hi
        invariant
            v == clue_index@,
            pos == ids_of(pos_ids),
            neg == ids_of(neg_ids),
            n == pos.len(),
            rising(pos),
            rising(neg),
            lo <= m,
            hi <= v.len(),
            lo <= hi ==> m <= hi,
            lo > hi ==> m == lo,
            seen@.len() == n,
            lo == first_from(v, win_start as int, v.len() as int),
            hi == first_from(v, win_end as int, v.len() as int),
            first_listed(v, neg, m as int, hi as int) == first_listed(
                v,
                neg,
                lo as int,
                hi as int,
            ),
            count == distinct_listed(v, pos, lo as int, m as int),
            count <= m - lo,
            forall|k: int|
                0 <= k < n ==> #[trigger] seen@[k] == held(v, pos, lo as int, m as int)(k),
        decreases hi - m,
    {
        let id: u16 = clue_index[m].1;
        let ghost f = held(v, pos, lo as int, m as int);
        let ghost g = held(v, pos, lo as int, m + 1);
        let ghost was = seen@;
        let found: Option<usize> = match pos_ids {
            Some(ids) => place(ids, id),
            None => None,
        };
        proof {
            assert forall|k: int| 0 <= k < n && pos[k] != id implies #[trigger] f(k) == g(k) by {
                if g(k) {
                    let q = choose|q: int| lo <= q < m + 1 && (#[trigger] v[q]).1 == pos[k];
                    assert(v[q].1 == pos[k]);
                }
                if f(k) {
                    let q = choose|q: int| lo <= q < m && (#[trigger] v[q]).1 == pos[k];
                    assert(v[q].1 == pos[k]);
                }
            }
        }
        match found {
            Some(k) => {
                proof {
                    assert(g(k as int)) by {
                        assert(v[m as int].1 == pos[k as int]);
                    }
                    assert forall|j: int| 0 <= j < n && j != k implies pos[j] != id by {
                        if j < k {
                            assert(pos[j] < pos[k as int]);
                        } else {
                            assert(pos[k as int] < pos[j]);
                        }
                    }
                }
                if !seen[k] {
                    proof {
                        assert(was[k as int] == f(k as int));
                        lemma_count_flip(n as int, f, g, k as int);
                    }
                    seen.set(k, true);
                    count = count + 1;
                } else {
                    proof {
                        assert(was[k as int] == f(k as int));
                        assert forall|j: int| 0 <= j < n implies #[trigger] f(j) == g(j) by {}
                        lemma_count_same(n as int, f, g);
                    }
                }
            },
            None => {
                proof {
                    assert forall|j: int| 0 <= j < n implies #[trigger] f(j) == g(j) by {
                        assert(pos.contains(pos[j]));
                    }
                    lemma_count_same(n as int, f, g);
                }
            },
        }
        let negative: bool = match neg_ids {
            Some(ids) => {
                let at = place(ids, id);
                assert(at is Some == neg.contains(id)) by {
                    if at is Some {
                        assert(neg[at->0 as int] == id);
                    }
                }
                at.is_some()
            },
            None => false,
        };
        assert(negative == neg.contains(v[m as int].1));
        if negative {
            return (count, true);
        }
        m = m + 1;
    }
    proof {
        if lo > hi {
            lemma_count_none(n as int, held(v, pos, lo as int, lo as int));
            lemma_count_none(n as int, held(v, pos, lo as int, hi as int));
        }
    }
    (count, false)
}

} // verus!
