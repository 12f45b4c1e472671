//! What stands where in a text.
use vstd::prelude::*;

use crate::emit::{hits, overlaps, span_excluded, ByteRange};
use crate::text::{
    byte_pos, contains_in, count_where, find_in, first_entry_in, lemma_byte_pos_monotone,
    lemma_find_in, next_of, occurs_at,
};

verus! {

/// The characters `x` stand in `t` at `p`.
pub open spec fn reads(t: Seq<char>, p: int, x: Seq<char>) -> bool {
    &&& 0 <= p
    &&& p + x.len() <= t.len()
    &&& forall|i: int| 0 <= i < x.len() ==> t[p + i] == #[trigger] x[i]
}

/// The characters `x` begin nowhere within `from..to`.
pub open spec fn absent(t: Seq<char>, x: Seq<char>, from: int, to: int) -> bool {
    forall|r: int| from <= r < to ==> !#[trigger] reads(t, r, x)
}

/// No excluded range reaches into the characters `from..to`.
pub open spec fn untouched(t: Seq<char>, ex: Seq<ByteRange>, from: int, to: int) -> bool {
    forall|k: int|
        0 <= k < ex.len() ==> (#[trigger] ex[k]).end <= byte_pos(t, from) || ex[k].start >= byte_pos(
            t,
            to,
        )
}

pub proof fn lemma_reads(t: Seq<char>, p: int, x: Seq<char>)
    ensures
        reads(t, p, x) == occurs_at(t, x, p),
{
    if occurs_at(t, x, p) {
        assert forall|i: int| 0 <= i < x.len() implies t[p + i] == #[trigger] x[i] by {
            assert(t.subrange(p, p + x.len())[i] == t[p + i]);
        }
    }
    if reads(t, p, x) {
        assert(t.subrange(p, p + x.len()) =~= x);
    }
}

pub proof fn lemma_untouched(t: Seq<char>, ex: Seq<ByteRange>, from: int, to: int, a: int, b: int)
    requires
        0 <= from <= a <= b <= to <= t.len(),
        untouched(t, ex, from, to),
    ensures
        !span_excluded(t, ex, a, b),
{
    lemma_byte_pos_monotone(t, from, a);
    lemma_byte_pos_monotone(t, b, to);
    if span_excluded(t, ex, a, b) {
        let k = choose|k: int|
            0 <= k < ex.len() && #[trigger] overlaps(ex[k], byte_pos(t, a), byte_pos(t, b));
        assert(ex[k].end <= byte_pos(t, from) || ex[k].start >= byte_pos(t, to));
    }
}

/// What a search through a table finds.
pub proof fn lemma_first_entry(
    t: Seq<char>,
    table: Seq<&'static str>,
    k: int,
    from: int,
    to: int,
)
    requires
        0 <= k <= table.len(),
        0 <= from,
        to <= t.len(),
    ensures
        match first_entry_in(t, table, k, from, to) {
            Some((c, q)) => k <= c < table.len() && from <= q && q + table[c]@.len() <= to
                && occurs_at(t, table[c]@, q),
            None => forall|c: int, q: int|
                k <= c < table.len() && from <= q && q + table[c]@.len() <= to
                    ==> !#[trigger] occurs_at(t, table[c]@, q),
        },
    decreases table.len() - k,
{
    if k < table.len() {
        lemma_find_in(t, table[k]@, from, to);
        if find_in(t, table[k]@, from, to) is None {
            lemma_first_entry(t, table, k + 1, from, to);
            if first_entry_in(t, table, k, from, to) is None {
                assert forall|c: int, q: int|
                    k <= c < table.len() && from <= q && q + table[c]@.len()
                        <= to implies !#[trigger] occurs_at(t, table[c]@, q) by {
                    if c > k {
                    }
                }
            }
        }
    }
}

/// The first place of a word is what a search for it finds.
pub proof fn lemma_first_read(t: Seq<char>, x: Seq<char>, from: int, to: int, p: int)
    requires
        0 <= from <= p,
        p + x.len() <= to <= t.len(),
        reads(t, p, x),
        forall|r: int| from <= r < p ==> !#[trigger] reads(t, r, x),
    ensures
        find_in(t, x, from, to) == Some(p),
        occurs_at(t, x, p),
        forall|r: int| from <= r < p ==> !#[trigger] occurs_at(t, x, r),
{
    lemma_find_in(t, x, from, to);
    lemma_reads(t, p, x);
    assert forall|r: int| from <= r < p implies !#[trigger] occurs_at(t, x, r) by {
        lemma_reads(t, r, x);
        assert(!reads(t, r, x));
    }
}

/// A word that stands somewhere is found.
pub proof fn lemma_read_found(t: Seq<char>, x: Seq<char>, from: int, to: int, p: int)
    requires
        0 <= from <= p,
        p + x.len() <= to <= t.len(),
        reads(t, p, x),
    ensures
        contains_in(t, x, from, to),
        find_in(t, x, from, to) is Some,
        find_in(t, x, from, to)->0 <= p,
{
    lemma_find_in(t, x, from, to);
    lemma_reads(t, p, x);
}

/// A word that stands nowhere is not found.
pub proof fn lemma_read_nowhere(t: Seq<char>, x: Seq<char>, from: int, to: int)
    requires
        0 <= from,
        to <= t.len(),
        forall|r: int| from <= r && r + x.len() <= to ==> !#[trigger] reads(t, r, x),
    ensures
        find_in(t, x, from, to) is None,
{
    lemma_find_in(t, x, from, to);
    if let Some(p) = find_in(t, x, from, to) {
        lemma_reads(t, p, x);
        assert(reads(t, p, x));
    }
}

/// The first of the listed characters.
pub proof fn lemma_next_is(t: Seq<char>, list: Seq<char>, from: int, to: int, q: int)
    requires
        from <= q <= to,
        q < to ==> list.contains(t[q]),
        forall|r: int| from <= r < q ==> !list.contains(#[trigger] t[r]),
    ensures
        next_of(t, list, from, to) == q,
    decreases q - from,
{
    if from < q {
        assert(!list.contains(t[from]));
        lemma_next_is(t, list, from + 1, to, q);
    }
}

/// The next hit of a needle, where its first occurrence is not excluded.
pub proof fn lemma_hits_first(
    t: Seq<char>,
    ex: Seq<ByteRange>,
    x: Seq<char>,
    from: int,
    to: int,
    p: int,
)
    requires
        0 <= from <= p,
        x.len() > 0,
        p + x.len() <= to <= t.len(),
        reads(t, p, x),
        forall|r: int| from <= r < p ==> !#[trigger] reads(t, r, x),
        !span_excluded(t, ex, p, p + x.len()),
    ensures
        hits(t, ex, x, from, to) == seq![p] + hits(t, ex, x, p + x.len(), to),
{
    lemma_first_read(t, x, from, to, p);
}

/// A needle that stands nowhere has no hits.
pub proof fn lemma_hits_none(t: Seq<char>, ex: Seq<ByteRange>, x: Seq<char>, from: int, to: int)
    requires
        0 <= from,
        to <= t.len(),
        forall|r: int| from <= r && r + x.len() <= to ==> !#[trigger] reads(t, r, x),
    ensures
        hits(t, ex, x, from, to).len() == 0,
{
    lemma_read_nowhere(t, x, from, to);
}

/// Every hit is an occurrence outside the excluded ranges.
pub proof fn lemma_hits_are(t: Seq<char>, ex: Seq<ByteRange>, x: Seq<char>, from: int, to: int)
    requires
        0 <= from,
        to <= t.len(),
        x.len() > 0,
    ensures
        forall|k: int|
            0 <= k < hits(t, ex, x, from, to).len() ==> {
                let p = #[trigger] hits(t, ex, x, from, to)[k];
                from <= p && p + x.len() <= to && occurs_at(t, x, p) && !span_excluded(
                    t,
                    ex,
                    p,
                    p + x.len(),
                )
            },
    decreases to - from,
{
    lemma_find_in(t, x, from, to);
    if let Some(p) = find_in(t, x, from, to) {
        let end = p + x.len();
        lemma_hits_are(t, ex, x, end, to);
        let rest = hits(t, ex, x, end, to);
        let now = hits(t, ex, x, from, to);
        assert forall|k: int| 0 <= k < now.len() implies ({
            let p = #[trigger] now[k];
            from <= p && p + x.len() <= to && occurs_at(t, x, p) && !span_excluded(
                t,
                ex,
                p,
                p + x.len(),
            )
        }) by {
            if !span_excluded(t, ex, p, end) {
                if k > 0 {
                    assert(now[k] == rest[k - 1]);
                }
            } else {
                assert(now[k] == rest[k]);
            }
        }
    }
}

/// A place outside the excluded ranges that overlaps no earlier occurrence is
/// among the hits.
pub proof fn lemma_hits_hold(
    t: Seq<char>,
    ex: Seq<ByteRange>,
    x: Seq<char>,
    from: int,
    to: int,
    p: int,
)
    requires
        0 <= from <= p,
        x.len() > 0,
        p + x.len() <= to <= t.len(),
        reads(t, p, x),
        forall|r: int| p - x.len() < r < p ==> !#[trigger] reads(t, r, x),
        !span_excluded(t, ex, p, p + x.len()),
    ensures
        hits(t, ex, x, from, to).contains(p),
        hits(t, ex, x, from, to).len() > 0,
    decreases to - from,
{
    lemma_find_in(t, x, from, to);
    lemma_reads(t, p, x);
    let q = find_in(t, x, from, to)->0;
    let end = q + x.len();
    let rest = hits(t, ex, x, end, to);
    let now = hits(t, ex, x, from, to);
    if q < p {
        if q > p - x.len() {
            lemma_reads(t, q, x);
            assert(!reads(t, q, x));
        }
        lemma_hits_hold(t, ex, x, end, to, p);
        let k = choose|k: int| 0 <= k < rest.len() && rest[k] == p;
        if span_excluded(t, ex, q, end) {
            assert(now[k] == p);
        } else {
            assert(now[k + 1] == p);
        }
    } else {
        assert(now[0] == p);
    }
}

/// A word whose first character stands nowhere else in it does not overlap
/// itself.
pub proof fn lemma_no_overlap(t: Seq<char>, x: Seq<char>, p: int)
    requires
        reads(t, p, x),
        x.len() > 0,
        forall|i: int| 0 < i < x.len() ==> #[trigger] x[i] != x[0],
    ensures
        forall|r: int| p - x.len() < r < p ==> !#[trigger] reads(t, r, x),
{
    assert forall|r: int| p - x.len() < r < p implies !#[trigger] reads(t, r, x) by {
        if reads(t, r, x) {
            assert(t[r + (p - r)] == x[p - r]);
            assert(t[p + 0] == x[0]);
        }
    }
}

/// All of them are counted, where all satisfy the predicate.
pub proof fn lemma_count_all(from: int, to: int, f: spec_fn(int) -> bool)
    requires
        from <= to,
        forall|i: int| from <= i < to ==> #[trigger] f(i),
    ensures
        count_where(from, to, f) == to - from,
    decreases to - from,
{
    if from < to {
        lemma_count_all(from, to - 1, f);
        assert(f(to - 1));
    }
}

/// None is counted, where none satisfies the predicate.
pub proof fn lemma_count_none(from: int, to: int, f: spec_fn(int) -> bool)
    requires
        forall|i: int| from <= i < to ==> !#[trigger] f(i),
    ensures
        count_where(from, to, f) == 0,
    decreases to - from,
{
    if from < to {
        lemma_count_none(from, to - 1, f);
        assert(!f(to - 1));
    }
}

/// A character that stands nowhere is read nowhere.
pub proof fn lemma_absent_char(t: Seq<char>, c: char, from: int, to: int)
    requires
        forall|r: int| from <= r < to ==> #[trigger] t[r] != c,
    ensures
        absent(t, seq![c], from, to),
{
    let x = seq![c];
    assert forall|r: int| from <= r < to implies !#[trigger] reads(t, r, x) by {
        if reads(t, r, x) {
            assert(t[r + 0] == x[0]);
        }
    }
}

} // verus!
