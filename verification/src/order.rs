//! Putting the entries of a list in order without moving them.
use vstd::prelude::*;
use vstd::set_lib::{lemma_int_range, lemma_len_subset, set_int_range};

verus! {

/// What an entry is ordered by: the first member, then the second, then the
/// third, smaller ones first.
#[derive(Clone, Copy, Debug, PartialEq, Eq, Structural)]
pub struct Rank {
    pub first: usize,
    pub second: usize,
    pub third: usize,
}

pub open spec fn rank_below(a: Rank, b: Rank) -> bool {
    a.first < b.first || (a.first == b.first && (a.second < b.second || (a.second == b.second
        && a.third < b.third)))
}

/// Entry `i` comes before entry `j`: by rank, and among equals by position.
pub open spec fn comes_before(ranks: Seq<Rank>, i: int, j: int) -> bool {
    rank_below(ranks[i], ranks[j]) || (ranks[i] == ranks[j] && i < j)
}

/// The list holds each index of `lo..hi`, in order.
pub open spec fn in_order(ranks: Seq<Rank>, order: Seq<usize>, lo: int, hi: int) -> bool {
    &&& order.len() == hi - lo
    &&& forall|k: int| 0 <= k < order.len() ==> lo <= (#[trigger] order[k]) < hi
    &&& forall|i: int| lo <= i < hi ==> #[trigger] order.contains(i as usize)
    &&& forall|k: int, m: int|
        0 <= k < m < order.len() ==> comes_before(
            ranks,
            (#[trigger] order[k]) as int,
            (#[trigger] order[m]) as int,
        )
}

fn is_before(ranks: &Vec<Rank>, i: usize, j: usize) -> (r: bool)
    requires
        i < ranks@.len(),
        j < ranks@.len(),
    ensures
        r == comes_before(ranks@, i as int, j as int),
{
    let a = ranks[i];
    let b = ranks[j];
    a.first < b.first || (a.first == b.first && (a.second < b.second || (a.second == b.second && (
    a.third < b.third || (a.third == b.third && i < j)))))
}

/// What is merged so far, from the first `i` of `a` and the first `j` of `b`.
spec fn merged(ranks: Seq<Rank>, a: Seq<usize>, b: Seq<usize>, i: int, j: int, out: Seq<usize>) -> bool {
    &&& 0 <= i <= a.len()
    &&& 0 <= j <= b.len()
    &&& out.len() == i + j
    &&& forall|k: int| 0 <= k < i ==> out.contains(#[trigger] a[k])
    &&& forall|k: int| 0 <= k < j ==> out.contains(#[trigger] b[k])
    &&& forall|k: int|
        0 <= k < out.len() ==> a.contains(#[trigger] out[k]) || b.contains(out[k])
    &&& forall|k: int, m: int|
        0 <= k < m < out.len() ==> comes_before(
            ranks,
            (#[trigger] out[k]) as int,
            (#[trigger] out[m]) as int,
        )
    &&& forall|k: int, m: int|
        0 <= k < out.len() && i <= m < a.len() ==> comes_before(
            ranks,
            (#[trigger] out[k]) as int,
            (#[trigger] a[m]) as int,
        )
    &&& forall|k: int, m: int|
        0 <= k < out.len() && j <= m < b.len() ==> comes_before(
            ranks,
            (#[trigger] out[k]) as int,
            (#[trigger] b[m]) as int,
        )
}

proof fn lemma_push_contains(s: Seq<usize>, x: usize)
    ensures
        s.push(x).contains(x),
        forall|y: usize| s.contains(y) ==> #[trigger] s.push(x).contains(y),
{
    assert(s.push(x)[s.len() as int] == x);
    assert forall|y: usize| s.contains(y) implies #[trigger] s.push(x).contains(y) by {
        let k = choose|k: int| 0 <= k < s.len() && s[k] == y;
        assert(s.push(x)[k] == y);
    }
}

fn merge(ranks: &Vec<Rank>, a: Vec<usize>, b: Vec<usize>, lo: usize, mid: usize, hi: usize) -> (r:
    Vec<usize>)
    requires
        lo <= mid <= hi <= ranks@.len(),
        in_order(ranks@, a@, lo as int, mid as int),
        in_order(ranks@, b@, mid as int, hi as int),
    ensures
        in_order(ranks@, r@, lo as int, hi as int),
{
    let mut out: Vec<usize> = Vec::new();
    let mut i: usize = 0;
    let mut j: usize = 0;
    while i < a.len() || j < b.len()
        invariant
            lo <= mid <= hi <= ranks@.len(),
            in_order(ranks@, a@, lo as int, mid as int),
            in_order(ranks@, b@, mid as int, hi as int),
            merged(ranks@, a@, b@, i as int, j as int, out@),
        decreases a@.len() - i + b@.len() - j,
    {
        let ghost before = out@;
        if j >= b.len() || (i < a.len() && is_before(ranks, a[i], b[j])) {
            proof {
                lemma_push_contains(out@, a@[i as int]);
                assert(a@.contains(a@[i as int]));
            }
            out.push(a[i]);
            i = i + 1;
        } else {
            proof {
                lemma_push_contains(out@, b@[j as int]);
                assert(b@.contains(b@[j as int]));
            }
            out.push(b[j]);
            j = j + 1;
        }
        assert(merged(ranks@, a@, b@, i as int, j as int, out@));
    }
    proof {
        assert forall|x: int| lo <= x < hi implies #[trigger] out@.contains(x as usize) by {
            if x < mid {
                assert(a@.contains(x as usize));
            } else {
                assert(b@.contains(x as usize));
            }
        }
    }
    out
}

fn sort_range(ranks: &Vec<Rank>, lo: usize, hi: usize) -> (r: Vec<usize>)
    requires
        lo <= hi <= ranks@.len(),
    ensures
        in_order(ranks@, r@, lo as int, hi as int),
    decreases hi - lo,
{
    let mut out: Vec<usize> = Vec::new();
    if hi == lo {
        return out;
    }
    if hi - lo == 1 {
        out.push(lo);
        assert(out@[0] == lo);
        return out;
    }
    let mid: usize = lo + (hi - lo) / 2;
    let a = sort_range(ranks, lo, mid);
    let b = sort_range(ranks, mid, hi);
    merge(ranks, a, b, lo, mid, hi)
}

/// The indices of the list, in order.
pub fn sorted(ranks: &Vec<Rank>) -> (r: Vec<usize>)
    ensures
        in_order(ranks@, r@, 0, ranks@.len() as int),
{
    sort_range(ranks, 0, ranks.len())
}

/// The entries of a list in the order of the indices.
pub open spec fn arranged<T>(v: Seq<T>, order: Seq<usize>) -> Seq<T> {
    Seq::new(order.len(), |k: int| v[order[k] as int])
}

/// Puts the entries of a list in the order of the indices.
pub fn arrange<T>(v: &mut Vec<T>, order: &Vec<usize>)
    requires
        order@.len() == old(v)@.len(),
        forall|k: int| 0 <= k < order@.len() ==> (#[trigger] order@[k]) < order@.len(),
        forall|k: int, m: int|
            0 <= k < m < order@.len() ==> (#[trigger] order@[k]) != (#[trigger] order@[m]),
    ensures
        final(v)@ == arranged(old(v)@, order@),
{
    let ghost all = v@;
    let n: usize = order.len();
    let mut slots: Vec<Option<T>> = Vec::new();
    let mut i: usize = n;
    while i > 0
        invariant
            n == all.len(),
            i <= n,
            v@ == all.subrange(0, i as int),
            slots@.len() == n - i,
            forall|k: int| 0 <= k < slots@.len() ==> #[trigger] slots@[k] == Some(all[n - 1 - k]),
        decreases i,
    {
        i = i - 1;
        let x = v.pop();
        assert(v@ =~= all.subrange(0, i as int));
        slots.push(x);
    }
    let mut k: usize = 0;
    while k < n
        invariant
            n == all.len(),
            n == order@.len(),
            k <= n,
            slots@.len() == n,
            forall|m: int| 0 <= m < n ==> (#[trigger] order@[m]) < n,
            forall|a: int, b: int|
                0 <= a < b < n ==> (#[trigger] order@[a]) != (#[trigger] order@[b]),
            forall|m: int|
                k <= m < n ==> slots@[n - 1 - (#[trigger] order@[m])] == Some(
                    all[order@[m] as int],
                ),
            v@.len() == k,
            forall|m: int| 0 <= m < k ==> #[trigger] v@[m] == all[order@[m] as int],
        decreases n - k,
    {
        let at: usize = n - 1 - order[k];
        let mut taken: Option<T> = None;
        slots.set_and_swap(at, &mut taken);
        if let Some(x) = taken {
            v.push(x);
        }
        k = k + 1;
    }
    assert(v@ =~= arranged(all, order@));
}

/// There is one way to put a list in order.
pub proof fn law_order_is_determined(ranks: Seq<Rank>, a: Seq<usize>, b: Seq<usize>)
    requires
        in_order(ranks, a, 0, ranks.len() as int),
        in_order(ranks, b, 0, ranks.len() as int),
    ensures
        a == b,
{
    lemma_order_fits(ranks, a, ranks.len() as int);
    lemma_orders_agree(ranks, a, b, ranks.len() as int);
    assert(a =~= b);
}

/// A list of machine integers, each once, is no longer than there are such
/// integers.
pub proof fn lemma_order_fits(ranks: Seq<Rank>, order: Seq<usize>, n: int)
    requires
        in_order(ranks, order, 0, n),
    ensures
        n <= usize::MAX + 1,
{
    let ints = order.map_values(|x: usize| x as int);
    assert forall|i: int, j: int| 0 <= i < ints.len() && 0 <= j < ints.len() && i
        != j implies ints[i] != ints[j] by {
        if i < j {
            assert(comes_before(ranks, order[i] as int, order[j] as int));
        } else {
            assert(comes_before(ranks, order[j] as int, order[i] as int));
        }
    }
    ints.unique_seq_to_set();
    lemma_int_range(0, usize::MAX + 1);
    assert(ints.to_set().subset_of(set_int_range(0, usize::MAX + 1)));
    lemma_len_subset(ints.to_set(), set_int_range(0, usize::MAX + 1));
}

proof fn lemma_orders_agree(ranks: Seq<Rank>, a: Seq<usize>, b: Seq<usize>, n: int)
    requires
        ranks.len() <= usize::MAX + 1,
        in_order(ranks, a, 0, ranks.len() as int),
        in_order(ranks, b, 0, ranks.len() as int),
        0 <= n <= ranks.len(),
    ensures
        forall|k: int| 0 <= k < n ==> a[k] == b[k],
    decreases n,
{
    if n > 0 {
        lemma_orders_agree(ranks, a, b, n - 1);
        let (x, y) = (a[n - 1], b[n - 1]);
        assert(b.contains(x as int as usize));
        assert(a.contains(y as int as usize));
        let p = choose|p: int| 0 <= p < b.len() && b[p] == x;
        let q = choose|q: int| 0 <= q < a.len() && a[q] == y;
        if x != y {
            if p < n - 1 {
                assert(comes_before(ranks, a[p] as int, a[n - 1] as int));
            }
            if q < n - 1 {
                assert(comes_before(ranks, b[q] as int, b[n - 1] as int));
            }
            assert(comes_before(ranks, b[n - 1] as int, b[p] as int));
            assert(comes_before(ranks, a[n - 1] as int, a[q] as int));
        }
    }
}

} // verus!
