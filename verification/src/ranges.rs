//! Lists of byte ranges and the bytes that they cover.
use vstd::prelude::*;

use crate::emit::ByteRange;
use crate::order::{sorted, Rank};

verus! {

/// The byte lies in the range.
pub open spec fn holds(r: ByteRange, b: int) -> bool {
    r.start <= b < r.end
}

/// The byte lies in one of the ranges.
pub open spec fn covers(v: Seq<ByteRange>, b: int) -> bool {
    exists|k: int| 0 <= k < v.len() && #[trigger] holds(v[k], b)
}

/// The ranges are not empty, stand in order, and a byte lies between any two.
pub open spec fn separate(v: Seq<ByteRange>) -> bool {
    &&& forall|i: int| 0 <= i < v.len() ==> (#[trigger] v[i]).start < v[i].end
    &&& forall|i: int, j: int|
        0 <= i < j < v.len() ==> (#[trigger] v[i]).end < (#[trigger] v[j]).start
}

/// Two lists cover the same bytes.
pub open spec fn same_cover(a: Seq<ByteRange>, b: Seq<ByteRange>) -> bool {
    forall|x: int| #[trigger] covers(a, x) == covers(b, x)
}

spec fn covered_by_first(v: Seq<ByteRange>, order: Seq<usize>, n: int, b: int) -> bool {
    exists|j: int| 0 <= j < n && #[trigger] holds(v[order[j] as int], b)
}

proof fn lemma_covered_next(v: Seq<ByteRange>, order: Seq<usize>, n: int, b: int)
    requires
        0 <= n < order.len(),
    ensures
        covered_by_first(v, order, n + 1, b) == (covered_by_first(v, order, n, b) || holds(
            v[order[n] as int],
            b,
        )),
{
    if covered_by_first(v, order, n, b) {
        let j = choose|j: int| 0 <= j < n && #[trigger] holds(v[order[j] as int], b);
        assert(holds(v[order[j] as int], b));
    }
}

/// Adds a range that begins no earlier than the last one.
fn absorb(out: &mut Vec<ByteRange>, r: ByteRange)
    requires
        separate(old(out)@),
        forall|k: int| 0 <= k < old(out)@.len() ==> (#[trigger] old(out)@[k]).start <= r.start,
    ensures
        separate(final(out)@),
        forall|b: int| #[trigger]
            covers(final(out)@, b) == (covers(old(out)@, b) || holds(r, b)),
        forall|k: int| 0 <= k < final(out)@.len() ==> (#[trigger] final(out)@[k]).start <= r.start,
{
    let ghost before = out@;
    if r.start >= r.end {
        return ;
    }
    let n: usize = out.len();
    if n > 0 && r.start <= out[n - 1].end {
        let last = out[n - 1];
        if r.end > last.end {
            let wider = ByteRange { start: last.start, end: r.end };
            out.set(n - 1, wider);
            proof {
                assert forall|b: int| #[trigger]
                    covers(out@, b) == (covers(before, b) || holds(r, b)) by {
                    if covers(out@, b) {
                        let k = choose|k: int| 0 <= k < out@.len() && #[trigger] holds(out@[k], b);
                        if k < n - 1 {
                            assert(holds(before[k], b));
                        } else if b < last.end {
                            assert(holds(before[n - 1], b));
                        }
                    }
                    if covers(before, b) {
                        let k = choose|k: int|
                            0 <= k < before.len() && #[trigger] holds(before[k], b);
                        assert(holds(out@[k], b));
                    }
                    if holds(r, b) {
                        assert(holds(out@[n - 1], b));
                    }
                }
            }
        } else {
            proof {
                assert forall|b: int| #[trigger]
                    covers(out@, b) == (covers(before, b) || holds(r, b)) by {
                    if holds(r, b) {
                        assert(holds(before[n - 1], b));
                    }
                }
            }
        }
    } else {
        out.push(r);
        proof {
            assert forall|b: int| #[trigger]
                covers(out@, b) == (covers(before, b) || holds(r, b)) by {
                if covers(out@, b) {
                    let k = choose|k: int| 0 <= k < out@.len() && #[trigger] holds(out@[k], b);
                    if k < n {
                        assert(holds(before[k], b));
                    }
                }
                if covers(before, b) {
                    let k = choose|k: int| 0 <= k < before.len() && #[trigger] holds(before[k], b);
                    assert(holds(out@[k], b));
                }
                if holds(r, b) {
                    assert(holds(out@[n as int], b));
                }
            }
            assert forall|i: int, j: int| 0 <= i < j < out@.len() implies (#[trigger] out@[i]).end
                < (#[trigger] out@[j]).start by {
                if j == n && i < n - 1 {
                    assert(before[i].end < before[n - 1].start);
                }
            }
        }
    }
}

/// Sorts the ranges and joins those that touch or overlap. The empty ones
/// drop out.
pub fn merge_ranges(ranges: &Vec<ByteRange>) -> (r: Vec<ByteRange>)
    ensures
        separate(r@),
        same_cover(r@, ranges@),
{
    let n: usize = ranges.len();
    let mut ranks: Vec<Rank> = Vec::new();
    let mut i: usize = 0;
    while i < n
        invariant
            n == ranges@.len(),
            i <= n,
            ranks@.len() == i,
            forall|k: int| 0 <= k < i ==> (#[trigger] ranks@[k]).first == ranges@[k].start,
        decreases n - i,
    {
        ranks.push(Rank { first: ranges[i].start, second: ranges[i].end, third: 0 });
        i = i + 1;
    }
    let order = sorted(&ranks);
    let mut out: Vec<ByteRange> = Vec::new();
    let mut k: usize = 0;
    while k < n
        invariant
            n == ranges@.len(),
            k <= n,
            ranks@.len() == n,
            order@.len() == n,
            forall|m: int| 0 <= m < n ==> (#[trigger] order@[m]) < n,
            forall|m: int| 0 <= m < n ==> (#[trigger] ranks@[m]).first == ranges@[m].start,
            forall|a: int, b: int|
                0 <= a < b < n ==> ranges@[(#[trigger] order@[a]) as int].start
                    <= ranges@[(#[trigger] order@[b]) as int].start,
            separate(out@),
            forall|m: int|
                0 <= m < out@.len() && k > 0 ==> (#[trigger] out@[m]).start
                    <= ranges@[order@[k - 1] as int].start,
            k == 0 ==> out@.len() == 0,
            forall|b: int| #[trigger]
                covers(out@, b) == covered_by_first(ranges@, order@, k as int, b),
        decreases n - k,
    {
        let ghost before = out@;
        let r = ranges[order[k]];
        proof {
            if k > 0 {
                assert(ranges@[order@[k - 1] as int].start <= ranges@[order@[k as int] as int].start);
            }
        }
        absorb(&mut out, r);
        proof {
            assert forall|b: int| #[trigger]
                covers(out@, b) == covered_by_first(ranges@, order@, k + 1, b) by {
                lemma_covered_next(ranges@, order@, k as int, b);
                assert(covers(before, b) == covered_by_first(ranges@, order@, k as int, b));
            }
        }
        k = k + 1;
    }
    proof {
        assert forall|b: int| #[trigger] covers(out@, b) == covers(ranges@, b) by {
            if covered_by_first(ranges@, order@, n as int, b) {
                let j = choose|j: int| 0 <= j < n && #[trigger] holds(ranges@[order@[j] as int], b);
                assert(holds(ranges@[order@[j] as int], b));
            }
            if covers(ranges@, b) {
                let m = choose|m: int| 0 <= m < n && #[trigger] holds(ranges@[m], b);
                assert(order@.contains(m as usize));
                let j = choose|j: int| 0 <= j < order@.len() && order@[j] == m as usize;
                assert(holds(ranges@[order@[j] as int], b));
            }
        }
    }
    out
}

proof fn lemma_agree_so_far(a: Seq<ByteRange>, b: Seq<ByteRange>, n: int)
    requires
        separate(a),
        separate(b),
        same_cover(a, b),
        0 <= n <= a.len(),
        n <= b.len(),
        forall|k: int| 0 <= k < n ==> a[k] == b[k],
        n < a.len(),
    ensures
        n < b.len(),
        b[n].start <= a[n].start,
{
    let x = a[n].start as int;
    assert(holds(a[n], x));
    assert(covers(a, x));
    assert(covers(b, x));
    let m = choose|m: int| 0 <= m < b.len() && #[trigger] holds(b[m], x);
    if m < n {
        assert(a[m] == b[m]);
        assert(a[m].end < a[n].start);
    }
    if n < m {
        assert(b[n].end < b[m].start);
    }
}

proof fn lemma_ends_agree(a: Seq<ByteRange>, b: Seq<ByteRange>, n: int)
    requires
        separate(a),
        separate(b),
        same_cover(a, b),
        0 <= n < a.len(),
        n < b.len(),
        a[n].start == b[n].start,
    ensures
        a[n].end >= b[n].end,
{
    if a[n].end < b[n].end {
        let x = a[n].end as int;
        assert(holds(b[n], x));
        assert(covers(b, x));
        assert(covers(a, x));
        let m = choose|m: int| 0 <= m < a.len() && #[trigger] holds(a[m], x);
        if m < n {
            assert(a[m].end < a[n].start);
        } else if m > n {
            assert(a[n].end < a[m].start);
        }
    }
}

proof fn lemma_determined(a: Seq<ByteRange>, b: Seq<ByteRange>, n: int)
    requires
        separate(a),
        separate(b),
        same_cover(a, b),
        0 <= n,
    ensures
        n <= a.len() ==> n <= b.len(),
        n <= b.len() ==> n <= a.len(),
        forall|k: int| 0 <= k < n && k < a.len() ==> a[k] == b[k],
    decreases n,
{
    if n > 0 {
        lemma_determined(a, b, n - 1);
        assert(same_cover(b, a)) by {
            assert forall|x: int| #[trigger] covers(b, x) == covers(a, x) by {
                assert(covers(a, x) == covers(b, x));
            }
        }
        if n <= a.len() {
            lemma_agree_so_far(a, b, n - 1);
        }
        if n <= b.len() {
            lemma_agree_so_far(b, a, n - 1);
        }
        if n <= a.len() {
            lemma_ends_agree(a, b, n - 1);
            lemma_ends_agree(b, a, n - 1);
        }
    }
}

/// The merged form of a list is determined by the bytes that it covers: in
/// particular the order of the list, and what stands twice in it, do not
/// matter.
pub proof fn law_merged_form_is_determined(a: Seq<ByteRange>, b: Seq<ByteRange>)
    requires
        separate(a),
        separate(b),
        same_cover(a, b),
    ensures
        a == b,
{
    lemma_determined(a, b, a.len() as int);
    lemma_determined(a, b, b.len() as int);
    assert(a =~= b);
}

} // verus!
