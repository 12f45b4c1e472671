//! Taking entries out of a list.
use vstd::prelude::*;

use crate::issue::{models, Issue};

verus! {

/// Those of the first `n` entries that are marked, in order.
pub open spec fn kept<T>(v: Seq<T>, keep: Seq<bool>, n: int) -> Seq<T>
    decreases n,
{
    if n <= 0 {
        Seq::empty()
    } else if keep[n - 1] {
        kept(v, keep, n - 1).push(v[n - 1])
    } else {
        kept(v, keep, n - 1)
    }
}

/// What the marked findings say.
pub proof fn lemma_kept_models(v: Seq<Issue>, keep: Seq<bool>, n: int)
    requires
        0 <= n <= v.len(),
    ensures
        models(kept(v, keep, n)) == kept(models(v), keep, n),
    decreases n,
{
    if n > 0 {
        lemma_kept_models(v, keep, n - 1);
        if keep[n - 1] {
            assert(models(kept(v, keep, n - 1).push(v[n - 1])) =~= models(
                kept(v, keep, n - 1),
            ).push(models(v)[n - 1]));
        }
    }
    assert(models(kept(v, keep, n)) =~= kept(models(v), keep, n));
}

/// Each entry that is left is one that was marked.
pub proof fn lemma_kept_origin<T>(v: Seq<T>, keep: Seq<bool>, n: int) -> (at: Seq<int>)
    requires
        0 <= n <= v.len(),
        keep.len() == v.len(),
    ensures
        at.len() == kept(v, keep, n).len(),
        forall|a: int|
            0 <= a < at.len() ==> 0 <= (#[trigger] at[a]) < n && keep[at[a]] && kept(v, keep, n)[a]
                == v[at[a]],
        forall|a: int, b: int| 0 <= a < b < at.len() ==> (#[trigger] at[a]) < (#[trigger] at[b]),
    decreases n,
{
    if n <= 0 {
        Seq::empty()
    } else {
        let before = lemma_kept_origin(v, keep, n - 1);
        if keep[n - 1] {
            before.push(n - 1)
        } else {
            before
        }
    }
}

/// A marked entry is left.
pub proof fn lemma_kept_contains<T>(v: Seq<T>, keep: Seq<bool>, n: int, i: int)
    requires
        0 <= i < n <= v.len(),
        keep.len() == v.len(),
        keep[i],
    ensures
        kept(v, keep, n).contains(v[i]),
    decreases n,
{
    let before = kept(v, keep, n - 1);
    if i == n - 1 {
        assert(before.push(v[i])[before.len() as int] == v[i]);
    } else {
        lemma_kept_contains(v, keep, n - 1, i);
        let k = choose|k: int| 0 <= k < before.len() && before[k] == v[i];
        if keep[n - 1] {
            assert(before.push(v[n - 1])[k] == v[i]);
        }
    }
}

/// A list of entries taken out of the end of another, put back the right way
/// round.
proof fn lemma_reverse_push<T>(back: Seq<T>, x: T)
    ensures
        back.push(x).reverse() == seq![x] + back.reverse(),
{
    assert(back.push(x).reverse() =~= seq![x] + back.reverse());
}

/// Takes out the entries that are not marked.
pub fn retain<T>(v: &mut Vec<T>, keep: &Vec<bool>)
    requires
        keep@.len() == old(v)@.len(),
    ensures
        final(v)@ == kept(old(v)@, keep@, old(v)@.len() as int),
{
    let ghost all = v@;
    let ghost n = v@.len() as int;
    let mut back: Vec<T> = Vec::new();
    let mut i: usize = v.len();
    assert(v@ =~= all.subrange(0, i as int));
    while i > 0
        invariant
            keep@.len() == all.len(),
            n == all.len(),
            i <= n,
            v@ == all.subrange(0, i as int),
            kept(all, keep@, i as int) + back@.reverse() =~= kept(all, keep@, n),
        decreases i,
    {
        i = i - 1;
        if let Some(x) = v.pop() {
            assert(x == all[i as int]);
            if keep[i] {
                proof {
                    lemma_reverse_push(back@, x);
                }
                back.push(x);
            }
        }
        assert(v@ =~= all.subrange(0, i as int));
    }
    let mut m: usize = back.len();
    while m > 0
        invariant
            m == back@.len(),
            v@ + back@.reverse() =~= kept(all, keep@, n),
        decreases m,
    {
        m = m - 1;
        let ghost before = back@;
        if let Some(x) = back.pop() {
            proof {
                assert(before =~= back@.push(x));
                lemma_reverse_push(back@, x);
            }
            v.push(x);
        }
    }
}

} // verus!
