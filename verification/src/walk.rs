//! Findings put together: one entry after another, one occurrence after
//! another.
use vstd::prelude::*;

use crate::issue::{IssueModel, PhaseFamily, PhasePass, StructuralFamily};
use crate::text::{find_in, lemma_find_in, occurs_at};

verus! {

/// What the first `n` entries yield, one after another.
pub open spec fn each(n: int, f: spec_fn(int) -> Seq<IssueModel>) -> Seq<IssueModel>
    decreases n,
{
    if n <= 0 {
        Seq::empty()
    } else {
        each(n - 1, f) + f(n - 1)
    }
}

/// The single finding, where there is one.
pub open spec fn if_so(b: bool, issue: IssueModel) -> Seq<IssueModel> {
    if b {
        seq![issue]
    } else {
        Seq::empty()
    }
}

/// Walks the occurrences of the needle within `from..to`. For the occurrence
/// at `p`, `step(p)` says where the search goes on and what is reported.
pub open spec fn walk(
    t: Seq<char>,
    needle: Seq<char>,
    from: int,
    to: int,
    step: spec_fn(int) -> (int, Seq<IssueModel>),
) -> Seq<IssueModel>
    decreases to - from,
{
    match find_in(t, needle, from, to) {
        None => Seq::empty(),
        Some(p) => {
            let next = step(p).0;
            if from < next <= to {
                step(p).1 + walk(t, needle, next, to, step)
            } else {
                step(p).1
            }
        },
    }
}

/// The predicate holds of every finding.
pub open spec fn all_are(v: Seq<IssueModel>, p: spec_fn(IssueModel) -> bool) -> bool {
    forall|i: int| 0 <= i < v.len() ==> p(#[trigger] v[i])
}

/// What holds of what each entry yields holds of all of it.
pub proof fn lemma_each_are(
    n: int,
    f: spec_fn(int) -> Seq<IssueModel>,
    p: spec_fn(IssueModel) -> bool,
)
    requires
        forall|k: int| 0 <= k < n ==> all_are(#[trigger] f(k), p),
    ensures
        all_are(each(n, f), p),
    decreases n,
{
    if n > 0 {
        lemma_each_are(n - 1, f, p);
        let (a, b) = (each(n - 1, f), f(n - 1));
        assert forall|i: int| 0 <= i < (a + b).len() implies p(#[trigger] (a + b)[i]) by {
            if i < a.len() {
                assert((a + b)[i] == a[i]);
            } else {
                assert((a + b)[i] == b[i - a.len()]);
            }
        }
    }
}

/// A finding is that of some entry.
pub proof fn lemma_each_source(n: int, f: spec_fn(int) -> Seq<IssueModel>, k: int) -> (i: int)
    requires
        0 <= k < each(n, f).len(),
    ensures
        0 <= i < n,
        f(i).contains(each(n, f)[k]),
    decreases n,
{
    let a = each(n - 1, f);
    if k < a.len() {
        assert(each(n, f)[k] == a[k]);
        lemma_each_source(n - 1, f, k)
    } else {
        assert(each(n, f)[k] == f(n - 1)[k - a.len()]);
        n - 1
    }
}

/// What an entry yields is among the findings.
pub proof fn lemma_each_holds(n: int, f: spec_fn(int) -> Seq<IssueModel>, i: int, j: int) -> (k: int)
    requires
        0 <= i < n,
        0 <= j < f(i).len(),
    ensures
        0 <= k < each(n, f).len(),
        each(n, f)[k] == f(i)[j],
    decreases n,
{
    let a = each(n - 1, f);
    if i == n - 1 {
        assert(each(n, f)[a.len() + j] == f(i)[j]);
        a.len() + j
    } else {
        let k = lemma_each_holds(n - 1, f, i, j);
        assert(each(n, f)[k] == a[k]);
        k
    }
}

/// A finding on the bytes `from..to` makes the suggestions.
pub open spec fn suggested(
    v: Seq<IssueModel>,
    from: int,
    to: int,
    suggestions: Seq<Seq<char>>,
) -> bool {
    exists|k: int|
        0 <= k < v.len() && (#[trigger] v[k]).offset == from && v[k].offset + v[k].length == to
            && v[k].suggestions == suggestions
}

/// A machine-style finding of the family begins at byte `from` and ends by byte
/// `to`.
pub open spec fn style_reported(
    v: Seq<IssueModel>,
    from: int,
    to: int,
    family: Option<StructuralFamily>,
) -> bool {
    exists|k: int|
        0 <= k < v.len() && (#[trigger] v[k]).offset == from && v[k].offset + v[k].length <= to
            && v[k].rule_type is AiStyle && v[k].structural_family == family
}

/// A translationese finding of the family begins at byte `from` and ends by byte
/// `to`.
pub open spec fn calque_reported(
    v: Seq<IssueModel>,
    from: int,
    to: int,
    family: Option<(PhaseFamily, PhasePass)>,
) -> bool {
    exists|k: int|
        0 <= k < v.len() && (#[trigger] v[k]).offset == from && v[k].offset + v[k].length <= to
            && v[k].rule_type is Translationese && v[k].phase_family == family
}

/// What one list holds, a longer list holds.
pub proof fn lemma_sum_holds(a: Seq<IssueModel>, b: Seq<IssueModel>)
    ensures
        forall|m: IssueModel| #[trigger] a.contains(m) ==> (a + b).contains(m),
        forall|m: IssueModel| #[trigger] b.contains(m) ==> (a + b).contains(m),
{
    assert forall|m: IssueModel| #[trigger] a.contains(m) implies (a + b).contains(m) by {
        let k = choose|k: int| 0 <= k < a.len() && a[k] == m;
        assert((a + b)[k] == m);
    }
    assert forall|m: IssueModel| #[trigger] b.contains(m) implies (a + b).contains(m) by {
        let k = choose|k: int| 0 <= k < b.len() && b[k] == m;
        assert((a + b)[a.len() + k] == m);
    }
}

pub proof fn lemma_sum_are(
    a: Seq<IssueModel>,
    b: Seq<IssueModel>,
    p: spec_fn(IssueModel) -> bool,
)
    requires
        all_are(a, p),
        all_are(b, p),
    ensures
        all_are(a + b, p),
{
    assert forall|i: int| 0 <= i < (a + b).len() implies p(#[trigger] (a + b)[i]) by {
        if i < a.len() {
            assert((a + b)[i] == a[i]);
        } else {
            assert((a + b)[i] == b[i - a.len()]);
        }
    }
}

/// What an entry yields is among the findings.
pub proof fn lemma_each_contains(n: int, f: spec_fn(int) -> Seq<IssueModel>, i: int, m: IssueModel)
    requires
        0 <= i < n,
        f(i).contains(m),
    ensures
        each(n, f).contains(m),
{
    let w = f(i);
    let j = choose|j: int| 0 <= j < w.len() && w[j] == m;
    let k = lemma_each_holds(n, f, i, j);
    assert(each(n, f)[k] == m);
}

/// The first occurrence is met.
pub proof fn lemma_walk_first(
    t: Seq<char>,
    needle: Seq<char>,
    from: int,
    to: int,
    step: spec_fn(int) -> (int, Seq<IssueModel>),
    p: int,
)
    requires
        0 <= from <= p,
        to <= t.len(),
        p + needle.len() <= to,
        occurs_at(t, needle, p),
        forall|q: int| from <= q < p ==> !#[trigger] occurs_at(t, needle, q),
    ensures
        forall|m: IssueModel| #[trigger]
            step(p).1.contains(m) ==> walk(t, needle, from, to, step).contains(m),
{
    lemma_find_in(t, needle, from, to);
    let found = find_in(t, needle, from, to);
    assert(found == Some(p));
    let next = step(p).0;
    if from < next <= to {
        lemma_sum_holds(step(p).1, walk(t, needle, next, to, step));
    }
}

/// Every occurrence that overlaps no earlier one is met, where the search goes
/// on right behind each occurrence.
pub proof fn lemma_walk_meets(
    t: Seq<char>,
    needle: Seq<char>,
    from: int,
    to: int,
    step: spec_fn(int) -> (int, Seq<IssueModel>),
    p: int,
)
    requires
        0 <= from <= p,
        to <= t.len(),
        p + needle.len() <= to,
        needle.len() > 0,
        occurs_at(t, needle, p),
        forall|q: int| p - needle.len() < q < p ==> !#[trigger] occurs_at(t, needle, q),
        forall|q: int| (#[trigger] step(q)).0 == q + needle.len(),
    ensures
        forall|m: IssueModel| #[trigger]
            step(p).1.contains(m) ==> walk(t, needle, from, to, step).contains(m),
    decreases to - from,
{
    lemma_find_in(t, needle, from, to);
    let found = find_in(t, needle, from, to);
    assert(found is Some);
    let q = found->0;
    assert(q <= p);
    let next = step(q).0;
    assert(next == q + needle.len());
    let rest = walk(t, needle, next, to, step);
    lemma_sum_holds(step(q).1, rest);
    if q < p {
        assert(q <= p - needle.len());
        lemma_walk_meets(t, needle, next, to, step, p);
    }
}

/// What holds of what every occurrence yields holds of all of it.
pub proof fn lemma_walk_are(
    t: Seq<char>,
    needle: Seq<char>,
    from: int,
    to: int,
    step: spec_fn(int) -> (int, Seq<IssueModel>),
    p: spec_fn(IssueModel) -> bool,
)
    requires
        0 <= from,
        to <= t.len(),
        forall|q: int|
            from <= q && q + needle.len() <= to && #[trigger] occurs_at(t, needle, q) ==> all_are(
                step(q).1,
                p,
            ),
    ensures
        all_are(walk(t, needle, from, to, step), p),
    decreases to - from,
{
    lemma_find_in(t, needle, from, to);
    match find_in(t, needle, from, to) {
        Some(q) => {
            assert(occurs_at(t, needle, q));
            let next = step(q).0;
            if from < next <= to {
                lemma_walk_are(t, needle, next, to, step, p);
                lemma_sum_are(step(q).1, walk(t, needle, next, to, step), p);
            }
        },
        None => {},
    }
}

} // verus!
