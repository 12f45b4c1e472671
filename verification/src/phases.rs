//! Findings that two passes make of one pattern.
use vstd::prelude::*;

use crate::issue::{models, Issue, IssueModel, PhasePass};
use crate::keep::{kept, lemma_kept_contains, lemma_kept_models, lemma_kept_origin, retain};

verus! {

/// The two spans share a byte.
pub open spec fn share(a: IssueModel, b: IssueModel) -> bool {
    a.offset < b.offset + b.length && b.offset < a.offset + a.length
}

/// `a` is the indexed finding of the pattern that `b` is a lexical finding of,
/// in the same place.
pub open spec fn supersedes(a: IssueModel, b: IssueModel) -> bool {
    match (a.phase_family, b.phase_family) {
        (Some((f, PhasePass::Indexed)), Some((g, PhasePass::Lexical))) => f == g && share(a, b),
        _ => false,
    }
}

/// Some finding of the list supersedes the `i`-th.
pub open spec fn superseded(v: Seq<IssueModel>, i: int) -> bool {
    exists|j: int| 0 <= j < v.len() && supersedes(#[trigger] v[j], v[i])
}

/// Which findings no other supersedes.
pub open spec fn standing(v: Seq<IssueModel>) -> Seq<bool> {
    Seq::new(v.len(), |i: int| !superseded(v, i))
}

/// The findings that no other supersedes, in order.
pub open spec fn deduplicated(v: Seq<IssueModel>) -> Seq<IssueModel> {
    kept(v, standing(v), v.len() as int)
}

/// Whether `a` begins before the end of `b`.
fn begins_before_end(a: &Issue, b: &Issue) -> (r: bool)
    ensures
        r == (a@.offset < b@.offset + b@.length),
{
    a.offset < b.offset || a.offset - b.offset < b.length
}

fn does_supersede(a: &Issue, b: &Issue) -> (r: bool)
    ensures
        r == supersedes(a@, b@),
{
    match (a.phase_family, b.phase_family) {
        (Some((f, PhasePass::Indexed)), Some((g, PhasePass::Lexical))) => f == g
            && begins_before_end(a, b) && begins_before_end(b, a),
        _ => false,
    }
}

fn is_superseded(issues: &Vec<Issue>, i: usize) -> (r: bool)
    requires
        i < issues@.len(),
    ensures
        r == superseded(models(issues@), i as int),
{
    let ghost v = models(issues@);
    match issues[i].phase_family {
        Some((_, PhasePass::Lexical)) => {},
        _ => {
            assert(v[i as int] == issues@[i as int]@);
            return false;
        },
    }
    let mut j: usize = 0;
    while j < issues.len()
        invariant
            i < issues@.len(),
            j <= issues@.len(),
            v == models(issues@),
            forall|k: int| 0 <= k < j ==> !supersedes(#[trigger] v[k], v[i as int]),
        decreases issues@.len() - j,
    {
        assert(v[i as int] == issues@[i as int]@);
        assert(v[j as int] == issues@[j as int]@);
        if does_supersede(&issues[j], &issues[i]) {
            return true;
        }
        j = j + 1;
    }
    false
}

/// Takes out the lexical findings of a pattern where an indexed finding of it
/// stands.
pub fn dedup_translationese_phase_duplicates(issues: &mut Vec<Issue>)
    ensures
        models(final(issues)@) == deduplicated(models(old(issues)@)),
{
    let ghost v = models(issues@);
    let mut keep: Vec<bool> = Vec::new();
    let mut i: usize = 0;
    while i < issues.len()
        invariant
            i <= issues@.len(),
            v == models(issues@),
            keep@.len() == i,
            forall|k: int| 0 <= k < i ==> #[trigger] keep@[k] == !superseded(v, k),
        decreases issues@.len() - i,
    {
        keep.push(!is_superseded(issues, i));
        i = i + 1;
    }
    assert(keep@ =~= standing(v));
    proof {
        lemma_kept_models(issues@, keep@, issues@.len() as int);
    }
    retain(issues, &keep);
}

/// No lexical finding is left beside the indexed one of its pattern, and every
/// other finding is left.
pub proof fn law_indexed_findings_win(v: Seq<IssueModel>, i: int, j: int)
    ensures
        ({
            let out = deduplicated(v);
            &&& 0 <= i < out.len() && 0 <= j < out.len() ==> !supersedes(out[i], out[j])
            &&& 0 <= i < v.len() && !superseded(v, i) ==> out.contains(v[i])
        }),
{
    let keep = standing(v);
    let out = deduplicated(v);
    let at = lemma_kept_origin(v, keep, v.len() as int);
    if 0 <= i < out.len() && 0 <= j < out.len() {
        assert(keep[at[j]]);
        assert(out[j] == v[at[j]]);
        assert(out[i] == v[at[i]]);
        assert(!superseded(v, at[j]));
    }
    if 0 <= i < v.len() && !superseded(v, i) {
        lemma_kept_contains(v, keep, v.len() as int, i);
    }
}

proof fn lemma_kept_all<T>(v: Seq<T>, keep: Seq<bool>, n: int)
    requires
        0 <= n <= v.len(),
        keep.len() == v.len(),
        forall|i: int| 0 <= i < n ==> #[trigger] keep[i],
    ensures
        kept(v, keep, n) == v.subrange(0, n),
    decreases n,
{
    if n > 0 {
        lemma_kept_all(v, keep, n - 1);
        assert(v.subrange(0, n - 1).push(v[n - 1]) =~= v.subrange(0, n));
    } else {
        assert(kept(v, keep, n) =~= v.subrange(0, n));
    }
}

/// Taking the duplicates out a second time changes nothing.
pub proof fn law_deduplication_is_idempotent(v: Seq<IssueModel>)
    ensures
        deduplicated(deduplicated(v)) == deduplicated(v),
{
    let out = deduplicated(v);
    let keep = standing(out);
    assert forall|i: int| 0 <= i < out.len() implies #[trigger] keep[i] by {
        if superseded(out, i) {
            let j = choose|j: int| 0 <= j < out.len() && supersedes(#[trigger] out[j], out[i]);
            law_indexed_findings_win(v, j, i);
        }
    }
    lemma_kept_all(out, keep, out.len() as int);
    assert(out.subrange(0, out.len() as int) =~= out);
}

} // verus!
