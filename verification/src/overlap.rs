//! Which of the findings that overlap are kept.
use vstd::prelude::*;

use crate::issue::{models, Issue, IssueModel, Severity};
use crate::keep::{kept, lemma_kept_contains, lemma_kept_models, lemma_kept_origin, retain};
use crate::order::{comes_before, sorted, Rank};

verus! {

/// End of a finding's span. A span does not reach past the largest offset.
pub open spec fn span_end(m: IssueModel) -> int {
    if m.offset + m.length > usize::MAX {
        usize::MAX as int
    } else {
        m.offset + m.length
    }
}

/// Two findings share a byte.
pub open spec fn clash(a: IssueModel, b: IssueModel) -> bool {
    a.offset < span_end(b) && b.offset < span_end(a)
}

/// Finding `i` outranks finding `j`: it is longer; as long and graver; or as
/// grave and earlier in the text, or in the list.
pub open spec fn outranks(v: Seq<IssueModel>, i: int, j: int) -> bool {
    let (a, b) = (v[i], v[j]);
    ||| a.length > b.length
    ||| a.length == b.length && a.severity.rank() > b.severity.rank()
    ||| a.length == b.length && a.severity == b.severity && a.offset < b.offset
    ||| a.length == b.length && a.severity == b.severity && a.offset == b.offset && i < j
}

/// A finding is kept where none that outranks it, and is kept itself, clashes
/// with it.
pub open spec fn resolution(v: Seq<IssueModel>, keep: Seq<bool>) -> bool {
    &&& keep.len() == v.len()
    &&& forall|i: int|
        0 <= i < v.len() ==> (#[trigger] keep[i] <==> forall|j: int|
            0 <= j < v.len() && keep[j] && outranks(v, j, i) ==> !clash(v[i], #[trigger] v[j]))
}

/// `out` is what is left of `v`.
pub open spec fn resolved(v: Seq<IssueModel>, out: Seq<IssueModel>) -> bool {
    exists|keep: Seq<bool>|
        #[trigger] resolution(v, keep) && out == kept(v, keep, v.len() as int)
}

fn severity_rank(s: Severity) -> (r: usize)
    ensures
        r == 2 - s.rank(),
{
    match s {
        Severity::Info => 2,
        Severity::Warning => 1,
        Severity::Error => 0,
    }
}

spec fn rank_of(m: IssueModel) -> Rank {
    Rank {
        first: (usize::MAX - m.length) as usize,
        second: (2 - m.severity.rank()) as usize,
        third: m.offset as usize,
    }
}

spec fn ranks_fit(v: Seq<Issue>, ranks: Seq<Rank>) -> bool {
    ranks.len() == v.len() && forall|i: int|
        0 <= i < v.len() ==> #[trigger] ranks[i] == rank_of(v[i]@)
}

proof fn lemma_rank_order(v: Seq<Issue>, ranks: Seq<Rank>, i: int, j: int)
    requires
        ranks_fit(v, ranks),
        0 <= i < v.len(),
        0 <= j < v.len(),
    ensures
        comes_before(ranks, i, j) == outranks(models(v), i, j),
{
    let (a, b) = (v[i], v[j]);
    assert(ranks[i] == rank_of(a@));
    assert(ranks[j] == rank_of(b@));
    assert(models(v)[i] == a@);
    assert(models(v)[j] == b@);
}

/// The spans of the findings kept so far, one behind the other.
spec fn spans_apart(acc: Seq<(usize, usize)>) -> bool {
    &&& forall|i: int| 0 <= i < acc.len() ==> (#[trigger] acc[i]).0 <= acc[i].1
    &&& forall|i: int, j: int|
        0 <= i < j < acc.len() ==> (#[trigger] acc[i]).1 <= (#[trigger] acc[j]).0
}

/// The span at `k` is that of a finding that is kept.
spec fn span_of_kept(v: Seq<IssueModel>, keep: Seq<bool>, s: (usize, usize)) -> bool {
    exists|j: int|
        0 <= j < v.len() && keep[j] && (#[trigger] v[j]).offset == s.0 && span_end(v[j]) == s.1
}

spec fn spans_match(v: Seq<IssueModel>, keep: Seq<bool>, acc: Seq<(usize, usize)>) -> bool {
    &&& forall|k: int| 0 <= k < acc.len() ==> span_of_kept(v, keep, #[trigger] acc[k])
    &&& forall|j: int|
        0 <= j < v.len() && keep[j] ==> exists|k: int|
            0 <= k < acc.len() && (#[trigger] acc[k]).0 == (#[trigger] v[j]).offset && acc[k].1
                == span_end(v[j])
}

/// After the first `n` in order: those are decided, and no other is kept.
spec fn decided(v: Seq<IssueModel>, keep: Seq<bool>, order: Seq<usize>, n: int) -> bool {
    &&& keep.len() == v.len()
    &&& forall|i: int|
        0 <= i < v.len() && #[trigger] keep[i] ==> exists|k: int| 0 <= k < n && order[k] == i
    &&& forall|k: int|
        0 <= k < n ==> (keep[(#[trigger] order[k]) as int] <==> forall|j: int|
            0 <= j < v.len() && keep[j] && outranks(v, j, order[k] as int) ==> !clash(
                v[order[k] as int],
                #[trigger] v[j],
            ))
}

fn first_not_below(acc: &Vec<(usize, usize)>, start: usize) -> (r: usize)
    requires
        spans_apart(acc@),
    ensures
        r <= acc@.len(),
        forall|i: int| 0 <= i < r ==> (#[trigger] acc@[i]).0 < start,
        forall|i: int| r <= i < acc@.len() ==> (#[trigger] acc@[i]).0 >= start,
{
    let mut lo: usize = 0;
    let mut hi: usize = acc.len();
    while lo < hi
        invariant
            spans_apart(acc@),
            lo <= hi <= acc@.len(),
            forall|i: int| 0 <= i < lo ==> (#[trigger] acc@[i]).0 < start,
            forall|i: int| hi <= i < acc@.len() ==> (#[trigger] acc@[i]).0 >= start,
        decreases hi - lo,
    {
        let mid: usize = lo + (hi - lo) / 2;
        if acc[mid].0 < start {
            assert forall|i: int| 0 <= i < mid + 1 implies (#[trigger] acc@[i]).0 < start by {
                if i < mid {
                    assert(acc@[i].1 <= acc@[mid as int].0);
                }
            }
            lo = mid + 1;
        } else {
            assert forall|i: int| mid <= i < acc@.len() implies (#[trigger] acc@[i]).0 >= start by {
                if mid < i {
                    assert(acc@[mid as int].1 <= acc@[i].0);
                }
            }
            hi = mid;
        }
    }
    lo
}

/// Whether finding `i` clashes with one that is kept: it is enough to look at
/// the span before it and the span behind it.
proof fn lemma_neighbours(
    v: Seq<IssueModel>,
    keep: Seq<bool>,
    acc: Seq<(usize, usize)>,
    i: int,
    pos: int,
)
    requires
        keep.len() == v.len(),
        spans_apart(acc),
        spans_match(v, keep, acc),
        0 <= i < v.len(),
        0 <= v[i].offset <= usize::MAX,
        0 <= v[i].length,
        forall|j: int| 0 <= j < v.len() ==> 0 <= (#[trigger] v[j]).offset <= usize::MAX && 0 <= v[j].length,
        forall|j: int| 0 <= j < v.len() && keep[j] ==> (#[trigger] v[j]).length >= v[i].length,
        0 <= pos <= acc.len(),
        forall|k: int| 0 <= k < pos ==> (#[trigger] acc[k]).0 < v[i].offset,
        forall|k: int| pos <= k < acc.len() ==> (#[trigger] acc[k]).0 >= v[i].offset,
    ensures
        ((pos > 0 && acc[pos - 1].1 > v[i].offset) || (pos < acc.len() && span_end(v[i])
            > acc[pos].0)) <==> exists|j: int|
            0 <= j < v.len() && keep[j] && clash(v[i], #[trigger] v[j]),
{
    if pos > 0 && acc[pos - 1].1 > v[i].offset {
        assert(span_of_kept(v, keep, acc[pos - 1]));
        let j = choose|j: int|
            0 <= j < v.len() && keep[j] && (#[trigger] v[j]).offset == acc[pos - 1].0 && span_end(
                v[j],
            ) == acc[pos - 1].1;
        assert(clash(v[i], v[j]));
    } else if pos < acc.len() && span_end(v[i]) > acc[pos].0 {
        assert(span_of_kept(v, keep, acc[pos]));
        let j = choose|j: int|
            0 <= j < v.len() && keep[j] && (#[trigger] v[j]).offset == acc[pos].0 && span_end(v[j])
                == acc[pos].1;
        assert(v[j].length >= v[i].length);
        assert(clash(v[i], v[j]));
    } else if exists|j: int| 0 <= j < v.len() && keep[j] && clash(v[i], #[trigger] v[j]) {
        let j = choose|j: int| 0 <= j < v.len() && keep[j] && clash(v[i], #[trigger] v[j]);
        let k = choose|k: int|
            0 <= k < acc.len() && (#[trigger] acc[k]).0 == v[j].offset && acc[k].1 == span_end(
                v[j],
            );
        if k < pos - 1 {
            assert(acc[k].1 <= acc[pos - 1].0);
        } else if k > pos {
            assert(acc[pos].1 <= acc[k].0);
        }
    }
}

proof fn lemma_insert_span(
    v: Seq<IssueModel>,
    keep: Seq<bool>,
    acc: Seq<(usize, usize)>,
    i: int,
    pos: int,
    s: (usize, usize),
)
    requires
        keep.len() == v.len(),
        spans_apart(acc),
        spans_match(v, keep, acc),
        0 <= i < v.len(),
        0 <= pos <= acc.len(),
        s.0 <= s.1,
        s.0 == v[i].offset,
        s.1 == span_end(v[i]),
        pos > 0 ==> acc[pos - 1].1 <= s.0,
        pos < acc.len() ==> s.1 <= acc[pos].0,
    ensures
        spans_apart(acc.insert(pos, s)),
        spans_match(v, keep.update(i, true), acc.insert(pos, s)),
{
    let now = acc.insert(pos, s);
    let k2 = keep.update(i, true);
    assert forall|a: int, b: int| 0 <= a < b < now.len() implies (#[trigger] now[a]).1 <= (
    #[trigger] now[b]).0 by {
        if a < pos && b == pos {
            if a < pos - 1 {
                assert(acc[a].1 <= acc[pos - 1].0);
            }
        } else if a == pos {
            if b > pos + 1 {
                assert(acc[pos].1 <= acc[b - 1].0);
            }
        }
    }
    assert forall|k: int| 0 <= k < now.len() implies span_of_kept(v, k2, #[trigger] now[k]) by {
        if k == pos {
            assert(k2[i] && v[i].offset == now[k].0);
        } else {
            let m = if k < pos { k } else { k - 1 };
            assert(now[k] == acc[m]);
            assert(span_of_kept(v, keep, acc[m]));
            let j = choose|j: int|
                0 <= j < v.len() && keep[j] && (#[trigger] v[j]).offset == acc[m].0 && span_end(
                    v[j],
                ) == acc[m].1;
            assert(k2[j] && v[j].offset == now[k].0);
        }
    }
    assert forall|j: int| 0 <= j < v.len() && k2[j] implies exists|k: int|
        0 <= k < now.len() && (#[trigger] now[k]).0 == (#[trigger] v[j]).offset && now[k].1
            == span_end(v[j]) by {
        if j == i {
            assert(now[pos].0 == v[j].offset);
        } else {
            assert(keep[j]);
            let m = choose|m: int|
                0 <= m < acc.len() && (#[trigger] acc[m]).0 == v[j].offset && acc[m].1 == span_end(
                    v[j],
                );
            let k = if m < pos { m } else { m + 1 };
            assert(now[k] == acc[m]);
        }
    }
}

/// Deciding the next in order leaves what was decided as it was.
proof fn lemma_decide(
    v: Seq<IssueModel>,
    keep: Seq<bool>,
    order: Seq<usize>,
    n: int,
    taken: bool,
)
    requires
        decided(v, keep, order, n),
        0 <= n < order.len(),
        order.len() == v.len(),
        forall|k: int| 0 <= k < order.len() ==> (#[trigger] order[k]) < v.len(),
        forall|k: int, m: int|
            0 <= k < m < order.len() ==> outranks(
                v,
                (#[trigger] order[k]) as int,
                (#[trigger] order[m]) as int,
            ),
        taken == !exists|j: int|
            0 <= j < v.len() && keep[j] && clash(v[order[n] as int], #[trigger] v[j]),
    ensures
        decided(
            v,
            if taken {
                keep.update(order[n] as int, true)
            } else {
                keep
            },
            order,
            n + 1,
        ),
{
    let i = order[n] as int;
    let now = if taken {
        keep.update(i, true)
    } else {
        keep
    };
    if keep[i] {
        let k = choose|k: int| 0 <= k < n && order[k] == i;
        assert(outranks(v, order[k] as int, order[n] as int));
    }
    assert(!keep[i]);
    assert forall|a: int| 0 <= a < v.len() && #[trigger] now[a] implies exists|k: int|
        0 <= k < n + 1 && order[k] == a by {
        if a == i {
            assert(order[n] == a);
        } else {
            assert(keep[a]);
            let k = choose|k: int| 0 <= k < n && order[k] == a;
            assert(order[k] == a);
        }
    }
    assert forall|k: int| 0 <= k < n + 1 implies (now[(#[trigger] order[k]) as int] <==> forall|
        j: int,
    |
        0 <= j < v.len() && now[j] && outranks(v, j, order[k] as int) ==> !clash(
            v[order[k] as int],
            #[trigger] v[j],
        )) by {
        let x = order[k] as int;
        if k < n {
            assert(outranks(v, order[k] as int, order[n] as int));
            assert(x != i);
            assert(!outranks(v, i, x));
            assert(now[x] == keep[x]);
            assert forall|j: int| 0 <= j < v.len() && outranks(v, j, x) implies #[trigger] now[j]
                == keep[j] by {}
            assert((forall|j: int|
                0 <= j < v.len() && now[j] && outranks(v, j, x) ==> !clash(v[x], #[trigger] v[j]))
                == (forall|j: int|
                0 <= j < v.len() && keep[j] && outranks(v, j, x) ==> !clash(
                    v[x],
                    #[trigger] v[j],
                )));
        } else {
            assert(!outranks(v, i, i));
            assert forall|j: int| 0 <= j < v.len() && #[trigger] keep[j] implies outranks(
                v,
                j,
                i,
            ) by {
                let m = choose|m: int| 0 <= m < n && order[m] == j;
                assert(outranks(v, order[m] as int, order[n] as int));
            }
            if taken {
                assert forall|j: int| 0 <= j < v.len() && now[j] && outranks(v, j, i) implies !clash(
                    v[i],
                    #[trigger] v[j],
                ) by {
                    assert(keep[j]);
                }
            } else {
                let j = choose|j: int|
                    0 <= j < v.len() && keep[j] && clash(v[i], #[trigger] v[j]);
                assert(now[j] && outranks(v, j, i));
            }
        }
    }
}

proof fn lemma_all_decided(v: Seq<IssueModel>, keep: Seq<bool>, order: Seq<usize>)
    requires
        decided(v, keep, order, v.len() as int),
        order.len() == v.len(),
        v.len() <= usize::MAX,
        forall|i: int| 0 <= i < v.len() ==> #[trigger] order.contains(i as usize),
    ensures
        resolution(v, keep),
{
    assert forall|i: int| 0 <= i < v.len() implies (#[trigger] keep[i] <==> forall|j: int|
        0 <= j < v.len() && keep[j] && outranks(v, j, i) ==> !clash(v[i], #[trigger] v[j])) by {
        assert(order.contains(i as usize));
        let k = choose|k: int| 0 <= k < order.len() && order[k] == i as usize;
        assert(order[k] as int == i);
    }
}

/// Decides, in order of priority, which findings are kept.
fn decide(issues: &Vec<Issue>) -> (keep: Vec<bool>)
    ensures
        resolution(models(issues@), keep@),
{
    let n: usize = issues.len();
    let ghost v = models(issues@);
    let mut ranks: Vec<Rank> = Vec::new();
    let mut keep: Vec<bool> = Vec::new();
    let mut i: usize = 0;
    while i < n
        invariant
            n == issues@.len(),
            v == models(issues@),
            i <= n,
            ranks@.len() == i,
            keep@.len() == i,
            forall|k: int| 0 <= k < i ==> #[trigger] ranks@[k] == rank_of(issues@[k]@),
            forall|k: int| 0 <= k < i ==> !#[trigger] keep@[k],
        decreases n - i,
    {
        ranks.push(
            Rank {
                first: usize::MAX - issues[i].length,
                second: severity_rank(issues[i].severity),
                third: issues[i].offset,
            },
        );
        keep.push(false);
        i = i + 1;
    }
    let order = sorted(&ranks);
    proof {
        assert forall|k: int, m: int| 0 <= k < m < order@.len() implies outranks(
            v,
            (#[trigger] order@[k]) as int,
            (#[trigger] order@[m]) as int,
        ) by {
            lemma_rank_order(issues@, ranks@, order@[k] as int, order@[m] as int);
        }
    }
    let mut acc: Vec<(usize, usize)> = Vec::new();
    let mut k: usize = 0;
    while k < n
        invariant
            n == issues@.len(),
            v == models(issues@),
            k <= n,
            order@.len() == n,
            keep@.len() == n,
            forall|a: int| 0 <= a < order@.len() ==> (#[trigger] order@[a]) < n,
            forall|i: int| 0 <= i < n ==> #[trigger] order@.contains(i as usize),
            forall|a: int, m: int|
                0 <= a < m < order@.len() ==> outranks(
                    v,
                    (#[trigger] order@[a]) as int,
                    (#[trigger] order@[m]) as int,
                ),
            decided(v, keep@, order@, k as int),
            spans_apart(acc@),
            spans_match(v, keep@, acc@),
        decreases n - k,
    {
        let i: usize = order[k];
        let start: usize = issues[i].offset;
        let end: usize = if issues[i].length > usize::MAX - start {
            usize::MAX
        } else {
            start + issues[i].length
        };
        let pos: usize = first_not_below(&acc, start);
        let clashes: bool = (pos > 0 && acc[pos - 1].1 > start) || (pos < acc.len() && end
            > acc[pos].0);
        proof {
            assert forall|j: int| 0 <= j < v.len() && keep@[j] implies (#[trigger] v[j]).length
                >= v[i as int].length by {
                let m = choose|m: int| 0 <= m < k && order@[m] == j;
                assert(outranks(v, order@[m] as int, order@[k as int] as int));
            }
            lemma_neighbours(v, keep@, acc@, i as int, pos as int);
            lemma_decide(v, keep@, order@, k as int, !clashes);
        }
        if !clashes {
            proof {
                lemma_insert_span(v, keep@, acc@, i as int, pos as int, (start, end));
            }
            keep.set(i, true);
            acc.insert(pos, (start, end));
        }
        k = k + 1;
    }
    proof {
        lemma_all_decided(v, keep@, order@);
    }
    keep
}

/// Takes out every finding that clashes with a better one.
pub fn resolve_overlaps(issues: &mut Vec<Issue>)
    ensures
        resolved(models(old(issues)@), models(final(issues)@)),
{
    let keep = decide(issues);
    proof {
        lemma_kept_models(issues@, keep@, issues@.len() as int);
    }
    retain(issues, &keep);
}

/// What is kept is determined by the findings.
pub proof fn law_resolution_is_determined(
    v: Seq<IssueModel>,
    a: Seq<IssueModel>,
    b: Seq<IssueModel>,
)
    requires
        resolved(v, a),
        resolved(v, b),
    ensures
        a == b,
{
    let ka = choose|keep: Seq<bool>|
        #[trigger] resolution(v, keep) && a == kept(v, keep, v.len() as int);
    let kb = choose|keep: Seq<bool>|
        #[trigger] resolution(v, keep) && b == kept(v, keep, v.len() as int);
    if exists|i: int| 0 <= i < v.len() && ka[i] != kb[i] {
        let i = lemma_first_difference(v, ka, kb, v.len() as int);
        assert forall|j: int| 0 <= j < v.len() && outranks(v, j, i) implies #[trigger] ka[j]
            == kb[j] by {}
        assert((forall|j: int|
            0 <= j < v.len() && ka[j] && outranks(v, j, i) ==> !clash(v[i], #[trigger] v[j])) == (
        forall|j: int|
            0 <= j < v.len() && kb[j] && outranks(v, j, i) ==> !clash(v[i], #[trigger] v[j])));
        assert(ka[i] == kb[i]);
    }
    assert(ka =~= kb);
}

/// The highest in rank of the first `n` on which two markings differ.
proof fn lemma_first_difference(
    v: Seq<IssueModel>,
    a: Seq<bool>,
    b: Seq<bool>,
    n: int,
) -> (r: int)
    requires
        0 <= n <= v.len(),
        exists|i: int| 0 <= i < n && #[trigger] a[i] != b[i],
    ensures
        0 <= r < n,
        a[r] != b[r],
        forall|j: int| 0 <= j < n && #[trigger] a[j] != b[j] ==> !outranks(v, j, r),
    decreases n,
{
    if exists|i: int| 0 <= i < n - 1 && #[trigger] a[i] != b[i] {
        let r = lemma_first_difference(v, a, b, n - 1);
        if a[n - 1] != b[n - 1] && outranks(v, n - 1, r) {
            assert forall|j: int| 0 <= j < n && #[trigger] a[j] != b[j] implies !outranks(
                v,
                j,
                n - 1,
            ) by {
                if j < n - 1 && outranks(v, j, n - 1) {
                    assert(outranks(v, j, r));
                }
            }
            n - 1
        } else {
            r
        }
    } else {
        n - 1
    }
}

/// No two of the findings that are left share a byte.
pub proof fn law_survivors_do_not_clash(v: Seq<IssueModel>, out: Seq<IssueModel>, a: int, b: int)
    requires
        resolved(v, out),
        0 <= a < b < out.len(),
    ensures
        !clash(out[a], out[b]),
{
    let keep = choose|keep: Seq<bool>|
        #[trigger] resolution(v, keep) && out == kept(v, keep, v.len() as int);
    let at = lemma_kept_origin(v, keep, v.len() as int);
    let (i, j) = (at[a], at[b]);
    assert(i < j);
    assert(keep[i] && keep[j]);
    assert(outranks(v, i, j) || outranks(v, j, i));
}

/// A finding that clashes with no other is left.
pub proof fn law_lone_findings_survive(v: Seq<IssueModel>, out: Seq<IssueModel>, i: int)
    requires
        resolved(v, out),
        0 <= i < v.len(),
        forall|j: int| 0 <= j < v.len() && j != i ==> !clash(v[i], #[trigger] v[j]),
    ensures
        out.contains(v[i]),
{
    let keep = choose|keep: Seq<bool>|
        #[trigger] resolution(v, keep) && out == kept(v, keep, v.len() as int);
    assert(keep[i]);
    lemma_kept_contains(v, keep, v.len() as int, i);
}

/// A finding goes only where a better one that is left clashes with it.
pub proof fn law_only_the_better_displace(v: Seq<IssueModel>, out: Seq<IssueModel>, i: int)
    requires
        resolved(v, out),
        0 <= i < v.len(),
        !out.contains(v[i]),
    ensures
        exists|j: int|
            0 <= j < v.len() && outranks(v, j, i) && clash(v[i], #[trigger] v[j]) && out.contains(
                v[j],
            ),
{
    let keep = choose|keep: Seq<bool>|
        #[trigger] resolution(v, keep) && out == kept(v, keep, v.len() as int);
    if keep[i] {
        lemma_kept_contains(v, keep, v.len() as int, i);
    }
    let j = choose|j: int|
        0 <= j < v.len() && keep[j] && outranks(v, j, i) && clash(v[i], #[trigger] v[j]);
    lemma_kept_contains(v, keep, v.len() as int, j);
    assert(clash(v[i], v[j]));
}

} // verus!
