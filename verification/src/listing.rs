//! The orders in which findings are taken up and listed.
use vstd::prelude::*;

use crate::issue::{models, Issue, IssueModel};
use crate::order::{
    arrange, arranged, comes_before, in_order, law_order_is_determined, lemma_order_fits,
    rank_below, sorted, Rank,
};

verus! {

/// By offset, the longer first.
pub open spec fn span_rank(m: IssueModel) -> Rank {
    Rank { first: m.offset as usize, second: (usize::MAX - m.length) as usize, third: 0 }
}

/// By offset, then the graver first, then by family.
pub open spec fn report_rank(m: IssueModel) -> Rank {
    Rank {
        first: m.offset as usize,
        second: (2 - m.severity.rank()) as usize,
        third: m.rule_type.order() as usize,
    }
}

pub open spec fn ranks_by(v: Seq<IssueModel>, rank: spec_fn(IssueModel) -> Rank) -> Seq<Rank> {
    Seq::new(v.len(), |i: int| rank(v[i]))
}

/// `out` is `v` in the order of its ranks. Equals keep their order.
pub open spec fn listed_by(
    v: Seq<IssueModel>,
    rank: spec_fn(IssueModel) -> Rank,
    out: Seq<IssueModel>,
) -> bool {
    exists|order: Seq<usize>| #[trigger]
        in_order(ranks_by(v, rank), order, 0, v.len() as int) && out == arranged(v, order)
}

/// How the findings stand before overlaps are resolved.
pub open spec fn by_span(v: Seq<IssueModel>, out: Seq<IssueModel>) -> bool {
    listed_by(v, |m: IssueModel| span_rank(m), out)
}

/// How the findings stand in a report.
pub open spec fn by_report(v: Seq<IssueModel>, out: Seq<IssueModel>) -> bool {
    listed_by(v, |m: IssueModel| report_rank(m), out)
}

fn put_in_order(issues: &mut Vec<Issue>, ranks: &Vec<Rank>)
    requires
        ranks@.len() == old(issues)@.len(),
    ensures
        exists|order: Seq<usize>| #[trigger]
            in_order(ranks@, order, 0, old(issues)@.len() as int) && models(final(issues)@)
                == arranged(models(old(issues)@), order),
{
    let ghost before = issues@;
    let order = sorted(ranks);
    proof {
        assert forall|k: int, m: int| 0 <= k < m < order@.len() implies (#[trigger] order@[k]) != (
        #[trigger] order@[m]) by {
            assert(comes_before(ranks@, order@[k] as int, order@[m] as int));
        }
    }
    arrange(issues, &order);
    assert(models(issues@) =~= arranged(models(before), order@));
}

/// Puts the findings in the order in which overlaps are resolved.
pub fn sort_by_span(issues: &mut Vec<Issue>)
    ensures
        by_span(models(old(issues)@), models(final(issues)@)),
{
    let ghost v = models(issues@);
    let mut ranks: Vec<Rank> = Vec::new();
    let mut i: usize = 0;
    while i < issues.len()
        invariant
            i <= issues@.len(),
            v == models(issues@),
            ranks@.len() == i,
            forall|k: int| 0 <= k < i ==> #[trigger] ranks@[k] == span_rank(v[k]),
        decreases issues@.len() - i,
    {
        assert(v[i as int] == issues@[i as int]@);
        ranks.push(
            Rank { first: issues[i].offset, second: usize::MAX - issues[i].length, third: 0 },
        );
        i = i + 1;
    }
    assert(ranks@ =~= ranks_by(v, |m: IssueModel| span_rank(m)));
    put_in_order(issues, &ranks);
}

/// Puts the findings in the order of a report.
pub fn sort_for_report(issues: &mut Vec<Issue>)
    ensures
        by_report(models(old(issues)@), models(final(issues)@)),
{
    let ghost v = models(issues@);
    let mut ranks: Vec<Rank> = Vec::new();
    let mut i: usize = 0;
    while i < issues.len()
        invariant
            i <= issues@.len(),
            v == models(issues@),
            ranks@.len() == i,
            forall|k: int| 0 <= k < i ==> #[trigger] ranks@[k] == report_rank(v[k]),
        decreases issues@.len() - i,
    {
        assert(v[i as int] == issues@[i as int]@);
        ranks.push(
            Rank {
                first: issues[i].offset,
                second: (2 - issues[i].severity.level()) as usize,
                third: issues[i].rule_type.sort_order() as usize,
            },
        );
        i = i + 1;
    }
    assert(ranks@ =~= ranks_by(v, |m: IssueModel| report_rank(m)));
    put_in_order(issues, &ranks);
}

/// The order is determined by the findings and the rank.
pub proof fn law_listing_is_determined(
    v: Seq<IssueModel>,
    rank: spec_fn(IssueModel) -> Rank,
    a: Seq<IssueModel>,
    b: Seq<IssueModel>,
)
    requires
        listed_by(v, rank, a),
        listed_by(v, rank, b),
    ensures
        a == b,
{
    let ranks = ranks_by(v, rank);
    let n = v.len() as int;
    let x = choose|order: Seq<usize>| #[trigger]
        in_order(ranks, order, 0, n) && a == arranged(v, order);
    let y = choose|order: Seq<usize>| #[trigger]
        in_order(ranks, order, 0, n) && b == arranged(v, order);
    law_order_is_determined(ranks, x, y);
}

/// What a list in order holds is what stood in it before.
pub proof fn lemma_listed(
    v: Seq<IssueModel>,
    rank: spec_fn(IssueModel) -> Rank,
    out: Seq<IssueModel>,
)
    requires
        listed_by(v, rank, out),
    ensures
        out.len() == v.len(),
        forall|k: int| 0 <= k < out.len() ==> v.contains(#[trigger] out[k]),
        forall|m: IssueModel| v.contains(m) ==> out.contains(m),
        forall|a: int, b: int|
            0 <= a < b < out.len() ==> !rank_below(
                rank(#[trigger] out[b]),
                rank(#[trigger] out[a]),
            ),
{
    let ranks = ranks_by(v, rank);
    let n = v.len() as int;
    let order = choose|order: Seq<usize>| #[trigger]
        in_order(ranks, order, 0, n) && out == arranged(v, order);
    lemma_order_fits(ranks, order, n);
    assert forall|k: int| 0 <= k < out.len() implies v.contains(#[trigger] out[k]) by {
        assert(out[k] == v[order[k] as int]);
    }
    assert forall|m: IssueModel| v.contains(m) implies out.contains(m) by {
        let i = choose|i: int| 0 <= i < v.len() && v[i] == m;
        assert(order.contains(i as usize));
        let k = choose|k: int| 0 <= k < order.len() && order[k] == i as usize;
        assert(out[k] == m);
    }
    assert forall|a: int, b: int| 0 <= a < b < out.len() implies !rank_below(
        rank(#[trigger] out[b]),
        rank(#[trigger] out[a]),
    ) by {
        assert(comes_before(ranks, order[a] as int, order[b] as int));
        assert(ranks[order[a] as int] == rank(out[a]));
        assert(ranks[order[b] as int] == rank(out[b]));
    }
}

/// In a report the findings stand by offset; at one offset the graver come
/// first, and of the same gravity they stand by family.
pub proof fn law_report_order(v: Seq<IssueModel>, out: Seq<IssueModel>, i: int, j: int)
    requires
        by_report(v, out),
        0 <= i < j < out.len(),
        0 <= out[i].offset <= usize::MAX,
        0 <= out[j].offset <= usize::MAX,
    ensures
        out[i].offset <= out[j].offset,
        out[i].offset == out[j].offset ==> out[i].severity.rank() >= out[j].severity.rank(),
        out[i].offset == out[j].offset && out[i].severity == out[j].severity
            ==> out[i].rule_type.order() <= out[j].rule_type.order(),
{
    lemma_listed(v, |m: IssueModel| report_rank(m), out);
    assert(!rank_below(report_rank(out[j]), report_rank(out[i])));
}

} // verus!
