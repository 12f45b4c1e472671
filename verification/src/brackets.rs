//! Which bracket a quotation mark becomes at its depth, and whether the
//! brackets of a text nest.
use vstd::prelude::*;

use crate::bounds::{blank_line_after, blank_line_end, paragraph_spans, paragraphs_of, spans};
use crate::emit::{punct_issue, span_excluded, ByteRange, Emitter};
use crate::issue::{models, strings, Issue, IssueModel, Severity};
use crate::quotes::{direction_is_usable, direction_usable};
use crate::text::{byte_pos, floor_pos, same, Text};
use crate::walk::{each, if_so};

verus! {

/// A blank line lies wholly within the bytes `from..to`, which begin and end
/// with characters.
pub open spec fn break_between(t: Seq<char>, from: int, to: int) -> bool {
    let (i, j) = (floor_pos(t, from), floor_pos(t, to));
    &&& byte_pos(t, i) == from
    &&& byte_pos(t, j) == to
    &&& exists|k: int|
        i <= k < j && (#[trigger] blank_line_end(t, k)) is Some && blank_line_end(t, k)->0 <= j
}

/// Whether a paragraph ends within the bytes `from..to`.
pub fn has_paragraph_break(text: &Text<'_>, from: usize, to: usize) -> (r: bool)
    requires
        text.wf(),
    ensures
        r == break_between(text@, from as int, to as int),
{
    let i: usize = text.floor(from);
    let j: usize = text.floor(to);
    if text.byte(i) != from || text.byte(j) != to {
        return false;
    }
    let mut k: usize = i;
    while k < j
        invariant
            text.wf(),
            i <= k,
            i == floor_pos(text@, from as int),
            j == floor_pos(text@, to as int),
            j <= text@.len(),
            byte_pos(text@, i as int) == from,
            byte_pos(text@, j as int) == to,
            forall|m: int|
                i <= m < k && (#[trigger] blank_line_end(text@, m)) is Some ==> blank_line_end(
                    text@,
                    m,
                )->0 > j,
        decreases j - k,
    {
        if let Some(end) = blank_line_after(text, k) {
            assert(blank_line_end(text@, k as int) is Some);
            if end <= j {
                return true;
            }
        }
        k = k + 1;
    }
    false
}

/// The finding is on a curly double quotation mark.
pub open spec fn on_quote(m: IssueModel) -> bool {
    m.found == "\u{201c}"@ || m.found == "\u{201d}"@
}

/// Which of the first `n` findings are on a curly double quotation mark.
pub open spec fn quotes_among(v: Seq<IssueModel>, n: int) -> Seq<int>
    decreases n,
{
    if n <= 0 {
        Seq::empty()
    } else if on_quote(v[n - 1]) {
        quotes_among(v, n - 1).push(n - 1)
    } else {
        quotes_among(v, n - 1)
    }
}

/// The `p`-th mark begins a paragraph: a blank line parts it from the one
/// before it.
pub open spec fn begins(t: Seq<char>, v: Seq<IssueModel>, q: Seq<int>, p: int) -> bool {
    p == 0 || {
        let end = v[q[p - 1]].offset + v[q[p - 1]].length;
        v[q[p]].offset > end && break_between(t, end, v[q[p]].offset)
    }
}

/// First mark of the paragraph of the `p`-th.
pub open spec fn group_start(t: Seq<char>, v: Seq<IssueModel>, q: Seq<int>, p: int) -> int
    decreases p,
{
    if p <= 0 || begins(t, v, q, p) {
        p
    } else {
        group_start(t, v, q, p - 1)
    }
}

/// End of the marks of the paragraph of the `p`-th.
pub open spec fn group_end(t: Seq<char>, v: Seq<IssueModel>, q: Seq<int>, p: int) -> int
    decreases q.len() - p,
{
    if p + 1 >= q.len() || begins(t, v, q, p + 1) {
        p + 1
    } else {
        group_end(t, v, q, p + 1)
    }
}

/// What each mark of `from..to` opens on, by its own character.
pub open spec fn opened(v: Seq<IssueModel>, q: Seq<int>, from: int, to: int) -> Seq<bool> {
    Seq::new((to - from) as nat, |k: int| v[q[from + k]].found == "\u{201c}"@)
}

/// Whether the `k`-th of a paragraph's marks opens: by its own character where
/// the characters can be relied on, or where it is left over; else by
/// position.
pub open spec fn opens(openings: Seq<bool>, k: int) -> bool {
    if direction_usable(openings) || k >= openings.len() - openings.len() % 2 {
        openings[k]
    } else {
        k % 2 == 0
    }
}

/// How deep the `k`-th mark finds itself.
pub open spec fn depth_at(openings: Seq<bool>, k: int) -> nat
    decreases k,
{
    if k <= 0 {
        0
    } else {
        let before = depth_at(openings, k - 1);
        if opens(openings, k - 1) {
            before + 1
        } else if before > 0 {
            (before - 1) as nat
        } else {
            0
        }
    }
}

/// The bracket that the `k`-th mark becomes: 「」 outermost, and 『』 and 「」
/// in turn further in.
pub open spec fn bracket_of(openings: Seq<bool>, k: int) -> Seq<char> {
    if opens(openings, k) {
        if depth_at(openings, k) % 2 == 0 {
            "「"@
        } else {
            "『"@
        }
    } else if depth_at(openings, k + 1) % 2 == 0 {
        "」"@
    } else {
        "』"@
    }
}

/// The bracket that the `p`-th mark becomes.
pub open spec fn bracket_at(t: Seq<char>, v: Seq<IssueModel>, q: Seq<int>, p: int) -> Seq<char> {
    let from = group_start(t, v, q, p);
    bracket_of(opened(v, q, from, group_end(t, v, q, p)), p - from)
}

/// `w` is `v` with the brackets of its quotation marks settled, where there is
/// more than one.
pub open spec fn brackets_settled(t: Seq<char>, v: Seq<IssueModel>, w: Seq<IssueModel>) -> bool {
    let q = quotes_among(v, v.len() as int);
    if q.len() < 2 {
        w == v
    } else {
        &&& w.len() == v.len()
        &&& forall|i: int| 0 <= i < v.len() && !on_quote(v[i]) ==> #[trigger] w[i] == v[i]
        &&& forall|p: int|
            0 <= p < q.len() ==> w[#[trigger] q[p]] == (IssueModel {
                suggestions: seq![bracket_at(t, v, q, p)],
                ..v[q[p]]
            })
    }
}

proof fn lemma_quotes_among(v: Seq<IssueModel>, n: int)
    requires
        0 <= n <= v.len(),
    ensures
        forall|p: int|
            0 <= p < quotes_among(v, n).len() ==> 0 <= (#[trigger] quotes_among(v, n)[p]) < n
                && on_quote(v[quotes_among(v, n)[p]]),
        forall|p: int, r: int|
            0 <= p < r < quotes_among(v, n).len() ==> (#[trigger] quotes_among(v, n)[p]) < (
            #[trigger] quotes_among(v, n)[r]),
    decreases n,
{
    if n > 0 {
        lemma_quotes_among(v, n - 1);
        let before = quotes_among(v, n - 1);
        let now = quotes_among(v, n);
        assert forall|p: int| 0 <= p < now.len() implies 0 <= (#[trigger] now[p]) < n && on_quote(
            v[now[p]],
        ) by {
            if p < before.len() {
                assert(now[p] == before[p]);
            }
        }
        assert forall|p: int, r: int| 0 <= p < r < now.len() implies (#[trigger] now[p]) < (
        #[trigger] now[r]) by {
            assert(now[p] == before[p]);
            if r < before.len() {
                assert(now[r] == before[r]);
            }
        }
    }
}

fn quote_indices(issues: &Vec<Issue>) -> (r: Vec<usize>)
    ensures
        r@.len() == quotes_among(models(issues@), issues@.len() as int).len(),
        forall|p: int|
            0 <= p < r@.len() ==> #[trigger] r@[p] == quotes_among(
                models(issues@),
                issues@.len() as int,
            )[p],
{
    let mut r: Vec<usize> = Vec::new();
    let mut i: usize = 0;
    while i < issues.len()
        invariant
            i <= issues@.len(),
            r@.len() == quotes_among(models(issues@), i as int).len(),
            forall|p: int|
                0 <= p < r@.len() ==> #[trigger] r@[p] == quotes_among(
                    models(issues@),
                    i as int,
                )[p],
        decreases issues@.len() - i,
    {
        assert(models(issues@)[i as int] == issues@[i as int]@);
        if same(issues[i].found.as_str(), "\u{201c}") || same(
            issues[i].found.as_str(),
            "\u{201d}",
        ) {
            r.push(i);
        }
        i = i + 1;
    }
    r
}

/// Whether the `p`-th mark begins a paragraph.
fn begins_paragraph(text: &Text<'_>, issues: &Vec<Issue>, q: &Vec<usize>, p: usize) -> (r: bool)
    requires
        text.wf(),
        0 < p < q@.len(),
        forall|k: int| 0 <= k < q@.len() ==> (#[trigger] q@[k]) < issues@.len(),
    ensures
        r == begins(text@, models(issues@), q@.map_values(|x: usize| x as int), p as int),
{
    let before: usize = issues[q[p - 1]].offset;
    let length: usize = issues[q[p - 1]].length;
    let at: usize = issues[q[p]].offset;
    at > before && at - before > length && has_paragraph_break(text, before + length, at)
}

fn bracket(opening: bool, even: bool) -> (r: &'static str)
    ensures
        r@ == (if opening {
            if even {
                "「"@
            } else {
                "『"@
            }
        } else if even {
            "」"@
        } else {
            "』"@
        }),
{
    if opening {
        if even {
            "「"
        } else {
            "『"
        }
    } else if even {
        "」"
    } else {
        "』"
    }
}

/// The brackets of one paragraph's marks.
fn brackets(openings: &Vec<bool>) -> (r: Vec<&'static str>)
    ensures
        r@.len() == openings@.len(),
        forall|k: int| 0 <= k < r@.len() ==> (#[trigger] r@[k])@ == bracket_of(openings@, k),
{
    let n: usize = openings.len();
    let usable: bool = direction_is_usable(openings);
    let alternating: usize = n - n % 2;
    let mut r: Vec<&'static str> = Vec::new();
    let mut depth: usize = 0;
    let mut k: usize = 0;
    while k < n
        invariant
            n == openings@.len(),
            usable == direction_usable(openings@),
            alternating == n - n % 2,
            k <= n,
            depth <= k,
            depth == depth_at(openings@, k as int),
            r@.len() == k,
            forall|j: int| 0 <= j < k ==> (#[trigger] r@[j])@ == bracket_of(openings@, j),
        decreases n - k,
    {
        let opening: bool = if usable || k >= alternating {
            openings[k]
        } else {
            k % 2 == 0
        };
        assert(opening == opens(openings@, k as int));
        if opening {
            r.push(bracket(true, depth % 2 == 0));
            depth = depth + 1;
        } else {
            if depth > 0 {
                depth = depth - 1;
            }
            r.push(bracket(false, depth % 2 == 0));
        }
        k = k + 1;
    }
    r
}

proof fn lemma_group(t: Seq<char>, v: Seq<IssueModel>, q: Seq<int>, s: int, e: int, p: int)
    requires
        0 <= s <= p < e <= q.len(),
        s == 0 || begins(t, v, q, s),
        e == q.len() || begins(t, v, q, e),
        forall|k: int| s < k < e ==> !#[trigger] begins(t, v, q, k),
    ensures
        group_start(t, v, q, p) == s,
        group_end(t, v, q, p) == e,
    decreases p - s + (e - p),
{
    lemma_group_start(t, v, q, s, p);
    lemma_group_end(t, v, q, e, p);
}

proof fn lemma_group_start(t: Seq<char>, v: Seq<IssueModel>, q: Seq<int>, s: int, p: int)
    requires
        0 <= s <= p,
        s == 0 || begins(t, v, q, s),
        forall|k: int| s < k <= p ==> !#[trigger] begins(t, v, q, k),
    ensures
        group_start(t, v, q, p) == s,
    decreases p - s,
{
    if s < p {
        assert(!begins(t, v, q, p));
        lemma_group_start(t, v, q, s, p - 1);
    }
}

proof fn lemma_group_end(t: Seq<char>, v: Seq<IssueModel>, q: Seq<int>, e: int, p: int)
    requires
        0 <= p < e <= q.len(),
        e == q.len() || begins(t, v, q, e),
        forall|k: int| p < k < e ==> !#[trigger] begins(t, v, q, k),
    ensures
        group_end(t, v, q, p) == e,
    decreases e - p,
{
    if p + 1 < e {
        assert(!begins(t, v, q, p + 1));
        lemma_group_end(t, v, q, e, p + 1);
    }
}

/// The finding on the `p`-th mark with its bracket settled.
#[verifier::opaque]
spec fn bracketed(t: Seq<char>, v: Seq<IssueModel>, q: Seq<int>, p: int) -> IssueModel {
    IssueModel { suggestions: seq![bracket_at(t, v, q, p)], ..v[q[p]] }
}

/// The brackets of the first `n` marks are settled, and nothing else is
/// touched.
spec fn settled_upto(
    t: Seq<char>,
    v: Seq<IssueModel>,
    q: Seq<int>,
    w: Seq<IssueModel>,
    n: int,
) -> bool {
    &&& w.len() == v.len()
    &&& forall|i: int| 0 <= i < v.len() && !on_quote(v[i]) ==> #[trigger] w[i] == v[i]
    &&& forall|p: int|
        0 <= p < n ==> w[#[trigger] q[p]] == bracketed(t, v, q, p)
    &&& forall|p: int| n <= p < q.len() ==> w[#[trigger] q[p]] == v[q[p]]
}

spec fn indexes_quotes(v: Seq<IssueModel>, q: Seq<int>) -> bool {
    &&& forall|p: int| 0 <= p < q.len() ==> 0 <= (#[trigger] q[p]) < v.len() && on_quote(v[q[p]])
    &&& forall|p: int, r: int| 0 <= p < r < q.len() ==> (#[trigger] q[p]) < (#[trigger] q[r])
}

proof fn lemma_settle(
    t: Seq<char>,
    v: Seq<IssueModel>,
    q: Seq<int>,
    w: Seq<IssueModel>,
    n: int,
    m: IssueModel,
)
    requires
        settled_upto(t, v, q, w, n),
        indexes_quotes(v, q),
        0 <= n < q.len(),
        m == bracketed(t, v, q, n),
    ensures
        settled_upto(t, v, q, w.update(q[n], m), n + 1),
{
    let x = w.update(q[n], m);
    assert forall|p: int| 0 <= p < n + 1 implies x[#[trigger] q[p]] == bracketed(
        t,
        v,
        q,
        p,
    ) by {
        if p < n {
            assert(q[p] < q[n]);
        }
    }
    assert forall|p: int| n + 1 <= p < q.len() implies x[#[trigger] q[p]] == v[q[p]] by {
        assert(q[n] < q[p]);
    }
}

/// Gives one finding its bracket.
fn set_bracket(issues: &mut Vec<Issue>, at: usize, bracket: &str)
    requires
        at < old(issues)@.len(),
    ensures
        models(final(issues)@) == models(old(issues)@).update(
            at as int,
            IssueModel { suggestions: seq![bracket@], ..old(issues)@[at as int]@ },
        ),
        final(issues)@.len() == old(issues)@.len(),
{
    let ghost before = issues@;
    let one: Vec<String> = vec![bracket.to_owned()];
    assert(strings(one@) =~= seq![bracket@]);
    issues[at].suggestions = one;
    assert(models(issues@) =~= models(before).update(
        at as int,
        IssueModel { suggestions: seq![bracket@], ..before[at as int]@ },
    ));
}

/// Where the paragraph of the `s`-th mark ends, and what its marks open on.
fn next_group(text: &Text<'_>, issues: &Vec<Issue>, q: &Vec<usize>, s: usize) -> (r: (
    usize,
    Vec<bool>,
))
    requires
        text.wf(),
        s < q@.len(),
        forall|k: int| 0 <= k < q@.len() ==> (#[trigger] q@[k]) < issues@.len(),
    ensures
        ({
            let v = models(issues@);
            let qs = q@.map_values(|x: usize| x as int);
            &&& s < r.0 <= q@.len()
            &&& r.0 == q@.len() || begins(text@, v, qs, r.0 as int)
            &&& forall|k: int| s < k < r.0 ==> !#[trigger] begins(text@, v, qs, k)
            &&& r.1@ == opened(v, qs, s as int, r.0 as int)
        }),
{
    let ghost v = models(issues@);
    let ghost qs = q@.map_values(|x: usize| x as int);
    let _n: usize = q.len();
    let mut openings: Vec<bool> = Vec::new();
    openings.push(same(issues[q[s]].found.as_str(), "\u{201c}"));
    let mut e: usize = s + 1;
    assert(openings@ =~= opened(v, qs, s as int, e as int));
    while e < q.len() && !begins_paragraph(text, issues, q, e)
        invariant
            text.wf(),
            v == models(issues@),
            qs == q@.map_values(|x: usize| x as int),
            s < e <= q@.len(),
            forall|k: int| 0 <= k < q@.len() ==> (#[trigger] q@[k]) < issues@.len(),
            forall|k: int| s < k < e ==> !#[trigger] begins(text@, v, qs, k),
            openings@ == opened(v, qs, s as int, e as int),
        decreases q@.len() - e,
    {
        openings.push(same(issues[q[e]].found.as_str(), "\u{201c}"));
        e = e + 1;
        assert(openings@ =~= opened(v, qs, s as int, e as int));
    }
    (e, openings)
}

/// Paragraphs and openings depend on nothing that settling a bracket changes.
proof fn lemma_groups_kept(
    t: Seq<char>,
    v: Seq<IssueModel>,
    q: Seq<int>,
    w: Seq<IssueModel>,
    n: int,
)
    requires
        settled_upto(t, v, q, w, n),
        indexes_quotes(v, q),
        0 <= n <= q.len(),
    ensures
        forall|p: int|
            0 <= p < q.len() ==> #[trigger] begins(t, w, q, p) == begins(t, v, q, p),
        forall|s: int, e: int|
            0 <= s <= e <= q.len() ==> #[trigger] opened(w, q, s, e) == opened(v, q, s, e),
{
    assert forall|p: int| 0 <= p < q.len() implies #[trigger] begins(t, w, q, p) == begins(
        t,
        v,
        q,
        p,
    ) by {
        lemma_mark_kept(t, v, q, w, n, p);
        if p > 0 {
            lemma_mark_kept(t, v, q, w, n, p - 1);
        }
    }
    assert forall|s: int, e: int| 0 <= s <= e <= q.len() implies #[trigger] opened(w, q, s, e)
        == opened(v, q, s, e) by {
        assert forall|k: int| 0 <= k < e - s implies opened(w, q, s, e)[k] == opened(
            v,
            q,
            s,
            e,
        )[k] by {
            lemma_mark_kept(t, v, q, w, n, s + k);
        }
        assert(opened(w, q, s, e) =~= opened(v, q, s, e));
    }
}

proof fn lemma_mark_kept(
    t: Seq<char>,
    v: Seq<IssueModel>,
    q: Seq<int>,
    w: Seq<IssueModel>,
    n: int,
    p: int,
)
    requires
        settled_upto(t, v, q, w, n),
        0 <= n <= q.len(),
        0 <= p < q.len(),
    ensures
        w[q[p]].offset == v[q[p]].offset,
        w[q[p]].length == v[q[p]].length,
        w[q[p]].found == v[q[p]].found,
{
    reveal(bracketed);
    let i = q[p];
    if p < n {
        assert(w[i] == bracketed(t, v, q, p));
    } else {
        assert(w[i] == v[i]);
    }
}

/// Settles which bracket each curly double quotation mark becomes. The marks
/// of a paragraph nest: by their own characters where those can be relied on,
/// else in turn.
pub fn fix_quote_pairing(text: &Text<'_>, issues: &mut Vec<Issue>)
    requires
        text.wf(),
    ensures
        brackets_settled(text@, models(old(issues)@), models(final(issues)@)),
{
    let ghost v = models(issues@);
    let q = quote_indices(issues);
    let ghost qs = quotes_among(v, v.len() as int);
    proof {
        lemma_quotes_among(v, v.len() as int);
        assert(q@.map_values(|x: usize| x as int) =~= qs);
    }
    if q.len() < 2 {
        return ;
    }
    let mut s: usize = 0;
    while s < q.len()
        invariant
            text.wf(),
            q@.map_values(|x: usize| x as int) == qs,
            q@.len() == qs.len(),
            indexes_quotes(v, qs),
            qs == quotes_among(v, v.len() as int),
            s <= q@.len(),
            s == 0 || s == q@.len() || begins(text@, v, qs, s as int),
            forall|p: int| 0 <= p < q@.len() ==> #[trigger] q@[p] == qs[p],
            settled_upto(text@, v, qs, models(issues@), s as int),
        decreases q@.len() - s,
    {
        proof {
            let w = models(issues@);
            lemma_groups_kept(text@, v, qs, w, s as int);
            assert forall|k: int| 0 <= k < q@.len() implies (#[trigger] q@[k])
                < issues@.len() by {
                assert(q@[k] == qs[k]);
            }
        }
        let (e, openings) = next_group(text, issues, &q, s);
        let found = brackets(&openings);
        proof {
            let w = models(issues@);
            assert(openings@ == opened(v, qs, s as int, e as int)) by {
                assert(opened(w, qs, s as int, e as int) == opened(v, qs, s as int, e as int));
            }
            assert forall|k: int| s < k < e implies !#[trigger] begins(text@, v, qs, k) by {
                assert(begins(text@, w, qs, k) == begins(text@, v, qs, k));
            }
            if e < q@.len() {
                assert(begins(text@, w, qs, e as int) == begins(text@, v, qs, e as int));
            }
        }
        let mut p: usize = s;
        while p < e
            invariant
                q@.len() == qs.len(),
                indexes_quotes(v, qs),
                s <= p <= e <= q@.len(),
                s == 0 || begins(text@, v, qs, s as int),
                e == q@.len() || begins(text@, v, qs, e as int),
                forall|k: int| s < k < e ==> !#[trigger] begins(text@, v, qs, k),
                openings@ == opened(v, qs, s as int, e as int),
                found@.len() == openings@.len(),
                forall|j: int|
                    0 <= j < found@.len() ==> (#[trigger] found@[j])@ == bracket_of(
                        openings@,
                        j,
                    ),
                forall|p: int| 0 <= p < q@.len() ==> #[trigger] q@[p] == qs[p],
                settled_upto(text@, v, qs, models(issues@), p as int),
            decreases e - p,
        {
            let at: usize = q[p];
            let ghost w = models(issues@);
            proof {
                lemma_group(text@, v, qs, s as int, e as int, p as int);
                assert(q@[p as int] == qs[p as int]);
                assert(w[at as int] == issues@[at as int]@);
                assert(w[qs[p as int]] == v[qs[p as int]]);
                assert(found@[p - s]@ == bracket_at(text@, v, qs, p as int));
                reveal(bracketed);
                lemma_settle(text@, v, qs, w, p as int, bracketed(text@, v, qs, p as int));
            }
            set_bracket(issues, at, found[p - s]);
            p = p + 1;
        }
        s = e;
    }
    proof {
        reveal(bracketed);
        let w = models(issues@);
        assert forall|p: int| 0 <= p < qs.len() implies w[#[trigger] qs[p]] == (IssueModel {
            suggestions: seq![bracket_at(text@, v, qs, p)],
            ..v[qs[p]]
        }) by {
            assert(w[qs[p]] == bracketed(text@, v, qs, p));
        }
    }
}

pub(crate) proof fn lemma_quote_listed(v: Seq<IssueModel>, n: int, i: int)
    requires
        0 <= i < n <= v.len(),
        on_quote(v[i]),
    ensures
        exists|p: int| 0 <= p < quotes_among(v, n).len() && quotes_among(v, n)[p] == i,
    decreases n,
{
    let now = quotes_among(v, n);
    if i == n - 1 {
        assert(now[now.len() - 1] == i);
    } else {
        lemma_quote_listed(v, n - 1, i);
        let before = quotes_among(v, n - 1);
        let p = choose|p: int| 0 <= p < before.len() && before[p] == i;
        assert(now[p] == i);
    }
}

/// Which bracket each mark becomes is determined by the text and the findings.
pub proof fn law_brackets_are_determined(
    t: Seq<char>,
    v: Seq<IssueModel>,
    a: Seq<IssueModel>,
    b: Seq<IssueModel>,
)
    requires
        brackets_settled(t, v, a),
        brackets_settled(t, v, b),
    ensures
        a == b,
{
    let q = quotes_among(v, v.len() as int);
    if q.len() >= 2 {
        assert forall|i: int| 0 <= i < v.len() implies a[i] == b[i] by {
            if on_quote(v[i]) {
                lemma_quote_listed(v, v.len() as int, i);
                let p = choose|p: int| 0 <= p < q.len() && q[p] == i;
                assert(a[q[p]] == b[q[p]]);
            } else {
                assert(a[i] == v[i]);
                assert(b[i] == v[i]);
            }
        }
        assert(a =~= b);
    }
}

/// An opening bracket.
pub open spec fn opens_bracket(c: char) -> bool {
    c == '「' || c == '『' || c == '《'
}

/// A closing bracket.
pub open spec fn closes_bracket(c: char) -> bool {
    c == '」' || c == '』' || c == '》'
}

/// The bracket that a closing bracket closes.
pub open spec fn opener_of(c: char) -> char {
    if c == '」' {
        '「'
    } else if c == '』' {
        '『'
    } else {
        '《'
    }
}

/// What is said of a closing bracket that closes another pair.
pub open spec fn interleaved(c: char) -> Seq<char> {
    if c == '》' {
        "書名號層級錯誤：《》與引號交錯嵌套"@
    } else {
        "引號層級錯誤：「」與『』交錯嵌套"@
    }
}

/// What is said of a closing bracket with nothing to close.
pub open spec fn unmatched(c: char) -> Seq<char> {
    if c == '」' {
        "多餘的關閉引號「」」，找不到對應的開啟引號「「」"@
    } else if c == '』' {
        "多餘的關閉引號「』」，找不到對應的開啟引號「『」"@
    } else {
        "多餘的關閉書名號「》」，找不到對應的開啟書名號「《」"@
    }
}

/// What is said of a bracket that its paragraph leaves open.
pub open spec fn unclosed(c: char) -> Seq<char> {
    if c == '「' {
        "段落結束時「」未關閉"@
    } else if c == '『' {
        "段落結束時『』未關閉"@
    } else {
        "段落結束時《》未關閉"@
    }
}

/// A finding on the bracket at `p`.
pub open spec fn bracket_issue(t: Seq<char>, p: int, said: Seq<char>) -> IssueModel {
    punct_issue(t, p, p + 1, ""@, Severity::Warning, said)
}

/// The closing bracket at `p` closes the last one open.
pub open spec fn matches_last(t: Seq<char>, open: Seq<int>, p: int) -> bool {
    open.len() > 0 && t[open.last()] == opener_of(t[p])
}

/// Positions of the brackets of `from..i` that are still open.
pub open spec fn open_brackets(t: Seq<char>, ex: Seq<ByteRange>, from: int, i: int) -> Seq<int>
    decreases i - from,
{
    if i <= from {
        Seq::empty()
    } else {
        let before = open_brackets(t, ex, from, i - 1);
        let p = i - 1;
        if span_excluded(t, ex, p, p + 1) {
            before
        } else if opens_bracket(t[p]) {
            before.push(p)
        } else if closes_bracket(t[p]) && matches_last(t, before, p) {
            before.drop_last()
        } else {
            before
        }
    }
}

/// What is wrong with the closing bracket at `p`, those at `open` being open
/// before it.
pub open spec fn close_findings(t: Seq<char>, open: Seq<int>, p: int) -> Seq<IssueModel> {
    if matches_last(t, open, p) {
        if_so(
            t[p] == '』' && forall|k: int|
                0 <= k < open.len() - 1 ==> t[#[trigger] open[k]] != '「',
            bracket_issue(t, p, "『』應嵌套在「」內使用，不應出現在最外層"@),
        )
    } else {
        seq![
            bracket_issue(
                t,
                p,
                if open.len() > 0 {
                    interleaved(t[p])
                } else {
                    unmatched(t[p])
                },
            ),
        ]
    }
}

/// What is wrong with the closing brackets of `from..i`.
pub open spec fn closing_findings(t: Seq<char>, ex: Seq<ByteRange>, from: int, i: int) -> Seq<
    IssueModel,
>
    decreases i - from,
{
    if i <= from {
        Seq::empty()
    } else {
        let p = i - 1;
        closing_findings(t, ex, from, p) + (if closes_bracket(t[p]) && !span_excluded(
            t,
            ex,
            p,
            p + 1,
        ) {
            close_findings(t, open_brackets(t, ex, from, p), p)
        } else {
            Seq::empty()
        })
    }
}

/// The brackets that are left open.
pub open spec fn unclosed_rule(t: Seq<char>, open: Seq<int>) -> spec_fn(int) -> Seq<IssueModel> {
    |k: int| seq![bracket_issue(t, open[k], unclosed(t[open[k]]))]
}

/// What is wrong with the brackets of the `k`-th paragraph.
pub open spec fn hierarchy_rule(t: Seq<char>, ex: Seq<ByteRange>, p: Seq<(int, int)>) -> spec_fn(
    int,
) -> Seq<IssueModel> {
    |k: int|
        {
            let open = open_brackets(t, ex, p[k].0, p[k].1);
            closing_findings(t, ex, p[k].0, p[k].1) + each(
                open.len() as int,
                unclosed_rule(t, open),
            )
        }
}

/// A paragraph in which no bracket stands has nothing wrong with it.
pub proof fn law_no_brackets_no_findings(
    t: Seq<char>,
    ex: Seq<ByteRange>,
    p: Seq<(int, int)>,
    k: int,
)
    requires
        0 <= k < p.len(),
        forall|i: int|
            p[k].0 <= i < p[k].1 ==> !opens_bracket(#[trigger] t[i]) && !closes_bracket(t[i]),
    ensures
        hierarchy_rule(t, ex, p)(k) == Seq::<IssueModel>::empty(),
{
    lemma_no_brackets(t, ex, p[k].0, p[k].1);
}

proof fn lemma_no_brackets(t: Seq<char>, ex: Seq<ByteRange>, from: int, i: int)
    requires
        forall|j: int| from <= j < i ==> !opens_bracket(#[trigger] t[j]) && !closes_bracket(t[j]),
    ensures
        open_brackets(t, ex, from, i) == Seq::<int>::empty(),
        closing_findings(t, ex, from, i) == Seq::<IssueModel>::empty(),
    decreases i - from,
{
    if from < i {
        lemma_no_brackets(t, ex, from, i - 1);
        assert(!opens_bracket(t[i - 1]));
    }
}

fn closing_message(c: char, any_open: bool) -> (r: &'static str)
    requires
        closes_bracket(c),
    ensures
        r@ == (if any_open {
            interleaved(c)
        } else {
            unmatched(c)
        }),
{
    if any_open {
        if c == '》' {
            "書名號層級錯誤：《》與引號交錯嵌套"
        } else {
            "引號層級錯誤：「」與『』交錯嵌套"
        }
    } else if c == '」' {
        "多餘的關閉引號「」」，找不到對應的開啟引號「「」"
    } else if c == '』' {
        "多餘的關閉引號「』」，找不到對應的開啟引號「『」"
    } else {
        "多餘的關閉書名號「》」，找不到對應的開啟書名號「《」"
    }
}

fn unclosed_message(c: char) -> (r: &'static str)
    ensures
        r@ == unclosed(c),
{
    if c == '「' {
        "段落結束時「」未關閉"
    } else if c == '『' {
        "段落結束時『』未關閉"
    } else {
        "段落結束時《》未關閉"
    }
}

/// The positions as mathematical integers.
spec fn positions(v: Seq<usize>) -> Seq<int> {
    Seq::new(v.len(), |k: int| v[k] as int)
}

/// Takes a closing bracket against those that are open.
fn close_quote(em: &mut Emitter<'_>, stack: &mut Vec<usize>, p: usize)
    requires
        old(em).wf(),
        p < old(em).chars().len(),
        closes_bracket(old(em).chars()[p as int]),
        forall|k: int| 0 <= k < old(stack)@.len() ==> (#[trigger] old(stack)@[k]) < p,
    ensures
        final(em).wf(),
        final(em).extends(
            old(em),
            close_findings(old(em).chars(), positions(old(stack)@), p as int),
        ),
        final(stack)@ == (if matches_last(
            old(em).chars(),
            positions(old(stack)@),
            p as int,
        ) {
            old(stack)@.drop_last()
        } else {
            old(stack)@
        }),
{
    let ghost start = *em;
    let ghost open = positions(stack@);
    let ghost t = em.chars();
    let _len: usize = em.text.len();
    let c = em.text.ch(p);
    let opener = if c == '」' {
        '「'
    } else if c == '』' {
        '『'
    } else {
        '《'
    };
    let n: usize = stack.len();
    if n > 0 && em.text.ch(stack[n - 1]) == opener {
        stack.pop();
        let mut outermost: bool = true;
        let mut k: usize = 0;
        while k < n - 1
            invariant
                em.wf(),
                t == em.chars(),
                n == open.len(),
                n > 0,
                k <= n - 1,
                stack@.len() == n - 1,
                p < t.len(),
                forall|k: int| 0 <= k < stack@.len() ==> (#[trigger] stack@[k]) < p,
                forall|k: int| 0 <= k < stack@.len() ==> #[trigger] open[k] == stack@[k],
                outermost == forall|j: int| 0 <= j < k ==> t[#[trigger] open[j]] != '「',
            decreases n - k,
        {
            assert(open[k as int] == stack@[k as int]);
            if em.text.ch(stack[k]) == '「' {
                outermost = false;
            }
            k = k + 1;
        }
        if c == '』' && outermost {
            em.report_punctuation(
                p,
                p + 1,
                "".to_owned(),
                Severity::Warning,
                "『』應嵌套在「」內使用，不應出現在最外層",
            );
        }
        assert(em.out() =~= start.out() + close_findings(t, open, p as int));
    } else {
        em.report_punctuation(
            p,
            p + 1,
            "".to_owned(),
            Severity::Warning,
            closing_message(c, n > 0),
        );
    }
}

/// Checks the brackets of one paragraph.
fn check_paragraph(em: &mut Emitter<'_>, from: usize, to: usize)
    requires
        old(em).wf(),
        from <= to <= old(em).chars().len(),
    ensures
        final(em).wf(),
        ({
            let (t, ex) = (old(em).chars(), old(em).ex());
            let open = open_brackets(t, ex, from as int, to as int);
            final(em).extends(
                old(em),
                closing_findings(t, ex, from as int, to as int) + each(
                    open.len() as int,
                    unclosed_rule(t, open),
                ),
            )
        }),
{
    let ghost start = *em;
    let ghost t = em.chars();
    let ghost ex = em.ex();
    let _len: usize = em.text.len();
    let mut stack: Vec<usize> = Vec::new();
    let mut i: usize = from;
    assert(positions(stack@) =~= Seq::empty());
    while i < to
        invariant
            em.wf(),
            t == start.chars(),
            ex == start.ex(),
            from <= i <= to <= t.len(),
            positions(stack@) == open_brackets(t, ex, from as int, i as int),
            forall|k: int| 0 <= k < stack@.len() ==> (#[trigger] stack@[k]) < i,
            em.extends(&start, closing_findings(t, ex, from as int, i as int)),
        decreases to - i,
    {
        let ghost before = stack@;
        let c = em.text.ch(i);
        if !em.excluded_span(i, i + 1) {
            if c == '「' || c == '『' || c == '《' {
                stack.push(i);
                assert(positions(stack@) =~= positions(before).push(i as int));
            } else if c == '」' || c == '』' || c == '》' {
                close_quote(em, &mut stack, i);
                proof {
                    if matches_last(t, positions(before), i as int) {
                        assert(positions(stack@) =~= positions(before).drop_last());
                    }
                }
            }
        }
        i = i + 1;
        assert(em.out() =~= start.out() + closing_findings(t, ex, from as int, i as int));
    }
    let ghost open = positions(stack@);
    let ghost f = unclosed_rule(t, open);
    let ghost said = closing_findings(t, ex, from as int, to as int);
    let mut k: usize = 0;
    assert(em.out() =~= start.out() + (said + each(0, f)));
    while k < stack.len()
        invariant
            em.wf(),
            t == start.chars(),
            open == positions(stack@),
            f == unclosed_rule(t, open),
            k <= stack@.len(),
            to <= t.len(),
            forall|k: int| 0 <= k < stack@.len() ==> (#[trigger] stack@[k]) < to,
            em.extends(&start, said + each(k as int, f)),
        decreases stack@.len() - k,
    {
        let p: usize = stack[k];
        assert(open[k as int] == p);
        em.report_punctuation(
            p,
            p + 1,
            "".to_owned(),
            Severity::Warning,
            unclosed_message(em.text.ch(p)),
        );
        assert(em.out() =~= start.out() + (said + (each(k as int, f) + f(k as int))));
        k = k + 1;
    }
}

/// Checks that the brackets of every paragraph nest: that each closing one
/// closes the last one open, that 『』 stands within 「」, and that none is left
/// open.
pub fn validate_quote_hierarchy(em: &mut Emitter<'_>)
    requires
        old(em).wf(),
    ensures
        final(em).wf(),
        final(em).extends(
            old(em),
            each(
                paragraphs_of(old(em).chars()).len() as int,
                hierarchy_rule(old(em).chars(), old(em).ex(), paragraphs_of(old(em).chars())),
            ),
        ),
{
    let ghost start = *em;
    let ghost p = paragraphs_of(em.chars());
    let ghost f = hierarchy_rule(em.chars(), em.ex(), p);
    let paragraphs = paragraph_spans(&em.text);
    let mut k: usize = 0;
    assert(em.out() =~= start.out() + each(0, f));
    while k < paragraphs.len()
        invariant
            em.wf(),
            k <= paragraphs@.len(),
            spans(paragraphs@) == p,
            f == hierarchy_rule(start.chars(), start.ex(), p),
            forall|j: int|
                0 <= j < paragraphs@.len() ==> (#[trigger] paragraphs@[j]).start
                    <= paragraphs@[j].end <= start.chars().len(),
            em.extends(&start, each(k as int, f)),
        decreases paragraphs@.len() - k,
    {
        let b = paragraphs[k];
        assert(p[k as int] == (b.start as int, b.end as int));
        check_paragraph(em, b.start, b.end);
        assert(em.out() =~= start.out() + (each(k as int, f) + f(k as int)));
        k = k + 1;
    }
}

} // verus!
