//! What rules ask for besides their phrase, and what they choose by it.
use vstd::prelude::*;

use crate::absorb::{
    absorbers, candidates, forms_in, froms, harmless, has_form, hides, hides_another, paired_with,
    pairs, takes_in,
};
use crate::automaton::Hit;
use crate::casing::{switched_on, CaseModel};
use crate::clues::{all_hold, behind, clue_holds, parsed_clue, prefixed, ClueModel};
use crate::database::{parsed_clues, positional_of, CompiledSpellingDb};
use crate::emit::{excluded_in, overlaps, span_excluded, ByteRange};
use crate::inflate::selection;
use crate::laws::reading::{
    lemma_count_all, lemma_read_found, lemma_reads, lemma_untouched, reads, untouched,
};
use crate::laws::rules::stands_on;
use crate::laws::structure::one_line;
use crate::predicates::extended_end;
use crate::profile::ProfileConfig;
use crate::ranges::{covers, holds};
use crate::rules::{listed_or_none, ChineseType, GroupModel, PoliticalStance, RuleModel, RuleType};
use crate::scanner::{active_rules, consulted, rule_consulted};
use crate::script::line_starts;
use crate::selector::{groups_of, selected, selects};
use crate::spelling::match_findings;
use crate::text::{
    byte_pos, contains_in, find_in, least, lemma_byte_pos_monotone, lemma_find_in,
    lemma_floor_bounds, occurs_at,
};
use crate::window::{
    after_span, before_span, context_span, law_positional_windows,
    law_single_line_ends_do_not_narrow_the_window,
};

verus! {

/// The strings that write clues tied to a side, and which clue each writes.
pub proof fn law_clues_are_written_with_their_side(term: Seq<char>)
    requires
        term.len() > 0,
    ensures
        parsed_clue(seq!['b', 'e', 'f', 'o', 'r', 'e', ':'] + term) == Some(
            ClueModel::Before(term),
        ),
        parsed_clue(seq!['a', 'f', 't', 'e', 'r', ':'] + term) == Some(ClueModel::After(term)),
        parsed_clue(seq!['a', 'd', 'j', 'a', 'c', 'e', 'n', 't', ':'] + term) == Some(
            ClueModel::Adjacent(term),
        ),
        parsed_clue(seq!['n', 'o', 't', '_', 'b', 'e', 'f', 'o', 'r', 'e', ':'] + term) == Some(
            ClueModel::NotBefore(term),
        ),
        parsed_clue(seq!['n', 'o', 't', '_', 'a', 'f', 't', 'e', 'r', ':'] + term) == Some(
            ClueModel::NotAfter(term),
        ),
{
    reveal_strlit("not_before:");
    reveal_strlit("not_after:");
    reveal_strlit("before:");
    reveal_strlit("after:");
    reveal_strlit("adjacent:");
    let b = seq!['b', 'e', 'f', 'o', 'r', 'e', ':'];
    let a = seq!['a', 'f', 't', 'e', 'r', ':'];
    let d = seq!['a', 'd', 'j', 'a', 'c', 'e', 'n', 't', ':'];
    let nb = seq!['n', 'o', 't', '_', 'b', 'e', 'f', 'o', 'r', 'e', ':'];
    let na = seq!['n', 'o', 't', '_', 'a', 'f', 't', 'e', 'r', ':'];
    assert("before:"@ =~= b);
    assert("after:"@ =~= a);
    assert("adjacent:"@ =~= d);
    assert("not_before:"@ =~= nb);
    assert("not_after:"@ =~= na);
    lemma_prefix(b, term);
    lemma_prefix(a, term);
    lemma_prefix(d, term);
    lemma_prefix(nb, term);
    lemma_prefix(na, term);
    lemma_other_start(b + term, nb, 0);
    lemma_other_start(b + term, na, 0);
    lemma_other_start(a + term, nb, 0);
    lemma_other_start(a + term, na, 0);
    lemma_other_start(a + term, b, 0);
    lemma_other_start(d + term, nb, 0);
    lemma_other_start(d + term, na, 0);
    lemma_other_start(d + term, b, 0);
    lemma_other_start(d + term, a, 1);
    lemma_other_start(na + term, nb, 4);
}

proof fn lemma_prefix(p: Seq<char>, term: Seq<char>)
    requires
        term.len() > 0,
    ensures
        prefixed(p + term, p),
        behind(p + term, p) == term,
{
    assert((p + term).subrange(0, p.len() as int) =~= p);
    assert((p + term).subrange(p.len() as int, (p + term).len() as int) =~= term);
}

proof fn lemma_other_start(s: Seq<char>, p: Seq<char>, i: int)
    requires
        0 <= i < p.len(),
        i < s.len(),
        s[i] != p[i],
    ensures
        !prefixed(s, p),
{
    if occurs_at(s, p, 0) {
        assert(s.subrange(0, p.len() as int)[i] == s[i]);
    }
}

/// The term stands whole in `from..to`.
pub open spec fn stands_in(t: Seq<char>, x: Seq<char>, from: int, to: int) -> bool {
    exists|q: int| from <= q && q + x.len() <= to && #[trigger] reads(t, q, x)
}

proof fn lemma_stands_in(t: Seq<char>, x: Seq<char>, from: int, to: int)
    requires
        0 <= from,
        to <= t.len(),
    ensures
        stands_in(t, x, from, to) == contains_in(t, x, from, to),
{
    lemma_find_in(t, x, from, to);
    if stands_in(t, x, from, to) {
        let q = choose|q: int| from <= q && q + x.len() <= to && #[trigger] reads(t, q, x);
        lemma_read_found(t, x, from, to, q);
    }
    if contains_in(t, x, from, to) {
        let q = find_in(t, x, from, to)->0;
        lemma_reads(t, q, x);
        assert(reads(t, q, x));
    }
}

/// What the clues tied to a side ask for, in a text of one line of which nothing
/// is excluded: `before:` that the term stands behind the match, within twenty
/// characters; `after:` that it stands before the match, as near; `adjacent:`
/// that it touches the match on either side; the other two that it does not stand
/// there.
pub proof fn law_clues_tied_to_a_side(t: Seq<char>, s: int, e: int, x: Seq<char>)
    requires
        0 <= s <= e <= t.len(),
        one_line(t, 0, t.len() as int),
    ensures
        ({
            let ex = Seq::<ByteRange>::empty();
            let behind = stands_in(t, x, e, least(e + 20, t.len() as int));
            let before = stands_in(
                t,
                x,
                if s < 20 {
                    0
                } else {
                    s - 20
                },
                s,
            );
            &&& clue_holds(t, ex, s, e, ClueModel::Before(x)) == behind
            &&& clue_holds(t, ex, s, e, ClueModel::NotBefore(x)) == !behind
            &&& clue_holds(t, ex, s, e, ClueModel::After(x)) == before
            &&& clue_holds(t, ex, s, e, ClueModel::NotAfter(x)) == !before
            &&& clue_holds(t, ex, s, e, ClueModel::Adjacent(x)) == (reads(t, s - x.len(), x)
                || reads(t, e, x))
        }),
{
    let ex = Seq::<ByteRange>::empty();
    law_positional_windows(t, ex, s, e);
    let a = before_span(t, ex, s);
    let b = after_span(t, ex, e);
    if a >= 2 && a < s {
        assert(t[a - 1] != '\n');
    }
    if a >= 1 {
        assert(t[a - 1] != '\n');
    }
    if b < t.len() {
        assert(t[b] != '\n');
    }
    assert(a == (if s < 20 {
        0
    } else {
        s - 20
    }));
    assert(b == least(e + 20, t.len() as int));
    lemma_stands_in(t, x, e, b);
    lemma_stands_in(t, x, a, s);
    lemma_reads(t, s - x.len(), x);
    lemma_reads(t, e, x);
    assert(!span_excluded(t, ex, s - x.len(), s));
    assert(!span_excluded(t, ex, e, e + x.len()));
}

proof fn lemma_clue_listed(raw: Seq<Seq<char>>, n: int, k: int)
    requires
        0 <= k < n <= raw.len(),
        parsed_clue(raw[k]) is Some,
    ensures
        parsed_clues(raw, n).contains(parsed_clue(raw[k])->0),
    decreases n,
{
    let before = parsed_clues(raw, n - 1);
    let now = parsed_clues(raw, n);
    let c = parsed_clue(raw[k])->0;
    if k < n - 1 {
        lemma_clue_listed(raw, n - 1, k);
        let j = choose|j: int| 0 <= j < before.len() && before[j] == c;
        assert(now[j] == c);
    } else {
        assert(now[before.len() as int] == c);
    }
}

/// A rule is silent where one of its clues tied to a side does not hold.
pub proof fn law_a_failing_clue_silences_a_rule(
    db: &CompiledSpellingDb,
    t: Seq<char>,
    ex: Seq<ByteRange>,
    cfg: ProfileConfig,
    stance: PoliticalStance,
    zh_type: ChineseType,
    straddles: bool,
    hit: Hit,
    s: int,
    e: int,
    k: int,
)
    requires
        hit.pattern < db.models().len(),
        stands_on(t, hit, s, e),
        db.models()[hit.pattern as int].positional_clues matches Some(raw) && 0 <= k < raw.len()
            && parsed_clue(raw[k]) is Some && !clue_holds(t, ex, s, e, parsed_clue(raw[k])->0),
    ensures
        match_findings(db, t, ex, cfg, stance, zh_type, straddles, hit).len() == 0,
{
    let m = db.models()[hit.pattern as int];
    let raw = listed_or_none(m.positional_clues);
    lemma_clue_listed(raw, raw.len() as int, k);
    let clues = positional_of(m);
    let c = parsed_clue(raw[k])->0;
    let j = choose|j: int| 0 <= j < clues.len() && clues[j] == c;
    assert(!clue_holds(t, ex, s, e, clues[j]));
    lemma_floor_bounds(t, hit.start as int, s, s);
    lemma_floor_bounds(t, hit.end as int, e, e);
    assert(!all_hold(t, ex, s, e, clues));
}

/// Where a filler phrase is to be deleted, the full-width comma or colon right
/// behind it goes with it.
pub proof fn law_deletions_take_in_a_mark(t: Seq<char>, ex: Seq<ByteRange>, e: int)
    requires
        0 <= e <= t.len(),
        untouched(t, ex, e, least(e + 1, t.len() as int)),
    ensures
        extended_end(t, ex, e) == (if e < t.len() && (t[e] == '，' || t[e] == '：') {
            e + 1
        } else {
            e
        }),
{
    if e < t.len() {
        lemma_untouched(t, ex, e, e + 1, e, e + 1);
    }
}

/// The first group of which a clue stands in the window decides, and without any
/// none does.
pub proof fn law_the_first_group_with_a_clue_decides(
    window: Seq<char>,
    g: Seq<GroupModel>,
    i: int,
)
    requires
        0 <= i <= g.len(),
        forall|j: int, k: int|
            0 <= j < i && 0 <= k < g[j].clues.len() ==> !#[trigger] stands_in(
                window,
                g[j].clues[k],
                0,
                window.len() as int,
            ),
        i < g.len() ==> exists|k: int|
            0 <= k < g[i].clues.len() && #[trigger] stands_in(
                window,
                g[i].clues[k],
                0,
                window.len() as int,
            ),
    ensures
        selected(window, g, 0) == (if i < g.len() {
            Some(i)
        } else {
            None
        }),
{
    lemma_group_from(window, g, i, 0);
}

proof fn lemma_group_from(window: Seq<char>, g: Seq<GroupModel>, i: int, from: int)
    requires
        0 <= from <= i <= g.len(),
        forall|j: int, k: int|
            0 <= j < i && 0 <= k < g[j].clues.len() ==> !#[trigger] stands_in(
                window,
                g[j].clues[k],
                0,
                window.len() as int,
            ),
        i < g.len() ==> exists|k: int|
            0 <= k < g[i].clues.len() && #[trigger] stands_in(
                window,
                g[i].clues[k],
                0,
                window.len() as int,
            ),
    ensures
        selected(window, g, from) == (if i < g.len() {
            Some(i)
        } else {
            None
        }),
    decreases i - from,
{
    let n = window.len() as int;
    if from < i {
        if selects(window, g[from]) {
            let k = choose|k: int|
                0 <= k < g[from].clues.len() && #[trigger] contains_in(
                    window,
                    g[from].clues[k],
                    0,
                    n,
                );
            lemma_stands_in(window, g[from].clues[k], 0, n);
            assert(!stands_in(window, g[from].clues[k], 0, n));
        }
        lemma_group_from(window, g, i, from + 1);
    } else if i < g.len() {
        let k = choose|k: int|
            0 <= k < g[i].clues.len() && #[trigger] stands_in(window, g[i].clues[k], 0, n);
        lemma_stands_in(window, g[i].clues[k], 0, n);
        assert(selects(window, g[i]));
    }
}

/// The characters from forty before the match to forty behind it, as far as there
/// are that many.
pub open spec fn nearby(t: Seq<char>, s: int, e: int) -> Seq<char> {
    t.subrange(
        if s < 40 {
            0
        } else {
            s - 40
        },
        if e + 40 > t.len() {
            t.len() as int
        } else {
            e + 40
        },
    )
}

/// A group is chosen by what stands within forty characters of the match, in a
/// text of one line of which nothing is excluded.
pub proof fn law_groups_go_by_the_window(t: Seq<char>, m: RuleModel, s: int, e: int, i: int)
    requires
        0 <= s <= e <= t.len(),
        one_line(t, 0, t.len() as int),
        0 <= i <= groups_of(m).len(),
        ({
            let g = groups_of(m);
            let w = nearby(t, s, e);
            &&& forall|j: int, k: int|
                0 <= j < i && 0 <= k < g[j].clues.len() ==> !#[trigger] stands_in(
                    w,
                    g[j].clues[k],
                    0,
                    w.len() as int,
                )
            &&& i < g.len() ==> exists|k: int|
                0 <= k < g[i].clues.len() && #[trigger] stands_in(
                    w,
                    g[i].clues[k],
                    0,
                    w.len() as int,
                )
        }),
    ensures
        selection(t, Seq::empty(), m, byte_pos(t, s), byte_pos(t, e)) == (if i
            < groups_of(m).len() {
            Some(groups_of(m)[i].to)
        } else {
            None
        }),
{
    lemma_floor_bounds(t, byte_pos(t, s), s, s);
    lemma_floor_bounds(t, byte_pos(t, e), e, e);
    assert forall|q: int|
        0 <= q && s - 43 <= q < e + 40 && q + 1 < t.len() && #[trigger] t[q] == '\n' implies t[q + 1]
        != '\n' && t[q + 1] != '\r' by {}
    law_single_line_ends_do_not_narrow_the_window(t, s, e);
    let (a, b) = context_span(t, Seq::empty(), s, e);
    let w = nearby(t, s, e);
    assert(w == t.subrange(a, b));
    let g = groups_of(m);
    law_the_first_group_with_a_clue_decides(w, g, i);
}

proof fn lemma_pair_listed(v: Seq<RuleModel>, n: int, i: int, form: Seq<char>) -> (k: int)
    requires
        0 <= i < n <= v.len(),
        forms_in(v[i]).contains(form),
    ensures
        0 <= k < pairs(v, n).len(),
        pairs(v, n)[k] == (form, v[i].from),
    decreases n,
{
    let before = pairs(v, n - 1);
    let own = paired_with(forms_in(v[n - 1]), v[n - 1].from);
    if i < n - 1 {
        let k = lemma_pair_listed(v, n - 1, i, form);
        assert(pairs(v, n)[k] == before[k]);
        k
    } else {
        let f = forms_in(v[i]);
        let j = choose|j: int| 0 <= j < f.len() && f[j] == form;
        assert(pairs(v, n)[before.len() + j] == own[j]);
        before.len() + j
    }
}

/// The form has a candidate, and the phrase of that is one that the form holds.
proof fn lemma_candidate_listed(
    f: Seq<Seq<char>>,
    p: Seq<(Seq<char>, Seq<char>)>,
    n: int,
    k: int,
) -> (j: int)
    requires
        0 <= k < n <= p.len(),
        takes_in(f, p[k]),
    ensures
        0 <= j < candidates(f, p, n).len(),
        candidates(f, p, n)[j].0 == p[k].0,
    decreases n,
{
    let before = candidates(f, p, n - 1);
    if k < n - 1 {
        let j = lemma_candidate_listed(f, p, n - 1, k);
        assert(candidates(f, p, n)[j] == before[j]);
        j
    } else if has_form(before, p[k].0) {
        let j = choose|j: int| 0 <= j < before.len() && (#[trigger] before[j]).0 == p[k].0;
        j
    } else {
        before.len() as int
    }
}

proof fn lemma_candidates_take_in(
    f: Seq<Seq<char>>,
    p: Seq<(Seq<char>, Seq<char>)>,
    n: int,
    j: int,
)
    requires
        0 <= n <= p.len(),
        0 <= j < candidates(f, p, n).len(),
    ensures
        takes_in(f, candidates(f, p, n)[j]),
        exists|m: int| 0 <= m < n && #[trigger] p[m] == candidates(f, p, n)[j],
    decreases n,
{
    let before = candidates(f, p, n - 1);
    if j < before.len() {
        lemma_candidates_take_in(f, p, n - 1, j);
        assert(candidates(f, p, n)[j] == before[j]);
        let m = choose|m: int| 0 <= m < n - 1 && #[trigger] p[m] == before[j];
        assert(p[m] == candidates(f, p, n)[j]);
    } else {
        assert(p[n - 1] == candidates(f, p, n)[j]);
    }
}

proof fn lemma_harmless_listed(
    f: Seq<Seq<char>>,
    c: Seq<(Seq<char>, Seq<char>)>,
    n: int,
    j: int,
)
    requires
        0 <= j < n <= c.len(),
        !hides_another(f, c[j]),
    ensures
        harmless(f, c, n).contains(c[j].0),
    decreases n,
{
    let before = harmless(f, c, n - 1);
    let now = harmless(f, c, n);
    if j < n - 1 {
        lemma_harmless_listed(f, c, n - 1, j);
        let k = choose|k: int| 0 <= k < before.len() && before[k] == c[j].0;
        assert(now[k] == c[j].0);
    } else {
        assert(now[before.len() as int] == c[j].0);
    }
}

/// An exception or a replacement of a rule that holds the rule's phrase, is no
/// phrase itself, and neither holds another rule's phrase nor ends on the
/// beginning of one, is matched as a whole, so that the phrase within it is not.
pub proof fn law_forms_around_a_phrase_are_matched_whole(
    v: Seq<RuleModel>,
    i: int,
    form: Seq<char>,
    q: int,
)
    requires
        0 <= i < v.len(),
        v[i].to.contains(form) || (v[i].exceptions matches Some(x) && x.contains(form)),
        reads(form, q, v[i].from),
        forall|n: int| 0 <= n < v.len() ==> (#[trigger] v[n]).from != form,
        forall|n: int, r: int|
            0 <= n < v.len() && v[n].from != v[i].from ==> !#[trigger] reads(form, r, v[n].from),
        forall|n: int, r: int|
            0 <= n < v.len() && v[n].from != v[i].from && 1 <= r < form.len() ==> !#[trigger] reads(
                v[n].from,
                0,
                form.subrange(r, form.len() as int),
            ),
    ensures
        absorbers(v).contains(form),
{
    let f = froms(v);
    let p = pairs(v, v.len() as int);
    let c = candidates(f, p, p.len() as int);
    let own = forms_in(v[i]);
    let x = listed_or_none(v[i].exceptions);
    if v[i].to.contains(form) {
        let j = choose|j: int| 0 <= j < v[i].to.len() && v[i].to[j] == form;
        assert(own[x.len() + j] == form);
    } else {
        let j = choose|j: int| 0 <= j < x.len() && x[j] == form;
        assert(own[j] == form);
    }
    let k = lemma_pair_listed(v, v.len() as int, i, form);
    lemma_read_found(form, v[i].from, 0, form.len() as int, q);
    assert(!f.contains(form)) by {
        if f.contains(form) {
            let n = choose|n: int| 0 <= n < f.len() && f[n] == form;
            assert(v[n].from == form);
        }
    }
    assert(takes_in(f, p[k]));
    let j = lemma_candidate_listed(f, p, p.len() as int, k);
    lemma_candidates_take_in(f, p, p.len() as int, j);
    let phrase = c[j].1;
    lemma_phrase_is(v, i, form, c[j]);
    assert(!hides_another(f, c[j])) by {
        if hides_another(f, c[j]) {
            let n = choose|n: int| 0 <= n < f.len() && #[trigger] f[n] != c[j].1 && hides(
                c[j].0,
                f[n],
            );
            lemma_not_hidden(v, i, form, n);
        }
    }
    lemma_harmless_listed(f, c, c.len() as int, j);
}

/// The phrase of a candidate for the form is the rule's own.
proof fn lemma_phrase_is(v: Seq<RuleModel>, i: int, form: Seq<char>, c: (Seq<char>, Seq<char>))
    requires
        0 <= i < v.len(),
        c.0 == form,
        contains_in(c.0, c.1, 0, c.0.len() as int),
        exists|m: int|
            0 <= m < pairs(v, v.len() as int).len() && #[trigger] pairs(v, v.len() as int)[m] == c,
        forall|n: int, r: int|
            0 <= n < v.len() && v[n].from != v[i].from ==> !#[trigger] reads(form, r, v[n].from),
    ensures
        c.1 == v[i].from,
{
    let m = choose|m: int|
        0 <= m < pairs(v, v.len() as int).len() && #[trigger] pairs(v, v.len() as int)[m] == c;
    let n = lemma_pair_rule(v, v.len() as int, m);
    if v[n].from != v[i].from {
        lemma_find_in(form, c.1, 0, form.len() as int);
        let r = find_in(form, c.1, 0, form.len() as int)->0;
        lemma_reads(form, r, c.1);
        assert(!reads(form, r, v[n].from));
    }
}

proof fn lemma_pair_rule(v: Seq<RuleModel>, n: int, m: int) -> (i: int)
    requires
        0 <= n <= v.len(),
        0 <= m < pairs(v, n).len(),
    ensures
        0 <= i < n,
        pairs(v, n)[m].1 == v[i].from,
    decreases n,
{
    let before = pairs(v, n - 1);
    if m < before.len() {
        lemma_pair_rule(v, n - 1, m)
    } else {
        n - 1
    }
}

proof fn lemma_not_hidden(v: Seq<RuleModel>, i: int, form: Seq<char>, n: int)
    requires
        0 <= i < v.len(),
        0 <= n < v.len(),
        v[n].from != v[i].from,
        forall|n: int, r: int|
            0 <= n < v.len() && v[n].from != v[i].from ==> !#[trigger] reads(form, r, v[n].from),
        forall|n: int, r: int|
            0 <= n < v.len() && v[n].from != v[i].from && 1 <= r < form.len() ==> !#[trigger] reads(
                v[n].from,
                0,
                form.subrange(r, form.len() as int),
            ),
    ensures
        !hides(form, v[n].from),
{
    let x = v[n].from;
    lemma_find_in(form, x, 0, form.len() as int);
    if contains_in(form, x, 0, form.len() as int) {
        let r = find_in(form, x, 0, form.len() as int)->0;
        lemma_reads(form, r, x);
        assert(!reads(form, r, v[n].from));
    }
    if exists|r: int|
        1 <= r < form.len() && #[trigger] occurs_at(x, form.subrange(r, form.len() as int), 0) {
        let r = choose|r: int|
            1 <= r < form.len() && #[trigger] occurs_at(x, form.subrange(r, form.len() as int), 0);
        lemma_reads(x, 0, form.subrange(r, form.len() as int));
        assert(!reads(v[n].from, 0, form.subrange(r, form.len() as int)));
    }
}

/// A profile with everything on consults every rule, and one without spelling
/// none.
pub proof fn law_how_many_rules_are_consulted(cfg: ProfileConfig, v: Seq<RuleModel>)
    ensures
        cfg.spelling && cfg.variant_normalization && cfg.ai_filler_detection
            && cfg.translationese_detection ==> active_rules(cfg, v) == v.len(),
        !cfg.spelling ==> active_rules(cfg, v) == 0,
{
    if cfg.spelling && cfg.variant_normalization && cfg.ai_filler_detection
        && cfg.translationese_detection {
        lemma_count_all(0, v.len() as int, rule_consulted(cfg, v));
    }
}

/// A profile that leaves one type out consults the rules of the other types.
pub proof fn law_a_type_that_is_off_is_not_consulted(cfg: ProfileConfig, m: RuleType)
    ensures
        m is Variant ==> consulted(cfg, m) == cfg.variant_normalization,
        m is AiFiller ==> consulted(cfg, m) == cfg.ai_filler_detection,
        m is Translationese ==> consulted(cfg, m) == cfg.translationese_detection,
        m is CrossStrait || m is Confusable || m is PoliticalColoring ==> consulted(cfg, m),
{
}

/// A case rule is kept where it is not switched off, and none else is.
pub proof fn law_case_rules_that_are_on_are_kept(v: Seq<CaseModel>, n: int, i: int)
    requires
        0 <= i < n <= v.len(),
    ensures
        !v[i].disabled ==> switched_on(v, n).contains(v[i]),
        forall|k: int|
            0 <= k < switched_on(v, n).len() ==> !(#[trigger] switched_on(v, n)[k]).disabled,
    decreases n,
{
    let before = switched_on(v, n - 1);
    let now = switched_on(v, n);
    if n - 1 > 0 {
        let j = if i < n - 1 {
            i
        } else {
            0
        };
        law_case_rules_that_are_on_are_kept(v, n - 1, j);
    }
    if !v[i].disabled {
        if i == n - 1 {
            assert(now[before.len() as int] == v[i]);
        } else {
            let k = choose|k: int| 0 <= k < before.len() && before[k] == v[i];
            assert(now[k] == v[i]);
        }
    }
    assert forall|k: int| 0 <= k < now.len() implies !(#[trigger] now[k]).disabled by {
        if k < before.len() {
            assert(now[k] == before[k]);
        }
    }
}

/// A line begins at the beginning of the text and behind every line feed, and
/// nowhere else.
pub proof fn law_lines_begin_behind_line_feeds(t: Seq<char>, n: int, i: int)
    requires
        0 <= i < n <= t.len(),
    ensures
        line_starts(t, n).len() > 0,
        line_starts(t, n)[0] == 0,
        t[i] == '\n' ==> line_starts(t, n).contains(byte_pos(t, i + 1)),
        t[i] != '\n' ==> !line_starts(t, n).contains(byte_pos(t, i + 1)),
    decreases n,
{
    lemma_starts_within(t, n - 1);
    let before = line_starts(t, n - 1);
    let now = line_starts(t, n);
    if i < n - 1 {
        law_lines_begin_behind_line_feeds(t, n - 1, i);
        if before.contains(byte_pos(t, i + 1)) {
            let k = choose|k: int| 0 <= k < before.len() && before[k] == byte_pos(t, i + 1);
            assert(now[k] == byte_pos(t, i + 1));
        }
        if now.contains(byte_pos(t, i + 1)) && t[i] != '\n' {
            let k = choose|k: int| 0 <= k < now.len() && now[k] == byte_pos(t, i + 1);
            if k < before.len() {
                assert(before[k] == byte_pos(t, i + 1));
            } else {
                lemma_byte_pos_monotone(t, i + 1, n);
            }
        }
    } else {
        if t[i] == '\n' {
            assert(now[before.len() as int] == byte_pos(t, n));
        } else if now.contains(byte_pos(t, n)) {
            let k = choose|k: int| 0 <= k < now.len() && now[k] == byte_pos(t, n);
            lemma_byte_pos_monotone(t, n - 1, n);
        }
    }
}

proof fn lemma_starts_within(t: Seq<char>, n: int)
    requires
        0 <= n <= t.len(),
    ensures
        line_starts(t, n).len() > 0,
        line_starts(t, n)[0] == 0,
        forall|k: int|
            0 <= k < line_starts(t, n).len() ==> (#[trigger] line_starts(t, n)[k]) <= byte_pos(t, n),
    decreases n,
{
    if n > 0 {
        lemma_starts_within(t, n - 1);
        lemma_byte_pos_monotone(t, n - 1, n);
        let before = line_starts(t, n - 1);
        let now = line_starts(t, n);
        assert forall|k: int| 0 <= k < now.len() implies (#[trigger] now[k]) <= byte_pos(t, n) by {
            if k < before.len() {
                assert(now[k] == before[k]);
            }
        }
    } else {
        lemma_byte_pos_monotone(t, 0, 0);
    }
}

/// A span is excluded where it has a byte in common with a range.
pub proof fn law_exclusion_goes_by_bytes(ranges: Seq<ByteRange>, start: int, end: int)
    requires
        start < end,
        forall|k: int| 0 <= k < ranges.len() ==> (#[trigger] ranges[k]).start < ranges[k].end,
    ensures
        excluded_in(ranges, start, end) == exists|b: int|
            start <= b < end && #[trigger] covers(ranges, b),
{
    if excluded_in(ranges, start, end) {
        let k = choose|k: int| 0 <= k < ranges.len() && #[trigger] overlaps(ranges[k], start, end);
        let b = if ranges[k].start >= start {
            ranges[k].start as int
        } else {
            start
        };
        assert(holds(ranges[k], b));
        assert(covers(ranges, b));
    }
    if exists|b: int| start <= b < end && #[trigger] covers(ranges, b) {
        let b = choose|b: int| start <= b < end && #[trigger] covers(ranges, b);
        let k = choose|k: int| 0 <= k < ranges.len() && #[trigger] holds(ranges[k], b);
        assert(overlaps(ranges[k], start, end));
    }
}

} // verus!
