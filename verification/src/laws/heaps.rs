//! Heaps of modifiers, lists and slogans.
use vstd::prelude::*;

use crate::bounds::Bound;
use crate::chars::cjk_ideograph;
use crate::emit::ByteRange;
use crate::grammar::ai_list::{
    bullet, four_char_label, item_content, list_finding, list_item, lists_from, opens_bold,
    with_item, ListRun,
};
use crate::grammar::premodifier::{
    best_end, close_from, closes_at, de_at, de_count, first_de, marker_closes, noun_end,
    predicate_between, premodifier_at, premodifier_rule, span_finding, Zy5Gate, PREDICATE_MARKERS,
    PREDICATE_VERBS, SPAN_BREAKERS, SUBJECT_PRONOUNS,
};
use crate::issue::{PhaseFamily, PhasePass, StructuralFamily};
use crate::laws::reading::{
    absent, lemma_next_is, lemma_read_nowhere, lemma_reads, lemma_untouched, reads, untouched,
};
use crate::lines::skip_white;
use crate::text::{any_in, byte_pos, contains_in};
use crate::walk::{calque_reported, each, lemma_each_contains, style_reported};

verus! {

proof fn lemma_noun_end(t: Seq<char>, i: int, to: int)
    requires
        0 <= i <= to <= t.len(),
        forall|q: int| i <= q < to ==> cjk_ideograph(#[trigger] t[q]),
    ensures
        noun_end(t, i, to) == to,
    decreases to - i,
{
    if i < to {
        lemma_noun_end(t, i + 1, to);
    }
}

proof fn lemma_noun_end_within(t: Seq<char>, i: int, to: int)
    requires
        i <= to,
    ensures
        i <= noun_end(t, i, to) <= to,
    decreases to - i,
{
    if i < to && cjk_ideograph(t[i]) {
        lemma_noun_end_within(t, i + 1, to);
    }
}

/// A pre-modifier that ends where the span does has the furthest end.
proof fn lemma_best(
    t: Seq<char>,
    ex: Seq<ByteRange>,
    a: int,
    b: int,
    min_chars: int,
    min_de: int,
    last: int,
    d: int,
)
    requires
        a <= last < d <= b,
        premodifier_at(t, ex, a, b, min_chars, min_de, last),
        noun_end(t, last + 1, b) == b,
    ensures
        best_end(t, ex, a, b, min_chars, min_de, d) == Some(b),
    decreases d - a,
{
    let before = best_end(t, ex, a, b, min_chars, min_de, d - 1);
    lemma_best_within(t, ex, a, b, min_chars, min_de, d - 1);
    lemma_noun_end_within(t, d, b);
    if last < d - 1 {
        lemma_best(t, ex, a, b, min_chars, min_de, last, d - 1);
    }
}

proof fn lemma_best_within(
    t: Seq<char>,
    ex: Seq<ByteRange>,
    a: int,
    b: int,
    min_chars: int,
    min_de: int,
    d: int,
)
    requires
        a <= d <= b,
    ensures
        best_end(t, ex, a, b, min_chars, min_de, d) matches Some(e) ==> e <= b,
    decreases d - a,
{
    if d > a {
        lemma_best_within(t, ex, a, b, min_chars, min_de, d - 1);
        lemma_noun_end_within(t, d, b);
    }
}

/// Nothing that opens a predicate stands in `a..b`.
pub open spec fn no_predicate(t: Seq<char>, a: int, b: int) -> bool {
    &&& forall|k: int|
        0 <= k < PREDICATE_VERBS@.len() ==> absent(t, #[trigger] PREDICATE_VERBS@[k]@, a, b)
    &&& forall|k: int|
        0 <= k < PREDICATE_MARKERS@.len() ==> absent(t, #[trigger] PREDICATE_MARKERS@[k]@, a, b)
}

proof fn lemma_no_close(t: Seq<char>, a: int, from: int, b: int, c: int)
    requires
        0 <= a <= from <= c <= b + 1,
        b <= t.len(),
        no_predicate(t, a, b),
    ensures
        close_from(t, from, b, c) is None,
    decreases b + 1 - c,
{
    if c <= b {
        if closes_at(t, from, b, c) {
            let k = choose|k: int|
                0 <= k < PREDICATE_MARKERS@.len() && #[trigger] marker_closes(t, from, b, k, c);
            let x = PREDICATE_MARKERS@[k]@;
            lemma_markers_nonempty(k);
            let p = c - x.len();
            lemma_reads(t, p, x);
            assert(absent(t, x, a, b));
            assert(!reads(t, p, x));
        }
        if c < b {
            lemma_no_close(t, a, from, b, c + 1);
        }
    }
}

proof fn lemma_markers_nonempty(k: int)
    requires
        0 <= k < PREDICATE_MARKERS@.len(),
    ensures
        PREDICATE_MARKERS@[k]@.len() > 0,
{
    reveal_strlit("也");
    reveal_strlit("就");
    reveal_strlit("才");
    reveal_strlit("卻");
    reveal_strlit("便");
    reveal_strlit("可以");
    reveal_strlit("應該");
    reveal_strlit("必須");
    reveal_strlit("已經");
    reveal_strlit("正在");
    assert(PREDICATE_MARKERS@.len() == 10);
}

/// A sentence that is one heap: CJK ideographs alone, as many as the domain looks
/// for, with 的 at two places, a noun behind the last, no subject pronoun at its
/// beginning and nothing in it that opens a predicate. It is reported whole, as a
/// warning of translationese.
pub proof fn law_heaps_of_modifiers_are_reported(
    t: Seq<char>,
    ex: Seq<ByteRange>,
    sentences: Seq<Bound>,
    gate: Zy5Gate,
    k: int,
    c: int,
    d: int,
)
    requires
        0 <= k < sentences.len(),
        sentences[k].start < c < d,
        d + 1 < sentences[k].end <= t.len(),
        gate.min_chars <= sentences[k].end - sentences[k].start,
        gate.min_de <= 2,
        gate.calibrated_min_de <= 2,
        t[c] == '的' && t[d] == '的',
        forall|q: int|
            sentences[k].start <= q < sentences[k].end ==> cjk_ideograph(#[trigger] t[q]),
        ({
            let x = t[sentences[k].start as int];
            x != '我' && x != '你' && x != '他' && x != '她' && x != '它' && x != '咱' && x != '您'
        }),
        no_predicate(t, sentences[k].start as int, sentences[k].end as int),
        untouched(t, ex, sentences[k].start as int, sentences[k].end as int),
        forall|q: int| d < q < sentences[k].end ==> #[trigger] t[q] != '的',
    ensures
        calque_reported(
            each(sentences.len() as int, premodifier_rule(t, ex, sentences, gate)),
            byte_pos(t, sentences[k].start as int),
            byte_pos(t, sentences[k].end as int),
            Some((PhaseFamily::LongPremodifier, PhasePass::Lexical)),
        ),
{
    let (a, b) = (sentences[k].start as int, sentences[k].end as int);
    assert(SPAN_BREAKERS@.len() == 8);
    assert forall|r: int| a <= r < b implies !SPAN_BREAKERS@.contains(#[trigger] t[r]) by {
        if SPAN_BREAKERS@.contains(t[r]) {
            let i = choose|i: int| 0 <= i < SPAN_BREAKERS@.len() && SPAN_BREAKERS@[i] == t[r];
            lemma_breakers(i);
        }
    }
    lemma_next_is(t, SPAN_BREAKERS@, a, b, b);
    assert(!SUBJECT_PRONOUNS@.contains(t[a])) by {
        if SUBJECT_PRONOUNS@.contains(t[a]) {
            let i = choose|i: int| 0 <= i < SUBJECT_PRONOUNS@.len() && SUBJECT_PRONOUNS@[i] == t[a];
            assert(SUBJECT_PRONOUNS@.len() == 7);
            assert(i == 0 || i == 1 || i == 2 || i == 3 || i == 4 || i == 5 || i == 6);
        }
    }
    lemma_untouched(t, ex, a, b, c, c + 1);
    lemma_untouched(t, ex, a, b, d, d + 1);
    lemma_untouched(t, ex, a, b, a, b);
    lemma_noun_end(t, d + 1, b);
    let f = de_at(t, ex);
    assert(f(c) && f(d));
    assert(de_count(t, ex, a, b) >= 2) by {
        crate::laws::syntax::lemma_count_two(a, c, d, b, f);
    }
    let from = first_de(t, ex, a, b) + 1;
    lemma_first_de(t, ex, a, b, c);
    lemma_no_close(t, a, from, b, from);
    assert(!predicate_between(t, ex, a, b, b));
    assert(!any_in(t, PREDICATE_VERBS@, a, d)) by {
        if any_in(t, PREDICATE_VERBS@, a, d) {
            let n = choose|n: int|
                0 <= n < PREDICATE_VERBS@.len() && #[trigger] contains_in(
                    t,
                    PREDICATE_VERBS@[n]@,
                    a,
                    d,
                );
            let x = PREDICATE_VERBS@[n]@;
            assert(absent(t, x, a, b));
            assert forall|r: int| a <= r && r + x.len() <= d implies !#[trigger] reads(t, r, x) by {
                assert(!reads(t, r, x));
            }
            lemma_read_nowhere(t, x, a, d);
        }
    }
    assert(premodifier_at(t, ex, a, b, gate.min_chars as int, gate.min_de as int, d));
    lemma_best(t, ex, a, b, gate.min_chars as int, gate.min_de as int, d, b);
    let g = premodifier_rule(t, ex, sentences, gate);
    assert(g(k) == span_finding(t, ex, a, b, gate));
    let m = g(k)[0];
    assert(m.offset == byte_pos(t, a));
    assert(g(k).contains(m));
    lemma_each_contains(sentences.len() as int, g, k, m);
    let v = each(sentences.len() as int, g);
    let x = choose|x: int| 0 <= x < v.len() && v[x] == m;
    assert(v[x].offset == byte_pos(t, a));
}

proof fn lemma_breakers(i: int)
    requires
        0 <= i < 8,
    ensures
        !cjk_ideograph(SPAN_BREAKERS@[i]),
{
}

proof fn lemma_first_de(t: Seq<char>, ex: Seq<ByteRange>, a: int, b: int, c: int)
    requires
        a <= c < b,
        de_at(t, ex)(c),
    ensures
        a <= first_de(t, ex, a, b) <= c,
    decreases c - a,
{
    if !de_at(t, ex)(a) {
        lemma_first_de(t, ex, a + 1, b, c);
    }
}

/// A sentence with fewer characters than the domain looks for, or one that opens
/// on a subject pronoun, is no heap.
pub proof fn law_short_or_personal_spans_are_no_heaps(
    t: Seq<char>,
    ex: Seq<ByteRange>,
    a: int,
    b: int,
    gate: Zy5Gate,
)
    requires
        0 <= a < b <= t.len(),
        b - a < gate.min_chars || t[a] == '我' || t[a] == '你' || t[a] == '他' || t[a] == '她',
    ensures
        span_finding(t, ex, a, b, gate).len() == 0,
{
    assert(SUBJECT_PRONOUNS@[0] == '我' && SUBJECT_PRONOUNS@[1] == '你' && SUBJECT_PRONOUNS@[2] == '他'
        && SUBJECT_PRONOUNS@[3] == '她');
    if t[a] == '我' || t[a] == '你' || t[a] == '他' || t[a] == '她' {
        assert(SUBJECT_PRONOUNS@.contains(t[a]));
    } else {
        lemma_too_short(t, ex, a, b, gate.min_chars as int, gate.min_de as int, b);
    }
}

proof fn lemma_too_short(
    t: Seq<char>,
    ex: Seq<ByteRange>,
    a: int,
    b: int,
    min_chars: int,
    min_de: int,
    d: int,
)
    requires
        a <= d <= b,
        b - a < min_chars,
    ensures
        best_end(t, ex, a, b, min_chars, min_de, d) is None,
    decreases d - a,
{
    if d > a {
        lemma_too_short(t, ex, a, b, min_chars, min_de, d - 1);
        lemma_noun_end_within(t, d, b);
    }
}

/// Three items of a list that all open on a bold word, and are all there is, are
/// reported on the first; two are not.
pub proof fn law_mechanical_lists_are_reported(
    t: Seq<char>,
    ex: Seq<ByteRange>,
    lines: Seq<(int, int)>,
)
    requires
        lines.len() == 2 || lines.len() == 3,
        forall|k: int|
            0 <= k < lines.len() ==> {
                let (x, y) = #[trigger] lines[k];
                &&& 0 <= x
                &&& x + 4 <= y <= t.len()
                &&& reads(t, x, seq!['-', ' ', '*', '*'])
                &&& absent(t, seq!['*', '*'], x + 4, y)
            },
        untouched(t, ex, lines[0].0, lines[0].0 + 1),
    ensures
        lines.len() == 3 ==> style_reported(
            lists_from(t, ex, lines, 0, None),
            byte_pos(t, lines[0].0),
            byte_pos(t, lines[0].0 + 1),
            Some(StructuralFamily::MechanicalBullets),
        ),
        lines.len() == 2 ==> lists_from(t, ex, lines, 0, None).len() == 0,
{
    let (x, y) = lines[0];
    lemma_untouched(t, ex, x, x + 1, x, x + 1);
    lemma_bold_item(t, None, lines[0]);
    let one = with_item(t, None, x, y);
    lemma_bold_item(t, Some(one), lines[1]);
    let two = with_item(t, Some(one), lines[1].0, lines[1].1);
    reveal_with_fuel(lists_from, 5);
    if lines.len() == 3 {
        lemma_bold_item(t, Some(two), lines[2]);
        let three = with_item(t, Some(two), lines[2].0, lines[2].1);
        let v = lists_from(t, ex, lines, 0, None);
        assert(v == list_finding(t, ex, three));
        assert(v[0].offset == byte_pos(t, x));
    }
}

proof fn lemma_bold_item(t: Seq<char>, r: Option<ListRun>, line: (int, int))
    requires
        0 <= line.0,
        line.0 + 4 <= line.1 <= t.len(),
        reads(t, line.0, seq!['-', ' ', '*', '*']),
        absent(t, seq!['*', '*'], line.0 + 4, line.1),
    ensures
        skip_white(t, line.0, line.1) == line.0,
        list_item(t, line.0, line.1),
        ({
            let w = with_item(t, r, line.0, line.1);
            match r {
                Some(b) => w == (ListRun {
                    first: b.first,
                    items: b.items + 1,
                    bold: b.bold + 1,
                    four: b.four,
                }),
                None => w == (ListRun { first: line.0, items: 1, bold: 1, four: 0 }),
            }
        }),
{
    reveal_strlit("- ");
    reveal_strlit("* ");
    reveal_strlit("**");
    let (x, y) = line;
    let s = seq!['-', ' ', '*', '*'];
    assert(t[x + 0] == s[0] && t[x + 1] == s[1] && t[x + 2] == s[2] && t[x + 3] == s[3]);
    assert("- "@ =~= seq!['-', ' ']);
    assert("**"@ =~= seq!['*', '*']);
    let (u, w) = (seq!['-', ' '], seq!['*', '*']);
    assert(reads(t, x, u));
    assert(reads(t, x + 2, w));
    lemma_reads(t, x, u);
    lemma_reads(t, x + 2, w);
    assert(bullet(t, x, y));
    assert(item_content(t, x, y) == x + 2);
    assert(opens_bold(t, x + 2, y));
    lemma_read_nowhere(t, w, x + 4, y);
    assert(!four_char_label(t, x + 2, y));
}

} // verus!
