//! Translationese that the build of a sentence shows, and its rhythm: where they
//! are reported.
use vstd::prelude::*;

use crate::bounds::{Bound, Paragraph};
use crate::chars::cjk_ideograph;
use crate::emit::{excluded_in, overlaps, span_excluded, ByteRange};
use crate::grammar::rhythm::{
    cjk_len, ending_particle, is_cjk_at, long_sentence_rule, longest_run, monotony_findings,
    monotony_runs, no_run, open_run, run_finding, spoken_end, Run, RHYTHM_MONOTONE_ENDINGS,
    RHYTHM_PAUSE_BREAKERS, RHYTHM_SENTENCE_CLOSERS,
};
use crate::grammar::syntactic::{
    abstract_rule, copula_entry, copula_rule, counted_bei, de_chain_rule, de_clause, displaced_rule,
    passive_rule, pronoun_rule, pronoun_run, pronoun_runs, rewrite_rule, rewrite_step,
    tense_markers, tense_rule, ABSTRACT_NOUNS, ABSTRACT_VERBS, ADVERBS, COMMAS, CONDITIONALS,
    CONFUSIONS, COPULA_PATTERNS, DATE_MARKS, PASSIVE_WHITELIST, PRONOUNS, ceil_div,
};
use crate::issue::{IssueModel, PhaseFamily, PhasePass, Severity};
use crate::laws::reading::{
    absent, lemma_count_all, lemma_count_none, lemma_first_entry, lemma_first_read, lemma_next_is,
    lemma_read_found, lemma_reads, lemma_untouched, reads, untouched,
};
use crate::lines::skip_white;
use crate::text::{
    any_at, any_in, byte_pos, count_where, first_entry_in, has_char_in, is_char, least,
    lemma_byte_pos_monotone, occurs_at,
};
use crate::walk::{calque_reported, each, lemma_each_contains, lemma_walk_first, suggested, walk};

verus! {

proof fn lemma_held_reported(v: Seq<IssueModel>, m: IssueModel)
    requires
        v.contains(m),
        m.rule_type is Translationese,
    ensures
        calque_reported(v, m.offset, m.offset + m.length, m.phase_family),
        suggested(v, m.offset, m.offset + m.length, m.suggestions),
{
    let k = choose|k: int| 0 <= k < v.len() && v[k] == m;
    assert(v[k].offset == m.offset);
}

/// A count goes on behind any place.
pub proof fn lemma_count_split(from: int, m: int, to: int, f: spec_fn(int) -> bool)
    requires
        from <= m <= to,
    ensures
        count_where(from, to, f) == count_where(from, m, f) + count_where(m, to, f),
    decreases to - m,
{
    if m < to {
        lemma_count_split(from, m, to - 1, f);
    }
}

/// What satisfies the predicate at `p` is counted from there on.
pub proof fn lemma_count_step(from: int, p: int, to: int, f: spec_fn(int) -> bool)
    requires
        from <= p < to,
        f(p),
    ensures
        count_where(from, to, f) >= 1 + count_where(p + 1, to, f),
{
    lemma_count_split(from, p + 1, to, f);
    assert(count_where(from, p + 1, f) == count_where(from, p, f) + 1);
}

/// Two at least are counted, where two satisfy the predicate.
pub proof fn lemma_count_two(from: int, a: int, b: int, to: int, f: spec_fn(int) -> bool)
    requires
        from <= a < b < to,
        f(a),
        f(b),
    ensures
        count_where(from, to, f) >= 2,
{
    lemma_count_step(from, a, to, f);
    lemma_count_step(a + 1, b, to, f);
}

/// Three at least are counted, where three satisfy the predicate.
proof fn lemma_count_three(from: int, a: int, b: int, c: int, to: int, f: spec_fn(int) -> bool)
    requires
        from <= a < b < c < to,
        f(a),
        f(b),
        f(c),
    ensures
        count_where(from, to, f) >= 3,
{
    lemma_count_step(from, a, to, f);
    lemma_count_step(a + 1, b, to, f);
    lemma_count_step(b + 1, c, to, f);
}

/// A sentence without commas that holds 的 four times is reported as a whole; one
/// that holds it nowhere is not.
pub proof fn law_four_de_are_too_many(
    t: Seq<char>,
    ex: Seq<ByteRange>,
    sentences: Seq<Bound>,
    k: int,
    a: int,
    b: int,
    c: int,
    d: int,
)
    requires
        0 <= k < sentences.len(),
        sentences[k].start <= a < b < c < d < sentences[k].end,
        sentences[k].end <= t.len(),
        t[a] == '的' && t[b] == '的' && t[c] == '的' && t[d] == '的',
        forall|q: int|
            sentences[k].start <= q < sentences[k].end ==> #[trigger] t[q] != '，' && t[q] != ',',
        untouched(t, ex, sentences[k].start as int, sentences[k].end as int),
    ensures
        calque_reported(
            each(sentences.len() as int, de_chain_rule(t, ex, sentences)),
            byte_pos(t, sentences[k].start as int),
            byte_pos(t, sentences[k].end as int),
            None,
        ),
{
    let (from, to) = (sentences[k].start as int, sentences[k].end as int);
    lemma_no_commas(t, from, to);
    let f = is_char(t, '的');
    lemma_count_step(from, a, to, f);
    lemma_count_three(a + 1, b, c, d, to, f);
    lemma_untouched(t, ex, from, to, from, to);
    let g = de_chain_rule(t, ex, sentences);
    assert(g(k) == de_clause(t, ex, from, to));
    let m = g(k)[0];
    assert(g(k).contains(m));
    lemma_each_contains(sentences.len() as int, g, k, m);
    lemma_held_reported(each(sentences.len() as int, g), m);
}

/// A sentence without commas that holds 的 at most at three places is not
/// reported for it.
pub proof fn law_three_de_are_not_too_many(
    t: Seq<char>,
    ex: Seq<ByteRange>,
    sentences: Seq<Bound>,
    k: int,
    a: int,
    b: int,
    c: int,
)
    requires
        0 <= k < sentences.len(),
        sentences[k].start <= a <= b <= c < sentences[k].end,
        sentences[k].end <= t.len(),
        forall|q: int|
            sentences[k].start <= q < sentences[k].end && q != a && q != b && q != c
                ==> #[trigger] t[q] != '的',
        forall|q: int|
            sentences[k].start <= q < sentences[k].end ==> #[trigger] t[q] != '，' && t[q] != ',',
    ensures
        de_chain_rule(t, ex, sentences)(k).len() == 0,
{
    let (from, to) = (sentences[k].start as int, sentences[k].end as int);
    lemma_no_commas(t, from, to);
    let f = is_char(t, '的');
    lemma_count_split(from, a, to, f);
    lemma_count_none(from, a, f);
    lemma_at_most_three(t, a, b, c, to);
}

proof fn lemma_at_most_three(t: Seq<char>, a: int, b: int, c: int, to: int)
    requires
        a <= b <= c < to,
        forall|q: int| a <= q < to && q != a && q != b && q != c ==> #[trigger] t[q] != '的',
    ensures
        count_where(a, to, is_char(t, '的')) <= 3,
{
    let f = is_char(t, '的');
    lemma_count_split(a, c + 1, to, f);
    lemma_count_none(c + 1, to, f);
    assert(count_where(a, c + 1, f) <= count_where(a, c, f) + 1);
    if a < b {
        if b < c {
            lemma_count_split(a, b + 1, c, f);
            lemma_count_none(b + 1, c, f);
            lemma_count_split(a, a + 1, b + 1, f);
            lemma_count_split(a + 1, b, b + 1, f);
            lemma_count_none(a + 1, b, f);
            assert(count_where(b, b + 1, f) <= 1) by {
                assert(count_where(b, b, f) == 0);
            }
            assert(count_where(a, a + 1, f) <= 1) by {
                assert(count_where(a, a, f) == 0);
            }
        } else {
            lemma_count_split(a, a + 1, c, f);
            lemma_count_none(a + 1, c, f);
            assert(count_where(a, a, f) == 0);
        }
    } else if a < c {
        lemma_count_split(a, a + 1, c, f);
        lemma_count_none(a + 1, c, f);
        assert(count_where(a, a, f) == 0);
    } else {
        assert(count_where(a, a, f) == 0);
    }
}

proof fn lemma_no_commas(t: Seq<char>, from: int, to: int)
    requires
        0 <= from <= to <= t.len(),
        forall|q: int| from <= q < to ==> #[trigger] t[q] != '，' && t[q] != ',',
    ensures
        crate::text::next_of(t, COMMAS@, from, to) == to,
{
    assert(COMMAS@.len() == 2 && COMMAS@[0] == '，' && COMMAS@[1] == ',');
    assert forall|r: int| from <= r < to implies !COMMAS@.contains(#[trigger] t[r]) by {
        if COMMAS@.contains(t[r]) {
            let i = choose|i: int| 0 <= i < COMMAS@.len() && COMMAS@[i] == t[r];
            assert(i == 0 || i == 1);
        }
    }
    lemma_next_is(t, COMMAS@, from, to, to);
}

/// Where an adverb was written with 的, the same words with 地 are suggested: of
/// every pair of the table the second is the first with 地 for 的.
pub proof fn law_adverbs_take_di(k: int)
    requires
        0 <= k < 10,
    ensures
        CONFUSIONS@.len() == 10,
        CONFUSIONS@[k].0@.contains('的'),
        CONFUSIONS@[k].1@.len() == CONFUSIONS@[k].0@.len(),
        forall|i: int|
            0 <= i < CONFUSIONS@[k].0@.len() ==> #[trigger] CONFUSIONS@[k].1@[i] == (
            if CONFUSIONS@[k].0@[i] == '的' {
                '地'
            } else {
                CONFUSIONS@[k].0@[i]
            }),
{
    reveal_strlit("仔細的看");
    reveal_strlit("仔細地看");
    reveal_strlit("認真的聽");
    reveal_strlit("認真地聽");
    reveal_strlit("慢慢的走");
    reveal_strlit("慢慢地走");
    reveal_strlit("靜靜的坐");
    reveal_strlit("靜靜地坐");
    reveal_strlit("快速的跑");
    reveal_strlit("快速地跑");
    reveal_strlit("努力的工作");
    reveal_strlit("努力地工作");
    reveal_strlit("安靜的離開");
    reveal_strlit("安靜地離開");
    reveal_strlit("輕輕的放");
    reveal_strlit("輕輕地放");
    reveal_strlit("默默的承受");
    reveal_strlit("默默地承受");
    reveal_strlit("悄悄的走");
    reveal_strlit("悄悄地走");
    assert(CONFUSIONS@[k].0@[2] == '的');
}

/// Where an adverb can do without 地, the adverb without it is suggested.
pub proof fn law_adverbs_lose_di(k: int)
    requires
        0 <= k < 10,
    ensures
        ADVERBS@.len() == 10,
        ADVERBS@[k].0@.len() == 3,
        ADVERBS@[k].0@[2] == '地',
        ADVERBS@[k].1@ =~= ADVERBS@[k].0@.take(2),
{
    reveal_strlit("慢慢地");
    reveal_strlit("慢慢");
    reveal_strlit("靜靜地");
    reveal_strlit("靜靜");
    reveal_strlit("認真地");
    reveal_strlit("認真");
    reveal_strlit("安靜地");
    reveal_strlit("安靜");
    reveal_strlit("輕輕地");
    reveal_strlit("輕輕");
    reveal_strlit("默默地");
    reveal_strlit("默默");
    reveal_strlit("悄悄地");
    reveal_strlit("悄悄");
    reveal_strlit("漸漸地");
    reveal_strlit("漸漸");
    reveal_strlit("緩緩地");
    reveal_strlit("緩緩");
    reveal_strlit("偷偷地");
    reveal_strlit("偷偷");
}

/// The first place of every form of a table, outside the excluded ranges, is
/// reported with what the table has for it.
pub proof fn law_listed_forms_are_rewritten(
    t: Seq<char>,
    ex: Seq<ByteRange>,
    table: Seq<(&'static str, &'static str)>,
    severity: Severity,
    context: Seq<char>,
    k: int,
    p: int,
)
    requires
        0 <= k < table.len(),
        reads(t, p, table[k].0@),
        absent(t, table[k].0@, 0, p),
        untouched(t, ex, p, p + table[k].0@.len()),
    ensures
        suggested(
            each(table.len() as int, rewrite_rule(t, ex, table, severity, context)),
            byte_pos(t, p),
            byte_pos(t, p + table[k].0@.len()),
            seq![table[k].1@],
        ),
{
    let x = table[k].0@;
    let n = t.len() as int;
    lemma_first_read(t, x, 0, n, p);
    let step = rewrite_step(t, ex, table[k], severity, context);
    lemma_walk_first(t, x, 0, n, step, p);
    lemma_untouched(t, ex, p, p + x.len(), p, p + x.len());
    let m = step(p).1[0];
    assert(step(p).1.contains(m));
    let f = rewrite_rule(t, ex, table, severity, context);
    assert(f(k) == walk(t, x, 0, n, step));
    lemma_each_contains(table.len() as int, f, k, m);
    lemma_held_reported(each(table.len() as int, f), m);
}

/// A paragraph whose first three sentences open on 他 and which has no more is
/// reported on the first 他; one with two such sentences is not.
pub proof fn law_runs_of_pronouns_are_reported(
    t: Seq<char>,
    ex: Seq<ByteRange>,
    sentences: Seq<Bound>,
    paragraphs: Seq<Paragraph>,
    k: int,
)
    requires
        0 <= k < paragraphs.len(),
        paragraphs[k].first <= paragraphs[k].last <= sentences.len(),
        forall|j: int|
            paragraphs[k].first <= j < paragraphs[k].last ==> (#[trigger] sentences[j]).start
                < sentences[j].end <= t.len() && (t[sentences[j].start as int] == '他'
                || t[sentences[j].start as int] == '她' || t[sentences[j].start as int] == '它'),
        paragraphs[k].first < paragraphs[k].last ==> untouched(
            t,
            ex,
            sentences[paragraphs[k].first as int].start as int,
            sentences[paragraphs[k].first as int].start + 1,
        ),
    ensures
        paragraphs[k].last - paragraphs[k].first >= 3 ==> calque_reported(
            each(paragraphs.len() as int, pronoun_rule(t, ex, sentences, paragraphs)),
            byte_pos(t, sentences[paragraphs[k].first as int].start as int),
            byte_pos(t, sentences[paragraphs[k].first as int].start + 1),
            None,
        ),
        paragraphs[k].last - paragraphs[k].first < 3 ==> pronoun_rule(
            t,
            ex,
            sentences,
            paragraphs,
        )(k).len() == 0,
{
    let (first, last) = (paragraphs[k].first as int, paragraphs[k].last as int);
    let f = pronoun_rule(t, ex, sentences, paragraphs);
    lemma_pronouns(t, ex, sentences, first, last, 0, 0);
    if first < last {
        let s = sentences[first].start as int;
        lemma_untouched(t, ex, s, s + 1, s, s + 1);
        assert(f(k) == pronoun_run(t, ex, s, last - first));
        if last - first >= 3 {
            let m = f(k)[0];
            assert(f(k).contains(m));
            lemma_each_contains(paragraphs.len() as int, f, k, m);
            lemma_held_reported(each(paragraphs.len() as int, f), m);
        }
    }
}

proof fn lemma_pronouns(
    t: Seq<char>,
    ex: Seq<ByteRange>,
    sentences: Seq<Bound>,
    k: int,
    last: int,
    first: int,
    n: int,
)
    requires
        0 <= k <= last <= sentences.len(),
        n >= 0,
        forall|j: int|
            k <= j < last ==> (#[trigger] sentences[j]).start < sentences[j].end <= t.len() && (
            t[sentences[j].start as int] == '他' || t[sentences[j].start as int] == '她'
                || t[sentences[j].start as int] == '它'),
    ensures
        pronoun_runs(t, ex, sentences, k, last, first, n) == pronoun_run(
            t,
            ex,
            if n == 0 && k < last {
                sentences[k].start as int
            } else {
                first
            },
            n + last - k,
        ),
    decreases last - k,
{
    if k < last {
        reveal_strlit("他");
        reveal_strlit("她");
        reveal_strlit("它");
        assert(PRONOUNS@[0]@ =~= seq!['他']);
        assert(PRONOUNS@[1]@ =~= seq!['她']);
        assert(PRONOUNS@[2]@ =~= seq!['它']);
        let s = sentences[k].start as int;
        assert(reads(t, s, seq![t[s]]));
        lemma_reads(t, s, seq![t[s]]);
        assert(occurs_at(t, PRONOUNS@[0]@, s) || occurs_at(t, PRONOUNS@[1]@, s) || occurs_at(
            t,
            PRONOUNS@[2]@,
            s,
        ));
        assert(any_at(t, PRONOUNS@, s, sentences[k].end as int));
        lemma_pronouns(
            t,
            ex,
            sentences,
            k + 1,
            last,
            if n == 0 {
                s
            } else {
                first
            },
            n + 1,
        );
    }
}

/// 是一個 with 的 behind it in the sentence is reported.
pub proof fn law_swollen_copulas_are_reported(
    t: Seq<char>,
    ex: Seq<ByteRange>,
    sentences: Seq<Bound>,
    k: int,
    p: int,
    q: int,
)
    requires
        0 <= k < sentences.len(),
        sentences[k].start <= p,
        sentences[k].end <= t.len(),
        reads(t, p, seq!['是', '一', '個']),
        absent(t, seq!['是', '一', '個'], sentences[k].start as int, p),
        p + 3 <= q < sentences[k].end,
        t[q] == '的',
        untouched(t, ex, p, p + 3),
    ensures
        calque_reported(
            each(sentences.len() as int, copula_rule(t, ex, sentences)),
            byte_pos(t, p),
            byte_pos(t, p + 3),
            None,
        ),
{
    reveal_strlit("是一個");
    reveal_strlit("的");
    assert(COPULA_PATTERNS@[0]@ =~= seq!['是', '一', '個']);
    assert("的"@ =~= seq!['的']);
    let (from, to) = (sentences[k].start as int, sentences[k].end as int);
    lemma_first_read(t, seq!['是', '一', '個'], from, to, p);
    assert(reads(t, q, seq!['的']));
    lemma_read_found(t, seq!['的'], p + 3, to, q);
    assert(copula_entry(t, 0, from, to) == Some((p, p + 3)));
    lemma_untouched(t, ex, p, p + 3, p, p + 3);
    let f = copula_rule(t, ex, sentences);
    let m = f(k)[0];
    assert(f(k).contains(m));
    lemma_each_contains(sentences.len() as int, f, k, m);
    lemma_held_reported(each(sentences.len() as int, f), m);
}

/// 如果 in the second half of a sentence of six characters or more is reported;
/// a sentence without 如果, 假如 and 若 in its second half is not.
pub proof fn law_late_conditions_are_reported(
    t: Seq<char>,
    ex: Seq<ByteRange>,
    sentences: Seq<Bound>,
    k: int,
    p: int,
)
    requires
        0 <= k < sentences.len(),
        sentences[k].start + 6 <= sentences[k].end <= t.len(),
        sentences[k].start + (sentences[k].end - sentences[k].start) / 2 <= p,
        p + 2 <= sentences[k].end,
        reads(t, p, seq!['如', '果']),
        absent(
            t,
            seq!['如', '果'],
            sentences[k].start + (sentences[k].end - sentences[k].start) / 2,
            p,
        ),
        untouched(t, ex, p, p + 2),
    ensures
        calque_reported(
            each(sentences.len() as int, displaced_rule(t, ex, sentences)),
            byte_pos(t, p),
            byte_pos(t, p + 2),
            None,
        ),
{
    reveal_strlit("如果");
    assert(CONDITIONALS@[0]@ =~= seq!['如', '果']);
    let (from, to) = (sentences[k].start as int, sentences[k].end as int);
    let middle = from + (to - from) / 2;
    lemma_first_read(t, seq!['如', '果'], middle, to, p);
    assert(first_entry_in(t, CONDITIONALS@, 0, middle, to) == Some((0int, p)));
    lemma_untouched(t, ex, p, p + 2, p, p + 2);
    let f = displaced_rule(t, ex, sentences);
    let m = f(k)[0];
    assert(f(k).contains(m));
    lemma_each_contains(sentences.len() as int, f, k, m);
    lemma_held_reported(each(sentences.len() as int, f), m);
}

/// A condition in the first half of its sentence is where it belongs.
pub proof fn law_early_conditions_are_not_reported(
    t: Seq<char>,
    ex: Seq<ByteRange>,
    sentences: Seq<Bound>,
    k: int,
)
    requires
        0 <= k < sentences.len(),
        sentences[k].start <= sentences[k].end <= t.len(),
        forall|q: int|
            sentences[k].start + (sentences[k].end - sentences[k].start) / 2 <= q < sentences[k].end
                ==> #[trigger] t[q] != '如' && t[q] != '假' && t[q] != '若',
    ensures
        displaced_rule(t, ex, sentences)(k).len() == 0,
{
    reveal_strlit("如果");
    reveal_strlit("假如");
    reveal_strlit("若");
    assert(CONDITIONALS@.len() == 3);
    assert(CONDITIONALS@[0]@ =~= seq!['如', '果']);
    assert(CONDITIONALS@[1]@ =~= seq!['假', '如']);
    assert(CONDITIONALS@[2]@ =~= seq!['若']);
    let (from, to) = (sentences[k].start as int, sentences[k].end as int);
    let middle = from + (to - from) / 2;
    lemma_first_entry(t, CONDITIONALS@, 0, middle, to);
    if let Some((c, q)) = first_entry_in(t, CONDITIONALS@, 0, middle, to) {
        let x = CONDITIONALS@[c]@;
        lemma_reads(t, q, x);
        assert(t[q + 0] == x[0]);
    }
}

/// A paragraph of twenty to one hundred characters with three 被, none of which
/// begins an accepted form, is reported.
pub proof fn law_three_passives_are_too_many(
    t: Seq<char>,
    ex: Seq<ByteRange>,
    paragraphs: Seq<Paragraph>,
    k: int,
    a: int,
    b: int,
    c: int,
)
    requires
        0 <= k < paragraphs.len(),
        paragraphs[k].start <= a < b < c,
        c + 1 < paragraphs[k].end <= t.len(),
        20 <= paragraphs[k].end - paragraphs[k].start <= 100,
        t[a] == '被' && t[b] == '被' && t[c] == '被',
        ordinary_passive(t, a) && ordinary_passive(t, b) && ordinary_passive(t, c),
        untouched(t, ex, paragraphs[k].start as int, paragraphs[k].end as int),
    ensures
        calque_reported(
            each(paragraphs.len() as int, passive_rule(t, ex, paragraphs)),
            byte_pos(t, paragraphs[k].start as int),
            byte_pos(t, paragraphs[k].end as int),
            None,
        ),
{
    let (from, to) = (paragraphs[k].start as int, paragraphs[k].end as int);
    let f = counted_bei(t, ex, to);
    lemma_untouched(t, ex, from, to, a, a + 1);
    lemma_untouched(t, ex, from, to, b, b + 1);
    lemma_untouched(t, ex, from, to, c, c + 1);
    lemma_ordinary_passive(t, a, to);
    lemma_ordinary_passive(t, b, to);
    lemma_ordinary_passive(t, c, to);
    lemma_count_three(from, a, b, c, to, f);
    assert(ceil_div(to - from, 50) <= 2);
    lemma_byte_pos_monotone(t, least(from + 2, to), to);
    let g = passive_rule(t, ex, paragraphs);
    let m = g(k)[0];
    assert(g(k).contains(m));
    lemma_each_contains(paragraphs.len() as int, g, k, m);
    let v = each(paragraphs.len() as int, g);
    let x = choose|x: int| 0 <= x < v.len() && v[x] == m;
    assert(v[x].offset == byte_pos(t, from));
}

/// What follows 被 begins none of the accepted forms.
pub open spec fn ordinary_passive(t: Seq<char>, i: int) -> bool {
    let c = t[i + 1];
    c != '定' && c != '廣' && c != '置' && c != '稱' && c != '觀' && c != '記'
}

proof fn lemma_ordinary_passive(t: Seq<char>, i: int, to: int)
    requires
        0 <= i,
        i + 1 < t.len(),
        ordinary_passive(t, i),
    ensures
        !any_at(t, PASSIVE_WHITELIST@, i, to),
{
    reveal_strlit("被定義為");
    reveal_strlit("被廣泛採用");
    reveal_strlit("被置於");
    reveal_strlit("被稱作");
    reveal_strlit("被觀察到");
    reveal_strlit("被記錄為");
    assert(PASSIVE_WHITELIST@.len() == 6);
    if any_at(t, PASSIVE_WHITELIST@, i, to) {
        let k = choose|k: int|
            0 <= k < PASSIVE_WHITELIST@.len() && #[trigger] occurs_at(t, PASSIVE_WHITELIST@[k]@, i)
                && i + PASSIVE_WHITELIST@[k]@.len() <= to;
        let x = PASSIVE_WHITELIST@[k]@;
        assert(k == 0 || k == 1 || k == 2 || k == 3 || k == 4 || k == 5);
        assert(x.len() >= 3);
        assert(t.subrange(i, i + x.len())[1] == t[i + 1]);
    }
}

/// A sentence with 年 in it and 了 at three places is reported.
pub proof fn law_idle_tenses_are_reported(
    t: Seq<char>,
    ex: Seq<ByteRange>,
    sentences: Seq<Bound>,
    k: int,
    y: int,
    a: int,
    b: int,
    c: int,
)
    requires
        0 <= k < sentences.len(),
        sentences[k].start <= y < sentences[k].end,
        sentences[k].start <= a < b < c < sentences[k].end,
        sentences[k].end <= t.len(),
        t[y] == '年',
        t[a] == '了' && t[b] == '了' && t[c] == '了',
        untouched(t, ex, sentences[k].start as int, sentences[k].end as int),
    ensures
        calque_reported(
            each(sentences.len() as int, tense_rule(t, ex, sentences)),
            byte_pos(t, sentences[k].start as int),
            byte_pos(t, sentences[k].end as int),
            None,
        ),
{
    let (from, to) = (sentences[k].start as int, sentences[k].end as int);
    assert(DATE_MARKS@[0] == '年');
    assert(DATE_MARKS@.contains(t[y]));
    assert(has_char_in(t, DATE_MARKS@, from, to));
    lemma_count_three(from, a, b, c, to, is_char(t, '了'));
    assert(tense_markers(t, from, to) >= 3);
    let (s, e) = (byte_pos(t, from), byte_pos(t, to));
    lemma_byte_pos_monotone(t, from, to);
    assert(!excluded_in(ex, s, s + least(e - s, 6))) by {
        if excluded_in(ex, s, s + least(e - s, 6)) {
            let n = choose|n: int|
                0 <= n < ex.len() && #[trigger] overlaps(ex[n], s, s + least(e - s, 6));
            assert(ex[n].end <= s || ex[n].start >= e);
        }
    }
    let f = tense_rule(t, ex, sentences);
    let m = f(k)[0];
    assert(f(k).contains(m));
    lemma_each_contains(sentences.len() as int, f, k, m);
    lemma_held_reported(each(sentences.len() as int, f), m);
}

/// A sentence that puts 的減少, 的增加 or 的實施 among its first twenty characters and
/// says 導致 or 意味著 is reported.
pub proof fn law_abstract_subjects_are_reported(
    t: Seq<char>,
    ex: Seq<ByteRange>,
    sentences: Seq<Bound>,
    k: int,
    p: int,
    q: int,
)
    requires
        0 <= k < sentences.len(),
        sentences[k].start <= p,
        p + 3 <= sentences[k].start + 20,
        p + 3 <= sentences[k].end <= t.len(),
        reads(t, p, seq!['的', '減', '少']) || reads(t, p, seq!['的', '增', '加']) || reads(
            t,
            p,
            seq!['的', '實', '施'],
        ),
        sentences[k].start <= q,
        (q + 2 <= sentences[k].end && reads(t, q, seq!['導', '致'])) || (q + 3 <= sentences[k].end
            && reads(t, q, seq!['意', '味', '著'])),
        untouched(t, ex, sentences[k].start as int, sentences[k].end as int),
    ensures
        calque_reported(
            each(sentences.len() as int, abstract_rule(t, ex, sentences)),
            byte_pos(t, sentences[k].start as int),
            byte_pos(t, sentences[k].end as int),
            None,
        ),
{
    reveal_strlit("的減少");
    reveal_strlit("的增加");
    reveal_strlit("的實施");
    reveal_strlit("導致");
    reveal_strlit("意味著");
    assert(ABSTRACT_NOUNS@[0]@ =~= seq!['的', '減', '少']);
    assert(ABSTRACT_NOUNS@[1]@ =~= seq!['的', '增', '加']);
    assert(ABSTRACT_NOUNS@[5]@ =~= seq!['的', '實', '施']);
    assert(ABSTRACT_VERBS@[0]@ =~= seq!['導', '致']);
    assert(ABSTRACT_VERBS@[2]@ =~= seq!['意', '味', '著']);
    let (from, to) = (sentences[k].start as int, sentences[k].end as int);
    let near = least(from + 20, to);
    let n: int = if reads(t, p, seq!['的', '減', '少']) {
        0
    } else if reads(t, p, seq!['的', '增', '加']) {
        1
    } else {
        5
    };
    lemma_read_found(t, ABSTRACT_NOUNS@[n]@, from, near, p);
    let v: int = if q + 2 <= to && reads(t, q, seq!['導', '致']) {
        0
    } else {
        2
    };
    lemma_read_found(t, ABSTRACT_VERBS@[v]@, from, to, q);
    assert(any_in(t, ABSTRACT_NOUNS@, from, near));
    assert(any_in(t, ABSTRACT_VERBS@, from, to));
    let (s, e) = (byte_pos(t, from), byte_pos(t, to));
    lemma_byte_pos_monotone(t, from, to);
    assert(!excluded_in(ex, s, s + least(e - s, 12))) by {
        if excluded_in(ex, s, s + least(e - s, 12)) {
            let n = choose|n: int|
                0 <= n < ex.len() && #[trigger] overlaps(ex[n], s, s + least(e - s, 12));
            assert(ex[n].end <= s || ex[n].start >= e);
        }
    }
    let f = abstract_rule(t, ex, sentences);
    let m = f(k)[0];
    assert(f(k).contains(m));
    lemma_each_contains(sentences.len() as int, f, k, m);
    lemma_held_reported(each(sentences.len() as int, f), m);
}

/// A sentence of more than thirty CJK ideographs without a mark among them is
/// reported; one of thirty characters or fewer is not.
pub proof fn law_long_sentences_are_reported(
    t: Seq<char>,
    ex: Seq<ByteRange>,
    sentences: Seq<Bound>,
    k: int,
)
    requires
        0 <= k < sentences.len(),
        sentences[k].start <= sentences[k].end <= t.len(),
        forall|q: int|
            sentences[k].start <= q < sentences[k].end ==> cjk_ideograph(#[trigger] t[q]),
        untouched(t, ex, sentences[k].start as int, sentences[k].end as int),
    ensures
        sentences[k].end - sentences[k].start > 30 ==> calque_reported(
            each(sentences.len() as int, long_sentence_rule(t, ex, sentences)),
            byte_pos(t, sentences[k].start as int),
            byte_pos(t, sentences[k].end as int),
            Some((PhaseFamily::RhythmLongSentence, PhasePass::Indexed)),
        ),
        sentences[k].end - sentences[k].start <= 30 ==> long_sentence_rule(
            t,
            ex,
            sentences,
        )(k).len() == 0,
{
    let (from, to) = (sentences[k].start as int, sentences[k].end as int);
    lemma_count_all(from, to, is_cjk_at(t));
    assert(cjk_len(t, from, to) == to - from);
    let f = long_sentence_rule(t, ex, sentences);
    if to - from > 30 {
        lemma_no_pause(t, from, to);
        assert(skip_white(t, from, to) == from);
        lemma_untouched(t, ex, from, to, from, to);
        let m = f(k)[0];
        assert(f(k).contains(m));
        lemma_each_contains(sentences.len() as int, f, k, m);
        lemma_byte_pos_monotone(t, least(from + 8, to), to);
        let v = each(sentences.len() as int, f);
        let x = choose|x: int| 0 <= x < v.len() && v[x] == m;
        assert(v[x].offset == byte_pos(t, from));
    }
}

proof fn lemma_no_pause(t: Seq<char>, from: int, to: int)
    requires
        0 <= from <= to <= t.len(),
        forall|q: int| from <= q < to ==> cjk_ideograph(#[trigger] t[q]),
    ensures
        open_run(t, from, to) == to - from,
        longest_run(t, from, to) >= to - from,
    decreases to - from,
{
    if from < to {
        lemma_no_pause(t, from, to - 1);
        assert(cjk_ideograph(t[to - 1]));
        assert(RHYTHM_PAUSE_BREAKERS@.len() == 38);
        if RHYTHM_PAUSE_BREAKERS@.contains(t[to - 1]) {
            let i = choose|i: int|
                0 <= i < RHYTHM_PAUSE_BREAKERS@.len() && RHYTHM_PAUSE_BREAKERS@[i] == t[to - 1];
            lemma_breakers_are_marks(i);
        }
    }
}

proof fn lemma_breakers_are_marks(i: int)
    requires
        0 <= i < 38,
    ensures
        !cjk_ideograph(RHYTHM_PAUSE_BREAKERS@[i]),
{
}

/// Three sentences of a paragraph that end on 了 or on 的 or on 呢, all on the same,
/// with a full stop behind it, are reported on the first; two are not.
pub proof fn law_monotone_endings_are_reported(
    t: Seq<char>,
    sentences: Seq<Bound>,
    first: int,
    last: int,
    c: char,
)
    requires
        0 <= first < last <= sentences.len(),
        c == '了' || c == '的' || c == '呢',
        forall|j: int|
            first <= j < last ==> (#[trigger] sentences[j]).start + 2 < sentences[j].end <= t.len()
                && t[sentences[j].end - 1] == '。' && t[sentences[j].end - 2] == c
                && cjk_ideograph(t[sentences[j].start as int]),
    ensures
        last - first >= 3 ==> calque_reported(
            monotony_findings(t, Seq::empty(), sentences, first, last),
            byte_pos(t, sentences[first].start as int),
            byte_pos(t, sentences[first].end as int),
            Some((PhaseFamily::RhythmMonotony, PhasePass::Indexed)),
        ),
        last - first < 3 ==> monotony_findings(t, Seq::empty(), sentences, first, last).len() == 0,
{
    let none = Seq::<ByteRange>::empty();
    lemma_endings(t, sentences[first], c);
    let s = sentences[first].start as int;
    let e = sentences[first].end as int;
    assert(skip_white(t, s, e) == s);
    let r = Run { particle: Some(c), start: s, limit: e, len: 1 };
    assert(!span_excluded(t, none, s, e));
    assert(run_finding(t, no_run()) =~= Seq::empty());
    lemma_same_endings(t, sentences, first, first + 1, last, c, r);
    let v = monotony_findings(t, none, sentences, first, last);
    let whole = Run { len: (last - first) as nat, ..r };
    assert(v =~= run_finding(t, whole));
    if last - first >= 3 {
        let m = v[0];
        assert(v.contains(m));
        lemma_byte_pos_monotone(t, least(s + 8, e), e);
        assert(v[0].offset == byte_pos(t, s));
    }
}

proof fn lemma_endings(t: Seq<char>, s: Bound, c: char)
    requires
        c == '了' || c == '的' || c == '呢',
        s.start + 2 < s.end <= t.len(),
        t[s.end - 1] == '。',
        t[s.end - 2] == c,
    ensures
        ending_particle(t, s.start as int, s.end as int) == Some(c),
{
    assert(RHYTHM_SENTENCE_CLOSERS@[0] == '。');
    assert(RHYTHM_SENTENCE_CLOSERS@.contains('。'));
    assert(RHYTHM_SENTENCE_CLOSERS@.len() == 23);
    if RHYTHM_SENTENCE_CLOSERS@.contains(c) {
        let i = choose|i: int|
            0 <= i < RHYTHM_SENTENCE_CLOSERS@.len() && RHYTHM_SENTENCE_CLOSERS@[i] == c;
        lemma_closers_are_marks(i);
    }
    reveal_with_fuel(spoken_end, 3);
    assert(spoken_end(t, s.start as int, s.end as int) == s.end - 1);
    assert(RHYTHM_MONOTONE_ENDINGS@[0] == '的');
    assert(RHYTHM_MONOTONE_ENDINGS@[1] == '了');
    assert(RHYTHM_MONOTONE_ENDINGS@[2] == '呢');
    assert(RHYTHM_MONOTONE_ENDINGS@.contains(c));
}

proof fn lemma_closers_are_marks(i: int)
    requires
        0 <= i < 23,
    ensures
        !cjk_ideograph(RHYTHM_SENTENCE_CLOSERS@[i]),
{
}

proof fn lemma_same_endings(
    t: Seq<char>,
    sentences: Seq<Bound>,
    first: int,
    k: int,
    last: int,
    c: char,
    r: Run,
)
    requires
        0 <= first <= k <= last <= sentences.len(),
        c == '了' || c == '的' || c == '呢',
        r.particle == Some(c),
        forall|j: int|
            k <= j < last ==> (#[trigger] sentences[j]).start + 2 < sentences[j].end <= t.len()
                && t[sentences[j].end - 1] == '。' && t[sentences[j].end - 2] == c,
    ensures
        monotony_runs(t, Seq::empty(), sentences, first, k, last, r) == run_finding(
            t,
            Run { len: (r.len + last - k) as nat, ..r },
        ),
    decreases last - k,
{
    if k < last {
        lemma_endings(t, sentences[k], c);
        lemma_same_endings(
            t,
            sentences,
            first,
            k + 1,
            last,
            c,
            Run { len: r.len + 1, ..r },
        );
    }
}

/// A sentence that two commas divide into stretches of fewer than fifteen
/// ideographs is not long, however many they are together.
pub proof fn law_pauses_spare_a_sentence(
    t: Seq<char>,
    ex: Seq<ByteRange>,
    sentences: Seq<Bound>,
    k: int,
    a: int,
    b: int,
)
    requires
        0 <= k < sentences.len(),
        sentences[k].start <= a < b < sentences[k].end,
        sentences[k].end <= t.len(),
        t[a] == '，' && t[b] == '，',
        a - sentences[k].start < 15,
        b - a - 1 < 15,
        sentences[k].end - b - 1 < 15,
    ensures
        long_sentence_rule(t, ex, sentences)(k).len() == 0,
{
    let (from, to) = (sentences[k].start as int, sentences[k].end as int);
    assert(RHYTHM_PAUSE_BREAKERS@[0] == '，');
    assert(RHYTHM_PAUSE_BREAKERS@.contains('，'));
    lemma_runs_bounded(t, from, a, b, to, to);
}

proof fn lemma_open_run(t: Seq<char>, from: int, m: int, to: int)
    requires
        from <= m <= to,
        m == from || RHYTHM_PAUSE_BREAKERS@.contains(t[m - 1]),
    ensures
        open_run(t, from, to) <= to - m,
    decreases to - m,
{
    if m < to {
        lemma_open_run(t, from, m, to - 1);
    }
}

proof fn lemma_runs_bounded(t: Seq<char>, from: int, a: int, b: int, to: int, e: int)
    requires
        0 <= from <= a < b < to <= t.len(),
        from <= e <= to,
        RHYTHM_PAUSE_BREAKERS@.contains(t[a]),
        RHYTHM_PAUSE_BREAKERS@.contains(t[b]),
        a - from < 15,
        b - a - 1 < 15,
        to - b - 1 < 15,
    ensures
        longest_run(t, from, e) < 15,
    decreases e - from,
{
    if from < e {
        lemma_runs_bounded(t, from, a, b, to, e - 1);
        if e <= a {
            lemma_open_run(t, from, from, e);
        } else if e <= b {
            lemma_open_run(t, from, a + 1, e);
        } else {
            lemma_open_run(t, from, b + 1, e);
        }
    }
}

} // verus!
