//! Phrases of machine-written prose: where they are reported.
use vstd::prelude::*;

use crate::emit::{any_hit, hits, ByteRange};
use crate::grammar::ai_phrase::{
    copula_avoidance_rule, copula_compound, copula_step, density_findings, density_rule,
    passive_rewrite_rule, passive_step, yiweizhe_sense, yiweizhe_step, COPULA_AVOIDANCE_PATTERNS,
    COPULA_TECH_CONTEXT, DENSITY_TRACKED_PHRASES, PASSIVE_REWRITE_PATTERNS,
    YIWEIZHE_DEFINITION_CLUES,
};
use crate::issue::IssueModel;
use crate::laws::reading::{
    absent, lemma_hits_first, lemma_hits_hold, lemma_hits_none, lemma_no_overlap, lemma_read_found,
    lemma_reads, lemma_untouched, reads, untouched,
};
use crate::origin::clear_of;
use crate::text::{
    any_in, byte_pos, ceil_pos, floor_pos, lemma_byte_pos_monotone, lemma_ceil_bounds,
    lemma_floor_bounds, occurs_at,
};
use crate::walk::{
    all_are, each, lemma_each_are, lemma_each_contains, lemma_walk_are, lemma_walk_meets,
    style_reported, suggested, walk,
};

verus! {

/// A finding of one list is reported in another that holds it.
proof fn lemma_held_reported(v: Seq<IssueModel>, m: IssueModel)
    requires
        v.contains(m),
        m.rule_type is AiStyle,
    ensures
        style_reported(v, m.offset, m.offset + m.length, m.structural_family),
        suggested(v, m.offset, m.offset + m.length, m.suggestions),
{
    let k = choose|k: int| 0 <= k < v.len() && v[k] == m;
    assert(v[k].offset == m.offset);
}

/// Every 意味著 outside the excluded ranges is reported.
pub proof fn law_yiweizhe_is_reported(t: Seq<char>, ex: Seq<ByteRange>, p: int)
    requires
        reads(t, p, seq!['意', '味', '著']),
        untouched(t, ex, p, p + 3),
    ensures
        style_reported(
            walk(t, "意味著"@, 0, t.len() as int, yiweizhe_step(t, ex)),
            byte_pos(t, p),
            byte_pos(t, p + 3),
            None,
        ),
{
    reveal_strlit("意味著");
    let x = seq!['意', '味', '著'];
    assert("意味著"@ =~= x);
    lemma_reads(t, p, x);
    lemma_no_overlap(t, x, p);
    assert forall|q: int| p - x.len() < q < p implies !#[trigger] occurs_at(t, x, q) by {
        lemma_reads(t, q, x);
        assert(!reads(t, q, x));
    }
    let step = yiweizhe_step(t, ex);
    lemma_walk_meets(t, x, 0, t.len() as int, step, p);
    lemma_untouched(t, ex, p, p + 3, p, p + 3);
    let m = step(p).1[0];
    assert(step(p).1.contains(m));
    lemma_held_reported(walk(t, x, 0, t.len() as int, step), m);
}

/// What is suggested for 意味著 goes by its sentence: without a clue nothing, and
/// with 就是 or 是指 in the sentence 表示.
pub proof fn law_yiweizhe_goes_by_its_sentence(
    t: Seq<char>,
    ex: Seq<ByteRange>,
    from: int,
    to: int,
    q: int,
)
    requires
        0 <= from <= q,
        q + 2 <= to <= t.len(),
        reads(t, q, seq!['就', '是']) || reads(t, q, seq!['是', '指']),
        untouched(t, ex, from, to),
    ensures
        yiweizhe_sense(t, ex, from, to) == seq![seq!['表', '示']],
{
    reveal_strlit("表示");
    reveal_strlit("就是");
    reveal_strlit("是指");
    assert("表示"@ =~= seq!['表', '示']);
    assert(YIWEIZHE_DEFINITION_CLUES@[1]@ =~= seq!['是', '指']);
    assert(YIWEIZHE_DEFINITION_CLUES@[2]@ =~= seq!['就', '是']);
    lemma_untouched(t, ex, from, to, q, q + 2);
    if reads(t, q, seq!['就', '是']) {
        let x = seq!['就', '是'];
        lemma_no_overlap(t, x, q);
        lemma_hits_hold(t, ex, x, from, to, q);
        assert(hits(t, ex, YIWEIZHE_DEFINITION_CLUES@[2]@, from, to).len() > 0);
    } else {
        let x = seq!['是', '指'];
        lemma_no_overlap(t, x, q);
        lemma_hits_hold(t, ex, x, from, to, q);
        assert(hits(t, ex, YIWEIZHE_DEFINITION_CLUES@[1]@, from, to).len() > 0);
    }
    assert(any_hit(t, ex, YIWEIZHE_DEFINITION_CLUES@, from, to));
}

/// 被廣泛使用, 被廣泛採用 and 被廣泛應用 outside the excluded ranges are reported, and
/// the words without 被 suggested.
pub proof fn law_idle_passives_are_reported(
    t: Seq<char>,
    ex: Seq<ByteRange>,
    p: int,
    c: char,
    d: char,
)
    requires
        (c == '使' && d == '用') || (c == '採' && d == '用') || (c == '應' && d == '用'),
        reads(t, p, seq!['被', '廣', '泛', c, d]),
        untouched(t, ex, p, p + 5),
    ensures
        suggested(
            each(3, passive_rewrite_rule(t, ex)),
            byte_pos(t, p),
            byte_pos(t, p + 5),
            seq![seq!['廣', '泛', c, d]],
        ),
{
    reveal_strlit("被廣泛使用");
    reveal_strlit("被廣泛採用");
    reveal_strlit("被廣泛應用");
    reveal_strlit("廣泛使用");
    reveal_strlit("廣泛採用");
    reveal_strlit("廣泛應用");
    let k: int = if c == '使' {
        0
    } else if c == '採' {
        1
    } else {
        2
    };
    let x = seq!['被', '廣', '泛', c, d];
    let entry = PASSIVE_REWRITE_PATTERNS@[k];
    assert(entry.0@ =~= x);
    assert(entry.1@ =~= seq!['廣', '泛', c, d]);
    lemma_reads(t, p, x);
    lemma_no_overlap(t, x, p);
    assert forall|q: int| p - x.len() < q < p implies !#[trigger] occurs_at(t, x, q) by {
        lemma_reads(t, q, x);
        assert(!reads(t, q, x));
    }
    let step = passive_step(t, ex, entry);
    lemma_walk_meets(t, x, 0, t.len() as int, step, p);
    lemma_untouched(t, ex, p, p + 5, p, p + 5);
    let m = step(p).1[0];
    assert(step(p).1.contains(m));
    let f = passive_rewrite_rule(t, ex);
    assert(f(k) == walk(t, x, 0, t.len() as int, step));
    lemma_each_contains(3, f, k, m);
    lemma_held_reported(each(3, f), m);
}

/// 作為, 標誌著, 充當, 擁有 and 設有 are reported in technical prose: where 系統, 程式 or
/// 模組 stands within twenty characters, and no longer word is made of them.
pub proof fn law_inflated_copulas_are_reported(
    t: Seq<char>,
    ex: Seq<ByteRange>,
    k: int,
    x: Seq<char>,
    p: int,
    q: int,
)
    requires
        (k == 0 && x == seq!['作', '為']) || (k == 1 && x == seq!['標', '誌', '著']) || (k == 2
            && x == seq!['充', '當']) || (k == 3 && x == seq!['擁', '有']) || (k == 4 && x == seq![
            '設',
            '有',
        ]),
        reads(t, p, x),
        untouched(t, ex, p, p + x.len()),
        p > 0 ==> t[p - 1] != '所' && t[p - 1] != '大',
        p + x.len() < t.len() ==> t[p + x.len()] != '權' && t[p + x.len()] != '者' && t[p + x.len()]
            != '感' && t[p + x.len()] != '量',
        reads(t, q, seq!['系', '統']) || reads(t, q, seq!['程', '式']) || reads(
            t,
            q,
            seq!['模', '組'],
        ),
        p - 20 <= q,
        q + 2 <= p + x.len() + 20,
    ensures
        style_reported(
            each(5, copula_avoidance_rule(t, ex)),
            byte_pos(t, p),
            byte_pos(t, p + x.len()),
            None,
        ),
{
    lemma_copula_words();
    let entry = COPULA_AVOIDANCE_PATTERNS@[k];
    assert(entry.0@ == x);
    let end = p + x.len();
    let n = t.len() as int;
    let (lo, hi) = (byte_pos(t, p) - 80, byte_pos(t, end) + 80);
    let from = floor_pos(t, lo);
    let to = ceil_pos(t, hi);
    lemma_near(t, p, q, lo);
    lemma_near_end(t, end, q + 2, hi);
    let word = if reads(t, q, seq!['系', '統']) {
        0int
    } else if reads(t, q, seq!['程', '式']) {
        1int
    } else {
        5int
    };
    lemma_read_found(t, COPULA_TECH_CONTEXT@[word]@, from, to, q);
    assert(any_in(t, COPULA_TECH_CONTEXT@, from, to));
    lemma_reads(t, p, x);
    assert(x[0] != x[1]);
    lemma_no_overlap(t, x, p);
    assert forall|r: int| p - x.len() < r < p implies !#[trigger] occurs_at(t, x, r) by {
        lemma_reads(t, r, x);
        assert(!reads(t, r, x));
    }
    assert(!copula_compound(t, p, end));
    let step = copula_step(t, ex, entry);
    lemma_walk_meets(t, x, 0, n, step, p);
    lemma_untouched(t, ex, p, end, p, end);
    let m = step(p).1[0];
    assert(step(p).1.contains(m));
    let f = copula_avoidance_rule(t, ex);
    assert(f(k) == walk(t, x, 0, n, step));
    lemma_each_contains(5, f, k, m);
    lemma_held_reported(each(5, f), m);
}

proof fn lemma_copula_words()
    ensures
        COPULA_AVOIDANCE_PATTERNS@.len() == 5,
        COPULA_AVOIDANCE_PATTERNS@[0].0@ =~= seq!['作', '為'],
        COPULA_AVOIDANCE_PATTERNS@[1].0@ =~= seq!['標', '誌', '著'],
        COPULA_AVOIDANCE_PATTERNS@[2].0@ =~= seq!['充', '當'],
        COPULA_AVOIDANCE_PATTERNS@[3].0@ =~= seq!['擁', '有'],
        COPULA_AVOIDANCE_PATTERNS@[4].0@ =~= seq!['設', '有'],
        COPULA_TECH_CONTEXT@.len() == 10,
        COPULA_TECH_CONTEXT@[0]@ =~= seq!['系', '統'],
        COPULA_TECH_CONTEXT@[1]@ =~= seq!['程', '式'],
        COPULA_TECH_CONTEXT@[5]@ =~= seq!['模', '組'],
{
    reveal_strlit("作為");
    reveal_strlit("標誌著");
    reveal_strlit("充當");
    reveal_strlit("擁有");
    reveal_strlit("設有");
    reveal_strlit("系統");
    reveal_strlit("程式");
    reveal_strlit("模組");
}

/// Twenty characters are no more than eighty bytes.
proof fn lemma_near(t: Seq<char>, p: int, q: int, lo: int)
    requires
        0 <= q,
        q <= t.len(),
        0 <= p <= t.len(),
        p - 20 <= q,
        lo == byte_pos(t, p) - 80,
    ensures
        0 <= floor_pos(t, lo) <= q,
{
    if q <= p {
        lemma_byte_pos_monotone(t, q, p);
    } else {
        lemma_byte_pos_monotone(t, p, q);
    }
    assert(lo <= byte_pos(t, q));
    if lo >= 0 {
        lemma_floor_bounds(t, lo, 0, q);
    } else {
        lemma_floor_below(t, lo, t.len() as int);
    }
}

proof fn lemma_floor_below(t: Seq<char>, b: int, i: int)
    requires
        b < 0,
        0 <= i <= t.len(),
    ensures
        crate::text::floor_from(t, b, i) == 0,
    decreases i,
{
    if i > 0 {
        lemma_byte_pos_monotone(t, 0, i);
        lemma_floor_below(t, b, i - 1);
    }
}

proof fn lemma_near_end(t: Seq<char>, end: int, q: int, hi: int)
    requires
        0 <= end <= t.len(),
        0 <= q <= t.len(),
        q <= end + 20,
        hi == byte_pos(t, end) + 80,
    ensures
        q <= ceil_pos(t, hi) <= t.len(),
{
    let n = t.len() as int;
    lemma_byte_pos_monotone(t, end, n);
    if q >= end {
        lemma_byte_pos_monotone(t, end, q);
    } else {
        lemma_byte_pos_monotone(t, q, end);
    }
    assert(byte_pos(t, q) <= hi);
    if hi <= byte_pos(t, n) {
        lemma_ceil_bounds(t, hi, q, n);
    } else {
        lemma_ceil_above(t, hi, 0);
    }
}

proof fn lemma_ceil_above(t: Seq<char>, b: int, i: int)
    requires
        byte_pos(t, t.len() as int) < b,
        0 <= i <= t.len(),
    ensures
        crate::text::ceil_from(t, b, i) == t.len(),
    decreases t.len() - i,
{
    if i < t.len() {
        lemma_byte_pos_monotone(t, i, t.len() as int);
        lemma_ceil_above(t, b, i + 1);
    }
}

/// A text of five hundred characters or more in which 更重要的是 stands outside the
/// excluded ranges, in fewer than two thousand characters, is reported on its
/// first place; a text of fewer than five hundred is not judged.
pub proof fn law_dense_phrases_are_reported(t: Seq<char>, ex: Seq<ByteRange>, p: int)
    requires
        reads(t, p, seq!['更', '重', '要', '的', '是']),
        absent(t, seq!['更', '重', '要', '的', '是'], 0, p),
        untouched(t, ex, p, p + 5),
    ensures
        500 <= t.len() < 2000 ==> style_reported(
            density_findings(t, ex, 100),
            byte_pos(t, p),
            byte_pos(t, p + 5),
            None,
        ),
        t.len() < 500 ==> density_findings(t, ex, 100).len() == 0,
{
    reveal_strlit("更重要的是");
    let x = seq!['更', '重', '要', '的', '是'];
    assert(DENSITY_TRACKED_PHRASES@[0].0@ =~= x);
    lemma_untouched(t, ex, p, p + 5, p, p + 5);
    let n = t.len() as int;
    lemma_hits_first(t, ex, x, 0, n, p);
    let found = hits(t, ex, x, 0, n);
    assert(found[0] == p);
    if 500 <= n < 2000 {
        let f = density_rule(t, ex, 100);
        assert(1000000 * found.len() > 5 * 100 * n) by (nonlinear_arith)
            requires
                found.len() >= 1,
                n < 2000,
        ;
        let m = f(0)[0];
        assert(f(0).contains(m));
        lemma_each_contains(10, f, 0, m);
        lemma_held_reported(each(10, f), m);
    }
}

/// A tracked phrase that stands nowhere is not counted against a text.
pub proof fn law_absent_phrases_are_not_counted(
    t: Seq<char>,
    ex: Seq<ByteRange>,
    percent: int,
    k: int,
)
    requires
        0 <= k < 10,
        absent(t, DENSITY_TRACKED_PHRASES@[k].0@, 0, t.len() as int + 1),
    ensures
        density_rule(t, ex, percent)(k).len() == 0,
{
    lemma_hits_none(t, ex, DENSITY_TRACKED_PHRASES@[k].0@, 0, t.len() as int);
}

/// These findings overlap no excluded range.
pub proof fn law_phrases_leave_excluded_text_alone(t: Seq<char>, ex: Seq<ByteRange>)
    ensures
        all_are(walk(t, "意味著"@, 0, t.len() as int, yiweizhe_step(t, ex)), clear_of(ex)),
        all_are(each(5, copula_avoidance_rule(t, ex)), clear_of(ex)),
        all_are(each(3, passive_rewrite_rule(t, ex)), clear_of(ex)),
{
    let n = t.len() as int;
    lemma_walk_are(t, "意味著"@, 0, n, yiweizhe_step(t, ex), clear_of(ex));
    let f = copula_avoidance_rule(t, ex);
    assert forall|k: int| 0 <= k < 5 implies all_are(#[trigger] f(k), clear_of(ex)) by {
        let entry = COPULA_AVOIDANCE_PATTERNS@[k];
        lemma_walk_are(t, entry.0@, 0, n, copula_step(t, ex, entry), clear_of(ex));
    }
    lemma_each_are(5, f, clear_of(ex));
    let g = passive_rewrite_rule(t, ex);
    assert forall|k: int| 0 <= k < 3 implies all_are(#[trigger] g(k), clear_of(ex)) by {
        let entry = PASSIVE_REWRITE_PATTERNS@[k];
        lemma_walk_are(t, entry.0@, 0, n, passive_step(t, ex, entry), clear_of(ex));
    }
    lemma_each_are(3, g, clear_of(ex));
}

} // verus!
