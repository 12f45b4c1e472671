//! Figures of machine-written prose: what is reported of sentences and
//! paragraphs.
use vstd::prelude::*;

use crate::bounds::{Bound, Paragraph};
use crate::emit::{hits, span_excluded, ByteRange};
use crate::grammar::ai_sentence::{
    bold_runs, bold_sentence_rule, despite_at, despite_rule, emdash_rule, range_chain, range_rule,
    tricolon_from, tricolon_rule, without_final, ENUMERATION, FINAL_MARKS, FORWARD_VERBS,
};
use crate::grammar::closer::{gradual, stamps, FORMULAIC_PAIRS};
use crate::issue::{IssueModel, StructuralFamily};
use crate::laws::reading::{
    lemma_first_read, lemma_hits_are, lemma_hits_first, lemma_hits_none, lemma_next_is,
    lemma_read_found, lemma_read_nowhere, lemma_absent_char, lemma_untouched, reads, untouched,
    absent,
};
use crate::origin::clear_of;
use crate::text::{any_in, byte_pos, find_in, least, lemma_byte_pos_monotone, lemma_find_in};
use crate::walk::{all_are, each, lemma_each_are, lemma_each_holds, style_reported};

verus! {

/// What an entry reports, the whole list reports.
proof fn lemma_entry_reported(
    n: int,
    f: spec_fn(int) -> Seq<IssueModel>,
    k: int,
    from: int,
    to: int,
    family: Option<StructuralFamily>,
)
    requires
        0 <= k < n,
        style_reported(f(k), from, to, family),
    ensures
        style_reported(each(n, f), from, to, family),
{
    let w = f(k);
    let j = choose|j: int|
        0 <= j < w.len() && (#[trigger] w[j]).offset == from && w[j].offset + w[j].length <= to
            && w[j].rule_type is AiStyle && w[j].structural_family == family;
    let x = lemma_each_holds(n, f, k, j);
    assert(each(n, f)[x] == w[j]);
}

/// A sentence that is three members of one length, from one to eight characters,
/// with 、 between them and a full stop behind them, is reported.
pub proof fn law_three_equal_members_are_reported(
    t: Seq<char>,
    ex: Seq<ByteRange>,
    sentences: Seq<Bound>,
    k: int,
    n: int,
)
    requires
        0 <= k < sentences.len(),
        1 <= n <= 8,
        sentences[k].start + 3 * n + 3 == sentences[k].end,
        sentences[k].end <= t.len(),
        ({
            let a = sentences[k].start as int;
            &&& t[a + n] == '、'
            &&& t[a + 2 * n + 1] == '、'
            &&& t[a + 3 * n + 2] == '。'
            &&& forall|q: int|
                a <= q < a + 3 * n + 2 && q != a + n && q != a + 2 * n + 1 ==> #[trigger] t[q] != '、'
            &&& t[a + 3 * n + 1] != '。' && t[a + 3 * n + 1] != '！' && t[a + 3 * n + 1] != '？'
            &&& t[a + 3 * n + 1] != '；' && t[a + 3 * n + 1] != '.' && t[a + 3 * n + 1] != '!'
            &&& t[a + 3 * n + 1] != '?'
            &&& untouched(t, ex, a, a + 3 * n + 2)
        }),
    ensures
        style_reported(
            each(sentences.len() as int, tricolon_rule(t, ex, sentences)),
            byte_pos(t, sentences[k].start as int),
            byte_pos(t, sentences[k].start + 3 * n + 2),
            Some(StructuralFamily::Tricolon),
        ),
{
    let a = sentences[k].start as int;
    let e = a + 3 * n + 2;
    assert(FINAL_MARKS@.contains('。')) by {
        assert(FINAL_MARKS@[0] == '。');
    }
    assert(!FINAL_MARKS@.contains(t[e - 1])) by {
        if FINAL_MARKS@.contains(t[e - 1]) {
            let i = choose|i: int| 0 <= i < FINAL_MARKS@.len() && FINAL_MARKS@[i] == t[e - 1];
            assert(i == 0 || i == 1 || i == 2 || i == 3 || i == 4 || i == 5 || i == 6);
        }
    }
    reveal_with_fuel(without_final, 3);
    assert(without_final(t, FINAL_MARKS@, a, e + 1) == e);
    assert(ENUMERATION@.len() == 1 && ENUMERATION@[0] == '、');
    assert forall|c: char| ENUMERATION@.contains(c) == (c == '、') by {
        if c == '、' {
            assert(ENUMERATION@[0] == c);
        }
    }
    lemma_next_is(t, ENUMERATION@, a, e, a + n);
    lemma_next_is(t, ENUMERATION@, a + n + 1, e, a + 2 * n + 1);
    lemma_next_is(t, ENUMERATION@, a + 2 * n + 2, e, e);
    assert(tricolon_from(t, a, e) == Some((a, e)));
    lemma_untouched(t, ex, a, e, a, e);
    let f = tricolon_rule(t, ex, sentences);
    assert(f(k)[0].offset == byte_pos(t, a));
    lemma_entry_reported(
        sentences.len() as int,
        f,
        k,
        byte_pos(t, a),
        byte_pos(t, e),
        Some(StructuralFamily::Tricolon),
    );
}

/// A sentence without 、 is no enumeration.
pub proof fn law_no_members_no_finding(
    t: Seq<char>,
    ex: Seq<ByteRange>,
    sentences: Seq<Bound>,
    k: int,
)
    requires
        0 <= k < sentences.len(),
        sentences[k].start <= sentences[k].end <= t.len(),
        forall|q: int| sentences[k].start <= q < sentences[k].end ==> #[trigger] t[q] != '、',
    ensures
        tricolon_rule(t, ex, sentences)(k).len() == 0,
{
    let a = sentences[k].start as int;
    let e = without_final(t, FINAL_MARKS@, a, sentences[k].end as int);
    lemma_without_final(t, FINAL_MARKS@, a, sentences[k].end as int);
    assert(ENUMERATION@.len() == 1 && ENUMERATION@[0] == '、');
    assert forall|r: int| a <= r < e implies !ENUMERATION@.contains(#[trigger] t[r]) by {
        if ENUMERATION@.contains(t[r]) {
            let i = choose|i: int| 0 <= i < ENUMERATION@.len() && ENUMERATION@[i] == t[r];
            assert(i == 0);
        }
    }
    lemma_next_is(t, ENUMERATION@, a, e, e);
}

proof fn lemma_without_final(t: Seq<char>, list: Seq<char>, from: int, to: int)
    requires
        from <= to,
    ensures
        from <= without_final(t, list, from, to) <= to,
    decreases to - from,
{
    if to > from && list.contains(t[to - 1]) {
        lemma_without_final(t, list, from, to - 1);
    }
}

/// A sentence that says 儘管, then 挑戰 within forty characters, then that things
/// go on, is reported from 儘管 to its end.
pub proof fn law_despite_formulas_are_reported(
    t: Seq<char>,
    ex: Seq<ByteRange>,
    sentences: Seq<Bound>,
    k: int,
    p: int,
    q: int,
    r: int,
)
    requires
        0 <= k < sentences.len(),
        sentences[k].start <= p,
        sentences[k].end <= t.len(),
        reads(t, p, seq!['儘', '管']),
        absent(t, seq!['儘', '管'], sentences[k].start as int, p),
        p + 2 <= q <= p + 42,
        reads(t, q, seq!['挑', '戰']),
        absent(t, seq!['挑', '戰'], p + 2, q),
        q + 2 <= r,
        r + 2 <= sentences[k].end,
        reads(t, r, seq!['仍', '然']) || reads(t, r, seq!['持', '續']) || reads(
            t,
            r,
            seq!['繼', '續'],
        ),
        untouched(t, ex, p, sentences[k].end as int),
    ensures
        style_reported(
            each(sentences.len() as int, despite_rule(t, ex, sentences)),
            byte_pos(t, p),
            byte_pos(t, sentences[k].end as int),
            Some(StructuralFamily::FormulaicDespite),
        ),
{
    reveal_strlit("儘管");
    reveal_strlit("挑戰");
    reveal_strlit("仍然");
    reveal_strlit("持續");
    reveal_strlit("繼續");
    assert("儘管"@ =~= seq!['儘', '管']);
    assert("挑戰"@ =~= seq!['挑', '戰']);
    assert(FORWARD_VERBS@[0]@ =~= seq!['仍', '然']);
    assert(FORWARD_VERBS@[1]@ =~= seq!['持', '續']);
    assert(FORWARD_VERBS@[3]@ =~= seq!['繼', '續']);
    let (from, to) = (sentences[k].start as int, sentences[k].end as int);
    lemma_first_read(t, seq!['儘', '管'], from, to, p);
    lemma_first_read(t, seq!['挑', '戰'], p + 2, to, q);
    if reads(t, r, seq!['仍', '然']) {
        lemma_read_found(t, FORWARD_VERBS@[0]@, q + 2, to, r);
    } else if reads(t, r, seq!['持', '續']) {
        lemma_read_found(t, FORWARD_VERBS@[1]@, q + 2, to, r);
    } else {
        lemma_read_found(t, FORWARD_VERBS@[3]@, q + 2, to, r);
    }
    assert(any_in(t, FORWARD_VERBS@, q + 2, to));
    assert(despite_at(t, from, to) == Some(p));
    lemma_untouched(t, ex, p, to, p, to);
    let f = despite_rule(t, ex, sentences);
    assert(f(k)[0].offset == byte_pos(t, p));
    lemma_entry_reported(
        sentences.len() as int,
        f,
        k,
        byte_pos(t, p),
        byte_pos(t, to),
        Some(StructuralFamily::FormulaicDespite),
    );
}

/// A sentence without 儘管 or without 挑戰 holds no such formula.
pub proof fn law_no_despite_no_finding(
    t: Seq<char>,
    ex: Seq<ByteRange>,
    sentences: Seq<Bound>,
    k: int,
)
    requires
        0 <= k < sentences.len(),
        sentences[k].start <= sentences[k].end <= t.len(),
        (absent(t, seq!['儘', '管'], sentences[k].start as int, sentences[k].end as int)) || (absent(t, seq!['挑', '戰'], sentences[k].start as int, sentences[k].end as int)),
    ensures
        despite_rule(t, ex, sentences)(k).len() == 0,
{
    reveal_strlit("儘管");
    reveal_strlit("挑戰");
    assert("儘管"@ =~= seq!['儘', '管']);
    assert("挑戰"@ =~= seq!['挑', '戰']);
    let (from, to) = (sentences[k].start as int, sentences[k].end as int);
    if absent(t, seq!['儘', '管'], from, to) {
        lemma_read_nowhere(t, "儘管"@, from, to);
    } else {
        lemma_find_in(t, "儘管"@, from, to);
        if let Some(p) = find_in(t, "儘管"@, from, to) {
            lemma_read_nowhere(t, "挑戰"@, p + 2, to);
        }
    }
}

/// A sentence that goes 從, then 到, then 再到, over ten characters or more, is
/// reported.
pub proof fn law_false_ranges_are_reported(
    t: Seq<char>,
    ex: Seq<ByteRange>,
    sentences: Seq<Bound>,
    k: int,
    p: int,
    q: int,
    r: int,
)
    requires
        0 <= k < sentences.len(),
        sentences[k].start <= p < q < r,
        r + 2 <= sentences[k].end <= t.len(),
        t[p] == '從',
        forall|x: int| sentences[k].start <= x < p ==> #[trigger] t[x] != '從',
        t[q] == '到',
        forall|x: int| p < x < q ==> #[trigger] t[x] != '到',
        reads(t, r, seq!['再', '到']),
        absent(t, seq!['再', '到'], q + 1, r),
        r + 2 - p >= 10,
        untouched(t, ex, p, r + 2),
    ensures
        style_reported(
            each(sentences.len() as int, range_rule(t, ex, sentences)),
            byte_pos(t, p),
            byte_pos(t, r + 2),
            Some(StructuralFamily::FalseRanges),
        ),
{
    reveal_strlit("從");
    reveal_strlit("到");
    reveal_strlit("再到");
    assert("從"@ =~= seq!['從']);
    assert("到"@ =~= seq!['到']);
    assert("再到"@ =~= seq!['再', '到']);
    let (from, to) = (sentences[k].start as int, sentences[k].end as int);
    lemma_absent_char(t, '從', from, p);
    lemma_absent_char(t, '到', p + 1, q);
    lemma_first_read(t, seq!['從'], from, to, p);
    lemma_first_read(t, seq!['到'], p + 1, to, q);
    lemma_first_read(t, seq!['再', '到'], q + 1, to, r);
    assert(range_chain(t, from, to) == Some((p, r + 2)));
    lemma_untouched(t, ex, p, r + 2, p, r + 2);
    let f = range_rule(t, ex, sentences);
    assert(f(k)[0].offset == byte_pos(t, p));
    lemma_entry_reported(
        sentences.len() as int,
        f,
        k,
        byte_pos(t, p),
        byte_pos(t, r + 2),
        Some(StructuralFamily::FalseRanges),
    );
}

/// A paragraph with two double dashes outside the excluded ranges is reported on
/// the first; one with a single double dash is not.
pub proof fn law_double_dashes_are_counted(
    t: Seq<char>,
    ex: Seq<ByteRange>,
    paragraphs: Seq<Paragraph>,
    k: int,
    p: int,
    q: int,
)
    requires
        0 <= k < paragraphs.len(),
        paragraphs[k].start <= p,
        paragraphs[k].end <= t.len(),
        p + 2 <= q,
        p + 2 <= paragraphs[k].end,
        reads(t, p, seq!['—', '—']),
        absent(t, seq!['—', '—'], paragraphs[k].start as int, p),
        absent(t, seq!['—', '—'], p + 2, least(q, paragraphs[k].end as int)),
        untouched(t, ex, p, paragraphs[k].end as int),
    ensures
        q + 2 <= paragraphs[k].end && reads(t, q, seq!['—', '—']) ==> style_reported(
            each(paragraphs.len() as int, emdash_rule(t, ex, paragraphs)),
            byte_pos(t, p),
            byte_pos(t, p + 2),
            Some(StructuralFamily::EmDashOveruse),
        ),
        q >= paragraphs[k].end ==> emdash_rule(t, ex, paragraphs)(k).len() == 0,
{
    reveal_strlit("——");
    let x = seq!['—', '—'];
    assert("——"@ =~= x);
    let (from, to) = (paragraphs[k].start as int, paragraphs[k].end as int);
    let f = emdash_rule(t, ex, paragraphs);
    lemma_untouched(t, ex, p, to, p, p + 2);
    lemma_hits_first(t, ex, x, from, to, p);
    if q + 2 <= to && reads(t, q, x) {
        lemma_untouched(t, ex, p, to, q, q + 2);
        lemma_hits_first(t, ex, x, p + 2, to, q);
        let found = hits(t, ex, "——"@, from, to);
        assert(found.len() >= 2);
        assert(found[0] == p);
        assert(f(k)[0].offset == byte_pos(t, p));
        lemma_entry_reported(
            paragraphs.len() as int,
            f,
            k,
            byte_pos(t, p),
            byte_pos(t, p + 2),
            Some(StructuralFamily::EmDashOveruse),
        );
    }
    if q >= to {
        lemma_hits_none(t, ex, x, p + 2, to);
        assert(hits(t, ex, "——"@, from, to).len() == 1);
    }
}

/// A sentence with two bold runs, which are four markers, is reported; one with a
/// single run is not.
pub proof fn law_bold_runs_of_a_sentence_are_counted(
    t: Seq<char>,
    ex: Seq<ByteRange>,
    sentences: Seq<Bound>,
    k: int,
    a: int,
    b: int,
    c: int,
    d: int,
)
    requires
        0 <= k < sentences.len(),
        sentences[k].start <= a,
        a + 2 <= b,
        b + 2 <= c,
        c + 2 <= d,
        d + 2 <= sentences[k].end <= t.len(),
        reads(t, a, seq!['*', '*']) && reads(t, b, seq!['*', '*']) && reads(t, c, seq!['*', '*'])
            && reads(t, d, seq!['*', '*']),
        absent(t, seq!['*', '*'], sentences[k].start as int, a),
        absent(t, seq!['*', '*'], a + 2, b),
        absent(t, seq!['*', '*'], b + 2, c),
        absent(t, seq!['*', '*'], c + 2, d),
        absent(t, seq!['*', '*'], d + 2, sentences[k].end as int),
        untouched(t, ex, sentences[k].start as int, sentences[k].end as int),
    ensures
        style_reported(
            each(sentences.len() as int, bold_sentence_rule(t, ex, sentences)),
            byte_pos(t, sentences[k].start as int),
            byte_pos(t, sentences[k].end as int),
            Some(StructuralFamily::BoldInSentence),
        ),
{
    reveal_strlit("**");
    let x = seq!['*', '*'];
    assert("**"@ =~= x);
    let (from, to) = (sentences[k].start as int, sentences[k].end as int);
    lemma_untouched(t, ex, from, to, a, a + 2);
    lemma_untouched(t, ex, from, to, b, b + 2);
    lemma_untouched(t, ex, from, to, c, c + 2);
    lemma_untouched(t, ex, from, to, d, d + 2);
    lemma_untouched(t, ex, from, to, from, to);
    lemma_hits_first(t, ex, x, from, to, a);
    lemma_hits_first(t, ex, x, a + 2, to, b);
    lemma_hits_first(t, ex, x, b + 2, to, c);
    lemma_hits_first(t, ex, x, c + 2, to, d);
    lemma_hits_none(t, ex, x, d + 2, to);
    assert(hits(t, ex, "**"@, from, to).len() == 4);
    assert(bold_runs(t, ex, from, to) == 2);
    let f = bold_sentence_rule(t, ex, sentences);
    assert(f(k)[0].offset == byte_pos(t, from));
    lemma_byte_pos_monotone(t, least(from + 2, to), to);
    lemma_entry_reported(
        sentences.len() as int,
        f,
        k,
        byte_pos(t, from),
        byte_pos(t, to),
        Some(StructuralFamily::BoldInSentence),
    );
}

/// A stamp of significance in a sentence, from 奠定 to 理論基礎, from 提供 to 重要框架,
/// from 發揮 to 關鍵作用 or from 印證 to 重要性, is reported.
pub proof fn law_stamps_are_reported(
    t: Seq<char>,
    ex: Seq<ByteRange>,
    from: int,
    to: int,
    open: Seq<char>,
    close: Seq<char>,
    p: int,
    q: int,
)
    requires
        0 <= from <= p,
        to <= t.len(),
        (open == seq!['奠', '定'] && close == seq!['理', '論', '基', '礎']) || (open == seq![
            '提',
            '供',
        ] && close == seq!['重', '要', '框', '架']) || (open == seq!['發', '揮'] && close == seq![
            '關',
            '鍵',
            '作',
            '用',
        ]) || (open == seq!['印', '證'] && close == seq!['重', '要', '性']),
        reads(t, p, open),
        absent(t, open, from, p),
        p + 2 <= q,
        q + close.len() <= to,
        reads(t, q, close),
        absent(t, close, p + 2, q),
        untouched(t, ex, p, q + close.len()),
    ensures
        style_reported(
            each(4, stamps(t, ex, from, to)),
            byte_pos(t, p),
            byte_pos(t, q + close.len()),
            Some(StructuralFamily::SignificanceStamp),
        ),
{
    lemma_stamp_words();
    let k: int = if open == seq!['奠', '定'] {
        0
    } else if open == seq!['提', '供'] {
        1
    } else if open == seq!['發', '揮'] {
        2
    } else {
        3
    };
    assert(seq!['奠', '定'][0] != seq!['提', '供'][0]);
    assert(seq!['奠', '定'][0] != seq!['發', '揮'][0]);
    assert(seq!['奠', '定'][0] != seq!['印', '證'][0]);
    assert(seq!['提', '供'][0] != seq!['發', '揮'][0]);
    assert(seq!['提', '供'][0] != seq!['印', '證'][0]);
    assert(seq!['發', '揮'][0] != seq!['印', '證'][0]);
    assert(FORMULAIC_PAIRS@[k].0@ == open);
    assert(FORMULAIC_PAIRS@[k].1@ == close);
    lemma_first_read(t, open, from, to, p);
    lemma_first_read(t, close, p + 2, to, q);
    lemma_untouched(t, ex, p, q + close.len(), p, q + close.len());
    let f = stamps(t, ex, from, to);
    assert(f(k)[0].offset == byte_pos(t, p));
    lemma_entry_reported(
        4,
        f,
        k,
        byte_pos(t, p),
        byte_pos(t, q + close.len()),
        Some(StructuralFamily::SignificanceStamp),
    );
}

proof fn lemma_stamp_words()
    ensures
        FORMULAIC_PAIRS@[0].0@ =~= seq!['奠', '定'],
        FORMULAIC_PAIRS@[0].1@ =~= seq!['理', '論', '基', '礎'],
        FORMULAIC_PAIRS@[1].0@ =~= seq!['提', '供'],
        FORMULAIC_PAIRS@[1].1@ =~= seq!['重', '要', '框', '架'],
        FORMULAIC_PAIRS@[2].0@ =~= seq!['發', '揮'],
        FORMULAIC_PAIRS@[2].1@ =~= seq!['關', '鍵', '作', '用'],
        FORMULAIC_PAIRS@[3].0@ =~= seq!['印', '證'],
        FORMULAIC_PAIRS@[3].1@ =~= seq!['重', '要', '性'],
{
    reveal_strlit("奠定");
    reveal_strlit("理論基礎");
    reveal_strlit("提供");
    reveal_strlit("重要框架");
    reveal_strlit("發揮");
    reveal_strlit("關鍵作用");
    reveal_strlit("印證");
    reveal_strlit("重要性");
}

/// 隨著 with 不斷發展 at most forty characters behind it is reported.
pub proof fn law_era_openers_are_reported(
    t: Seq<char>,
    ex: Seq<ByteRange>,
    from: int,
    to: int,
    p: int,
    q: int,
)
    requires
        0 <= from <= p,
        to <= t.len(),
        p + 2 <= q <= p + 42,
        q + 4 <= to,
        reads(t, p, seq!['隨', '著']),
        absent(t, seq!['隨', '著'], from, p),
        reads(t, q, seq!['不', '斷', '發', '展']),
        absent(t, seq!['不', '斷', '發', '展'], from, q),
        untouched(t, ex, p, q + 4),
    ensures
        style_reported(
            gradual(t, ex, from, to),
            byte_pos(t, p),
            byte_pos(t, q + 4),
            Some(StructuralFamily::EraOpener),
        ),
{
    reveal_strlit("隨著");
    reveal_strlit("不斷發展");
    assert("隨著"@ =~= seq!['隨', '著']);
    assert("不斷發展"@ =~= seq!['不', '斷', '發', '展']);
    lemma_first_read(t, seq!['隨', '著'], from, to, p);
    lemma_first_read(t, seq!['不', '斷', '發', '展'], from, to, q);
    lemma_untouched(t, ex, p, q + 4, p, q + 4);
    assert(gradual(t, ex, from, to)[0].offset == byte_pos(t, p));
}

/// None of these findings overlaps an excluded range.
pub proof fn law_figures_leave_excluded_text_alone(
    t: Seq<char>,
    ex: Seq<ByteRange>,
    sentences: Seq<Bound>,
    paragraphs: Seq<Paragraph>,
    from: int,
    to: int,
)
    requires
        forall|k: int|
            0 <= k < paragraphs.len() ==> (#[trigger] paragraphs[k]).start <= paragraphs[k].end
                <= t.len(),
    ensures
        all_are(each(sentences.len() as int, tricolon_rule(t, ex, sentences)), clear_of(ex)),
        all_are(each(sentences.len() as int, despite_rule(t, ex, sentences)), clear_of(ex)),
        all_are(each(sentences.len() as int, range_rule(t, ex, sentences)), clear_of(ex)),
        all_are(each(paragraphs.len() as int, emdash_rule(t, ex, paragraphs)), clear_of(ex)),
        all_are(each(4, stamps(t, ex, from, to)), clear_of(ex)),
        all_are(gradual(t, ex, from, to), clear_of(ex)),
{
    let n = sentences.len() as int;
    lemma_each_are(n, tricolon_rule(t, ex, sentences), clear_of(ex));
    lemma_each_are(n, despite_rule(t, ex, sentences), clear_of(ex));
    lemma_each_are(n, range_rule(t, ex, sentences), clear_of(ex));
    lemma_each_are(4, stamps(t, ex, from, to), clear_of(ex));
    let f = emdash_rule(t, ex, paragraphs);
    reveal_strlit("——");
    assert forall|k: int| 0 <= k < paragraphs.len() implies all_are(
        #[trigger] f(k),
        clear_of(ex),
    ) by {
        let (a, b) = (paragraphs[k].start as int, paragraphs[k].end as int);
        lemma_hits_are(t, ex, "——"@, a, b);
        let found = hits(t, ex, "——"@, a, b);
        if found.len() >= 2 {
            assert(!span_excluded(t, ex, found[0], found[0] + 2));
        }
    }
    lemma_each_are(paragraphs.len() as int, f, clear_of(ex));
}

} // verus!
