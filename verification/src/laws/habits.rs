//! Further habits of machine-written prose: where they are reported.
use vstd::prelude::*;

use crate::bounds::{paragraphs_of, Bound, Paragraph};
use crate::chars::{law_marks_that_end, whitespace, TERMINALS};
use crate::emit::{any_hit, hits, ByteRange};
use crate::grammar::ai::{invisible_rule, Invisible};
use crate::grammar::ai_phrase::{
    didactic_rule, didactic_step, duration_end, exaggeration_rule, exaggeration_step, lead_end,
    moral_start, DIDACTIC_NOUNS, DIDACTIC_PATTERNS, LEAD_OBJECTS, LEAD_VERBS,
};
use crate::grammar::ai_sentence::{promoted, without_final};
use crate::grammar::ai_slogan::{
    meet, parallel_slogan, paragraph_slogans, seen_at, slogan_issue, slogans, Seen, SLOGAN_ENDS,
};
use crate::grammar::ai_structure::{
    first_where, formulaic_heading, formulaic_headings, formulaic_lines, holds_list, list_density,
    list_holders, list_line, live_paragraphs, skip_hashes, FORMULAIC_HEADINGS,
};
use crate::issue::{IssueModel, Severity, StructuralFamily};
use crate::laws::reading::{
    absent, lemma_count_all, lemma_first_read, lemma_hits_hold, lemma_next_is, lemma_no_overlap,
    lemma_read_found, lemma_read_nowhere, lemma_reads, lemma_untouched, reads, untouched,
};
use crate::laws::structure::{lemma_all_live, one_line};
use crate::laws::syntax::lemma_count_two;
use crate::lines::{lines_from, skip_white, trimmed};
use crate::text::{
    after_last, byte_pos, floor_pos, least, lemma_byte_pos_monotone, lemma_floor_bounds, next_of,
    occurs_at, rfind_in,
};
use crate::walk::{
    each, lemma_each_contains, lemma_walk_first, lemma_walk_meets, style_reported, walk,
};

verus! {

proof fn lemma_held_reported(v: Seq<IssueModel>, m: IssueModel)
    requires
        v.contains(m),
        m.rule_type is AiStyle,
    ensures
        style_reported(v, m.offset, m.offset + m.length, m.structural_family),
{
    let k = choose|k: int| 0 <= k < v.len() && v[k] == m;
    assert(v[k].offset == m.offset);
}

/// The last place of a word lies at or behind any other.
proof fn lemma_rfind(t: Seq<char>, x: Seq<char>, from: int, to: int, q: int)
    requires
        0 <= from <= q,
        q + x.len() <= to <= t.len(),
        x.len() > 0,
        reads(t, q, x),
    ensures
        rfind_in(t, x, from, to) matches Some(r) && q <= r,
    decreases to - from,
{
    lemma_reads(t, q, x);
    if !occurs_at(t, x, to - x.len()) {
        lemma_rfind(t, x, from, to - 1, q);
    }
}

proof fn lemma_moral(t: Seq<char>, n: int, from: int, to: int, k: int, q: int)
    requires
        0 <= k < n <= 5,
        0 <= from <= q,
        q + DIDACTIC_NOUNS@[k]@.len() <= to <= t.len(),
        DIDACTIC_NOUNS@[k]@.len() > 0,
        reads(t, q, DIDACTIC_NOUNS@[k]@),
    ensures
        moral_start(t, n, from, to) is Some,
    decreases n,
{
    if k < n - 1 {
        lemma_moral(t, n - 1, from, to, k, q);
    } else {
        lemma_rfind(t, DIDACTIC_NOUNS@[k]@, from, to, q);
    }
}

proof fn lemma_sentence_from(t: Seq<char>, p: int, q: int)
    requires
        0 <= q <= p <= t.len(),
        forall|r: int|
            q <= r < p ==> #[trigger] t[r] != '。' && t[r] != '！' && t[r] != '？' && t[r] != '!' && t[r]
                != '?',
    ensures
        0 <= after_last(t, TERMINALS@, p) <= q,
    decreases p,
{
    if p > 0 {
        if q < p {
            law_marks_that_end(t[p - 1]);
            lemma_sentence_from(t, p - 1, q);
        } else {
            lemma_sentence_within(t, p);
        }
    }
}

proof fn lemma_sentence_within(t: Seq<char>, p: int)
    requires
        0 <= p,
    ensures
        0 <= after_last(t, TERMINALS@, p) <= p,
    decreases p,
{
    if p > 0 && !TERMINALS@.contains(t[p - 1]) {
        lemma_sentence_within(t, p - 1);
    }
}

/// 告訴我們, 提醒我們 and 啟示我們 are reported where 的故事 or 的教訓 stands in the same
/// sentence within the seven characters before: the finding ends with them.
pub proof fn law_morals_are_reported(
    t: Seq<char>,
    ex: Seq<ByteRange>,
    p: int,
    q: int,
    a: char,
    b: char,
)
    requires
        (a == '告' && b == '訴') || (a == '提' && b == '醒') || (a == '啟' && b == '示'),
        reads(t, p, seq![a, b, '我', '們']),
        reads(t, q, seq!['的', '故', '事']) || reads(t, q, seq!['的', '教', '訓']),
        p - 7 <= q,
        q + 3 <= p,
        forall|r: int|
            q <= r < p ==> #[trigger] t[r] != '。' && t[r] != '！' && t[r] != '？' && t[r] != '!' && t[r]
                != '?',
        untouched(t, ex, p, p + 4),
    ensures
        ends_at(each(9, didactic_rule(t, ex)), byte_pos(t, p + 4)),
{
    reveal_strlit("告訴我們");
    reveal_strlit("提醒我們");
    reveal_strlit("啟示我們");
    reveal_strlit("的故事");
    reveal_strlit("的教訓");
    assert(DIDACTIC_PATTERNS@[0]@ =~= seq!['告', '訴', '我', '們']);
    assert(DIDACTIC_PATTERNS@[3]@ =~= seq!['提', '醒', '我', '們']);
    assert(DIDACTIC_PATTERNS@[6]@ =~= seq!['啟', '示', '我', '們']);
    assert(DIDACTIC_NOUNS@[0]@ =~= seq!['的', '故', '事']);
    assert(DIDACTIC_NOUNS@[3]@ =~= seq!['的', '教', '訓']);
    let x = seq![a, b, '我', '們'];
    let k: int = if a == '告' {
        0
    } else if a == '提' {
        3
    } else {
        6
    };
    assert(DIDACTIC_PATTERNS@[k]@ == x);
    let near = floor_pos(t, byte_pos(t, p) - 30);
    lemma_byte_pos_monotone(t, q, p);
    if byte_pos(t, p) - 30 >= 0 {
        lemma_floor_bounds(t, byte_pos(t, p) - 30, 0, q);
    } else {
        lemma_floor_below(t, byte_pos(t, p) - 30, t.len() as int);
    }
    lemma_sentence_from(t, p, q);
    let own = after_last(t, TERMINALS@, p);
    let from = if near >= own {
        near
    } else {
        own
    };
    let noun: int = if reads(t, q, seq!['的', '故', '事']) {
        0
    } else {
        3
    };
    lemma_moral(t, 5, from, p, noun, q);
    lemma_untouched(t, ex, p, p + 4, p, p + 4);
    lemma_reads(t, p, x);
    assert(x[0] != x[1] && x[0] != x[2] && x[0] != x[3]);
    lemma_no_overlap(t, x, p);
    assert forall|r: int| p - x.len() < r < p implies !#[trigger] occurs_at(t, x, r) by {
        lemma_reads(t, r, x);
        assert(!reads(t, r, x));
    }
    let n = t.len() as int;
    let step = didactic_step(t, ex, 4);
    lemma_walk_meets(t, x, 0, n, step, p);
    let m = step(p).1[0];
    assert(step(p).1.contains(m));
    let f = didactic_rule(t, ex);
    assert(f(k) == walk(t, x, 0, n, step));
    lemma_each_contains(9, f, k, m);
    let v = each(9, f);
    let j = choose|j: int| 0 <= j < v.len() && v[j] == m;
    assert(v[j].offset + v[j].length == byte_pos(t, p + 4));
}

/// A machine-style finding ends at byte `to`.
pub open spec fn ends_at(v: Seq<IssueModel>, to: int) -> bool {
    exists|k: int|
        0 <= k < v.len() && (#[trigger] v[k]).offset + v[k].length == to && v[k].rule_type is AiStyle
}

proof fn lemma_floor_below(t: Seq<char>, b: int, i: int)
    requires
        b < 0,
        0 <= i <= t.len(),
    ensures
        crate::text::floor_from(t, b, i) == 0,
    decreases i,
{
    if i > 0 {
        lemma_byte_pos_monotone(t, 0, i);
        lemma_floor_below(t, b, i - 1);
    }
}

/// 領先業界 with one digit and 年 right behind it, for the first time in a text, is
/// reported from 領先 to 年.
pub proof fn law_claimed_leads_are_reported(t: Seq<char>, ex: Seq<ByteRange>, p: int)
    requires
        reads(t, p, seq!['領', '先', '業', '界']),
        absent(t, seq!['領', '先'], 0, p),
        p + 6 <= t.len(),
        0x30 <= t[p + 4] as int <= 0x39,
        t[p + 5] == '年',
        absent(t, seq!['時', '代'], p + 2, p + 32),
        untouched(t, ex, p, p + 2),
    ensures
        style_reported(each(3, exaggeration_rule(t, ex)), byte_pos(t, p), byte_pos(t, p + 6), None),
{
    reveal_strlit("領先");
    reveal_strlit("業界");
    reveal_strlit("時代");
    let x = seq!['領', '先'];
    let y = seq!['業', '界'];
    let z = seq!['領', '先', '業', '界'];
    assert(LEAD_VERBS@[0]@ =~= x);
    assert(LEAD_OBJECTS@[0]@ =~= seq!['時', '代']);
    assert(LEAD_OBJECTS@[1]@ =~= y);
    assert(t[p + 0] == z[0] && t[p + 1] == z[1] && t[p + 2] == z[2] && t[p + 3] == z[3]);
    assert(reads(t, p, x));
    assert(reads(t, p + 2, y));
    let n = t.len() as int;
    let after = p + 2;
    let far = least(after + 30, n);
    let to = next_of(t, TERMINALS@, after, far);
    law_marks_that_end(t[p + 2]);
    law_marks_that_end(t[p + 3]);
    law_marks_that_end(t[p + 4]);
    law_marks_that_end(t[p + 5]);
    reveal_with_fuel(next_of, 5);
    lemma_next_within(t, after + 4, far);
    assert(p + 6 <= to <= far);
    assert forall|r: int| after <= r && r + 2 <= to implies !#[trigger] reads(
        t,
        r,
        LEAD_OBJECTS@[0]@,
    ) by {
        assert(!reads(t, r, seq!['時', '代']));
    }
    lemma_read_nowhere(t, LEAD_OBJECTS@[0]@, after, to);
    lemma_first_read(t, y, after, to, after);
    let end = after + 2;
    lemma_byte_pos_monotone(t, end, end + 2);
    lemma_byte_pos_monotone(t, end + 2, to);
    let limit = least(byte_pos(t, to), byte_pos(t, end) + 20);
    lemma_byte_pos_monotone(t, 0, to);
    lemma_stop(t, limit, end + 2, to);
    let stop = floor_pos(t, limit);
    reveal_with_fuel(duration_end, 3);
    assert(duration_end(t, end, stop, 0) == Some(p + 6));
    reveal_with_fuel(lead_end, 3);
    assert(lead_end(t, 0, after, to) == Some(p + 6));
    lemma_untouched(t, ex, p, p + 2, p, p + 2);
    let step = exaggeration_step(t, ex);
    lemma_first_read(t, x, 0, n, p);
    lemma_walk_first(t, x, 0, n, step, p);
    let m = step(p).1[0];
    assert(step(p).1.contains(m));
    let f = exaggeration_rule(t, ex);
    assert(f(0) == walk(t, x, 0, n, step));
    lemma_each_contains(3, f, 0, m);
    lemma_held_reported(each(3, f), m);
}

proof fn lemma_next_within(t: Seq<char>, from: int, to: int)
    requires
        from <= to,
    ensures
        from <= next_of(t, TERMINALS@, from, to) <= to,
    decreases to - from,
{
    if from < to && !TERMINALS@.contains(t[from]) {
        lemma_next_within(t, from + 1, to);
    }
}

proof fn lemma_stop(t: Seq<char>, limit: int, at: int, to: int)
    requires
        0 <= at <= to <= t.len(),
        byte_pos(t, at) <= limit <= byte_pos(t, to),
    ensures
        at <= floor_pos(t, limit) <= to,
{
    lemma_floor_bounds(t, limit, at, to);
}

/// Every invisible character outside the excluded ranges is reported, and its
/// deletion suggested.
pub proof fn law_invisible_characters_are_reported(
    t: Seq<char>,
    ex: Seq<ByteRange>,
    found: Seq<Invisible>,
    k: int,
)
    requires
        0 <= k < found.len(),
        found[k].pos < t.len(),
        untouched(t, ex, found[k].pos as int, found[k].pos + 1),
    ensures
        crate::walk::suggested(
            each(found.len() as int, invisible_rule(t, ex, found)),
            byte_pos(t, found[k].pos as int),
            byte_pos(t, found[k].pos + 1),
            seq![Seq::<char>::empty()],
        ),
{
    let p = found[k].pos as int;
    lemma_untouched(t, ex, p, p + 1, p, p + 1);
    let f = invisible_rule(t, ex, found);
    let m = f(k)[0];
    assert(f(k).contains(m));
    lemma_each_contains(found.len() as int, f, k, m);
    let v = each(found.len() as int, f);
    let j = choose|j: int| 0 <= j < v.len() && v[j] == m;
    assert(v[j].suggestions == seq![Seq::<char>::empty()]);
}

/// Too much hedging makes a remark a warning and changes nothing else; findings
/// that are not of machine style, or weigh more than a remark, stay as they are.
pub proof fn law_hedging_only_weighs_more(
    t: Seq<char>,
    ex: Seq<ByteRange>,
    paragraphs: Seq<Paragraph>,
    m: IssueModel,
)
    ensures
        ({
            let r = promoted(t, ex, paragraphs, paragraphs.len() as int, m);
            &&& r == m || (m.severity == Severity::Info && r == (IssueModel {
                severity: Severity::Warning,
                ..m
            }))
            &&& !(m.rule_type is AiStyle) ==> r == m
        }),
{
}

/// A document of five or more paragraphs of one line, every one of which is an item
/// of a list, is reported on the first.
pub proof fn law_dense_lists_are_reported(t: Seq<char>)
    requires
        paragraphs_of(t).len() >= 5,
        forall|k: int|
            0 <= k < paragraphs_of(t).len() ==> {
                let s = #[trigger] paragraphs_of(t)[k];
                0 <= s.0 && s.0 + 3 <= s.1 <= t.len() && one_line(t, s.0, s.1) && t[s.0] == '-'
                    && t[s.0 + 1] == ' ' && !whitespace(t[s.1 - 1])
            },
    ensures
        style_reported(
            list_density(t, Seq::empty(), 100),
            byte_pos(t, paragraphs_of(t)[0].0),
            byte_pos(t, paragraphs_of(t)[0].0),
            Some(StructuralFamily::ListDensity),
        ),
{
    let p = paragraphs_of(t);
    lemma_all_live(t, p, p.len() as int);
    assert(p.take(p.len() as int) =~= p);
    assert(live_paragraphs(t, Seq::empty()) == p);
    let f = list_holders(t, p);
    assert forall|k: int| 0 <= k < p.len() implies #[trigger] f(k) by {
        lemma_list_paragraph(t, p[k]);
    }
    lemma_count_all(0, p.len() as int, f);
    assert(f(0));
    assert(first_where(0, p.len() as int, f) == 0);
    let n = p.len() as int;
    assert(1000 * n > 4 * 100 * n) by (nonlinear_arith)
        requires
            n >= 5,
    ;
    assert(list_density(t, Seq::empty(), 100)[0].offset == byte_pos(t, p[0].0));
}

proof fn lemma_list_paragraph(t: Seq<char>, s: (int, int))
    requires
        0 <= s.0,
        s.0 + 3 <= s.1 <= t.len(),
        one_line(t, s.0, s.1),
        t[s.0] == '-',
        t[s.0 + 1] == ' ',
        !whitespace(t[s.1 - 1]),
    ensures
        holds_list(t, s),
{
    reveal_strlit("- ");
    let x = seq!['-', ' '];
    assert("- "@ =~= x);
    assert(reads(t, s.0, x));
    lemma_reads(t, s.0, x);
    let list = seq!['\n'];
    assert forall|r: int| s.0 <= r < s.1 implies !list.contains(#[trigger] t[r]) by {
        if list.contains(t[r]) {
            let i = choose|i: int| 0 <= i < list.len() && list[i] == t[r];
            assert(i == 0);
        }
    }
    lemma_next_is(t, list, s.0, s.1, s.1);
    let lines = lines_from(t, s.0, s.1);
    assert(lines =~= seq![s]);
    assert(trimmed(t, s.0, s.1) == s);
    assert(list_line(t, lines[0]));
}

/// Two headings that read 結論與展望 or 回顧與展望, on the first two lines of a document,
/// are reported on the first.
pub proof fn law_formulaic_headings_are_reported(t: Seq<char>, x: Seq<char>)
    requires
        x == seq!['結', '論', '與', '展', '望'] || x == seq!['回', '顧', '與', '展', '望'],
        lines_from(t, 0, t.len() as int).len() >= 2,
        forall|k: int|
            0 <= k < 2 ==> {
                let s = #[trigger] lines_from(t, 0, t.len() as int)[k];
                0 <= s.0 && s.1 == s.0 + 7 && s.1 <= t.len() && t[s.0] == '#' && t[s.0 + 1] == ' '
                    && reads(t, s.0 + 2, x)
            },
    ensures
        style_reported(
            formulaic_headings(t, Seq::empty()),
            byte_pos(t, lines_from(t, 0, t.len() as int)[0].0),
            byte_pos(t, lines_from(t, 0, t.len() as int)[0].0),
            Some(StructuralFamily::FormulaicHeadings),
        ),
{
    let ex = Seq::<ByteRange>::empty();
    let p = lines_from(t, 0, t.len() as int);
    let f = formulaic_lines(t, ex, p);
    lemma_heading(t, p[0], x);
    lemma_heading(t, p[1], x);
    assert(f(0) && f(1));
    lemma_count_two(0, 0, 1, p.len() as int, f);
    assert(first_where(0, p.len() as int, f) == 0);
    assert(formulaic_headings(t, ex)[0].offset == byte_pos(t, p[0].0));
}

proof fn lemma_heading(t: Seq<char>, s: (int, int), x: Seq<char>)
    requires
        x == seq!['結', '論', '與', '展', '望'] || x == seq!['回', '顧', '與', '展', '望'],
        0 <= s.0,
        s.1 == s.0 + 7,
        s.1 <= t.len(),
        t[s.0] == '#',
        t[s.0 + 1] == ' ',
        reads(t, s.0 + 2, x),
    ensures
        formulaic_heading(t, Seq::empty(), s),
{
    reveal_strlit("結論與展望");
    reveal_strlit("回顧與展望");
    assert(FORMULAIC_HEADINGS@[1]@ =~= seq!['結', '論', '與', '展', '望']);
    assert(FORMULAIC_HEADINGS@[6]@ =~= seq!['回', '顧', '與', '展', '望']);
    let ex = Seq::<ByteRange>::empty();
    let at = s.0 + 2;
    assert(t[at + 0] == x[0] && t[at + 4] == x[4]);
    assert(!whitespace(t[at]) && !whitespace(t[s.1 - 1]));
    assert(trimmed(t, s.0, s.1) == s);
    assert(skip_hashes(t, s.0 + 1, s.1) == s.0 + 1);
    assert(skip_hashes(t, s.0, s.1) == s.0 + 1);
    assert(skip_white(t, at, s.1) == at);
    assert(skip_white(t, s.0 + 1, s.1) == at);
    assert(trimmed(t, s.0 + 1, s.1) == (at, s.1));
    lemma_no_overlap(t, x, at);
    lemma_hits_hold(t, ex, x, at, s.1, at);
    let k: int = if x == seq!['結', '論', '與', '展', '望'] {
        1
    } else {
        6
    };
    assert(FORMULAIC_HEADINGS@[k]@ == x);
    assert(hits(t, ex, FORMULAIC_HEADINGS@[k]@, at, s.1).len() > 0);
    assert(any_hit(t, ex, FORMULAIC_HEADINGS@, at, s.1));
}

/// A sentence that says 不是 and 而是 and that a later paragraph repeats word for word
/// is reported where it stands first.
pub proof fn law_repeated_slogans_are_reported(
    t: Seq<char>,
    sentences: Seq<Bound>,
    paragraphs: Seq<Paragraph>,
    p: int,
    q: int,
)
    requires
        sentences.len() == 2,
        paragraphs.len() == 2,
        paragraphs[0].first == 0 && paragraphs[0].last == 1,
        paragraphs[1].first == 1 && paragraphs[1].last == 2,
        slogan(t, sentences[0], p, q),
        sentences[1].start <= sentences[1].end <= t.len(),
        t.subrange(sentences[0].start as int, sentences[0].end as int) == t.subrange(
            sentences[1].start as int,
            sentences[1].end as int,
        ),
    ensures
        style_reported(
            slogans(t, Seq::empty(), sentences, paragraphs, 2).1,
            byte_pos(t, sentences[0].start as int),
            byte_pos(t, sentences[0].end as int),
            Some(StructuralFamily::RepeatedSlogan),
        ),
{
    let ex = Seq::<ByteRange>::empty();
    let (a, b) = (sentences[0].start as int, sentences[0].end as int);
    let (c, d) = (sentences[1].start as int, sentences[1].end as int);
    let (x, y) = (t.subrange(a, b), t.subrange(c, d));
    assert(b - a == d - c) by {
        assert(x.len() == b - a);
        assert(y.len() == d - c);
    }
    assert forall|i: int| 0 <= i < b - a implies t[a + i] == #[trigger] t[c + i] by {
        assert(x[i] == t[a + i]);
        assert(y[i] == t[c + i]);
    }
    lemma_slogan(t, sentences[0], p, q);
    lemma_moved(t, a, c, b - a, p, seq!['不', '是']);
    lemma_moved(t, a, c, b - a, q, seq!['而', '是']);
    assert(t[c + 0] == t[a]);
    assert(t[c + (d - c - 1)] == t[a + (b - a - 1)]);
    assert(t[c + (d - c - 2)] == t[a + (b - a - 2)]);
    lemma_slogan(t, sentences[1], c + (p - a), c + (q - a));
    let none = Seq::<Seen>::empty();
    let met = Seen { start: a, end: b, paragraph: 0, told: false };
    assert(seen_at(t, none, 0, a, b) == 0);
    let one = meet(t, none, 0, a, b);
    assert(one.0 =~= seq![met]);
    assert(one.1 =~= Seq::empty());
    reveal_with_fuel(paragraph_slogans, 3);
    reveal_with_fuel(slogans, 3);
    let first = slogans(t, ex, sentences, paragraphs, 1);
    assert(first.0 =~= seq![met]);
    assert(seen_at(t, first.0, 0, c, d) == 0);
    let two = meet(t, first.0, 1, c, d);
    assert(two.1 =~= seq![slogan_issue(t, a)]);
    let v = slogans(t, ex, sentences, paragraphs, 2).1;
    assert(v[0] == slogan_issue(t, a) || v.contains(slogan_issue(t, a)));
    assert(v.contains(slogan_issue(t, a)));
    lemma_byte_pos_monotone(t, least(a + 8, t.len() as int), b);
    let k = choose|k: int| 0 <= k < v.len() && v[k] == slogan_issue(t, a);
    assert(v[k].offset == byte_pos(t, a));
}

/// A sentence of ten to eighty characters that ends on one full stop and says 不是
/// and 而是.
pub open spec fn slogan(t: Seq<char>, s: Bound, p: int, q: int) -> bool {
    let (a, b) = (s.start as int, s.end as int);
    &&& b <= t.len()
    &&& 10 <= b - a <= 80
    &&& t[b - 1] == '。'
    &&& crate::chars::cjk_ideograph(t[b - 2])
    &&& !whitespace(t[a])
    &&& a <= p && p + 2 < b && reads(t, p, seq!['不', '是'])
    &&& a <= q && q + 2 < b && reads(t, q, seq!['而', '是'])
}

proof fn lemma_slogan(t: Seq<char>, s: Bound, p: int, q: int)
    requires
        slogan(t, s, p, q),
    ensures
        trimmed(t, s.start as int, s.end as int) == (s.start as int, s.end as int),
        parallel_slogan(t, s.start as int, s.end as int),
{
    reveal_strlit("不是");
    reveal_strlit("而是");
    assert("不是"@ =~= seq!['不', '是']);
    assert("而是"@ =~= seq!['而', '是']);
    let (a, b) = (s.start as int, s.end as int);
    assert(SLOGAN_ENDS@.len() == 5 && SLOGAN_ENDS@[0] == '。' && SLOGAN_ENDS@[1] == '！'
        && SLOGAN_ENDS@[2] == '？' && SLOGAN_ENDS@[3] == '!' && SLOGAN_ENDS@[4] == '?');
    assert(SLOGAN_ENDS@.contains('。'));
    assert(!SLOGAN_ENDS@.contains(t[b - 2])) by {
        if SLOGAN_ENDS@.contains(t[b - 2]) {
            let i = choose|i: int| 0 <= i < SLOGAN_ENDS@.len() && SLOGAN_ENDS@[i] == t[b - 2];
            assert(i == 0 || i == 1 || i == 2 || i == 3 || i == 4);
        }
    }
    reveal_with_fuel(without_final, 3);
    assert(without_final(t, SLOGAN_ENDS@, a, b) == b - 1);
    assert(trimmed(t, a, b - 1) == (a, b - 1));
    lemma_read_found(t, "不是"@, a, b - 1, p);
    lemma_read_found(t, "而是"@, a, b - 1, q);
}

/// What stands in a stretch stands in its copy.
proof fn lemma_moved(t: Seq<char>, a: int, c: int, n: int, p: int, x: Seq<char>)
    requires
        0 <= a,
        0 <= c,
        a + n <= t.len(),
        c + n <= t.len(),
        a <= p,
        p + x.len() <= a + n,
        forall|i: int| 0 <= i < n ==> t[a + i] == #[trigger] t[c + i],
        reads(t, p, x),
    ensures
        reads(t, c + (p - a), x),
{
    assert forall|i: int| 0 <= i < x.len() implies t[c + (p - a) + i] == #[trigger] x[i] by {
        assert(t[p + i] == x[i]);
        assert(t[c + (p - a + i)] == t[a + (p - a + i)]);
    }
}

} // verus!
