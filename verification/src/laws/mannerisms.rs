//! Mannerisms of paragraphs and lists: where they are reported.
use vstd::prelude::*;

use crate::bounds::{Bound, Paragraph};
use crate::chars::whitespace;
use crate::emit::{any_hit, excluded_in, hits, overlaps, ByteRange};
use crate::grammar::ai_list::{
    bullet, four_char_label, item_content, list_finding, list_item, lists_from, opens_bold,
    with_item, ListRun,
};
use crate::grammar::ai_sentence::{
    bold_paragraph_rule, bold_runs, dense_hedging, earliest_hit, hedges, in_dense, line_anaphora,
    metaphor_rule, names_hedge, promoted, ABSTRACT_TERMS, GROWTH_VERBS, HEDGING_PHRASES,
};
use crate::grammar::ai_slogan::{
    bare_sentence, dramatic_at, dramatic_pair, labelled, lead_in_at, occurs_in_any_case, open_pair,
    pair_at, self_qa_rule, FAQ_LABELS, QA_LEAD_INS,
};
use crate::grammar::ai_structure::first_where;
use crate::grammar::calque::{
    all_friend_hits, friend_findings, friend_rule, gloss_after, skip_blanks, FALSE_FRIENDS,
};
use crate::issue::{IssueModel, IssueType, PhaseFamily, PhasePass, Severity, StructuralFamily};
use crate::laws::heads::lemma_friend_hit;
use crate::laws::naming::{lemma_last_at, lemma_line_begin, lemma_style_phrase, style_phrase};
use crate::laws::reading::{
    absent, lemma_count_none, lemma_first_read, lemma_hits_first, lemma_hits_hold, lemma_hits_none,
    lemma_no_overlap, lemma_read_found, lemma_reads, lemma_untouched, reads, untouched,
};
use crate::laws::structure::one_line;
use crate::laws::syntax::{lemma_count_step, lemma_count_two};
use crate::lines::{skip_white, trimmed};
use crate::mentions::{deep_at, mentioned, odd_at, opens, quoted, straights};
use crate::text::{any_in, byte_pos, count_where, least, lemma_byte_pos_monotone, occurs_at};
use crate::walk::{calque_reported, each, lemma_each_contains, lemma_each_holds, style_reported};

verus! {

proof fn lemma_entry_reported(
    n: int,
    f: spec_fn(int) -> Seq<IssueModel>,
    k: int,
    from: int,
    to: int,
    family: Option<StructuralFamily>,
)
    requires
        0 <= k < n,
        f(k).len() >= 1,
        f(k)[0].offset == from,
        f(k)[0].offset + f(k)[0].length <= to,
        f(k)[0].rule_type is AiStyle,
        f(k)[0].structural_family == family,
    ensures
        style_reported(each(n, f), from, to, family),
{
    let x = lemma_each_holds(n, f, k, 0);
    assert(each(n, f)[x] == f(k)[0]);
}

/// A paragraph of thirty to two hundred characters with three bold runs, which are
/// six markers, is reported.
pub proof fn law_bold_runs_of_a_paragraph_are_counted(
    t: Seq<char>,
    ex: Seq<ByteRange>,
    paragraphs: Seq<Paragraph>,
    k: int,
    m: Seq<int>,
)
    requires
        0 <= k < paragraphs.len(),
        30 <= paragraphs[k].end - paragraphs[k].start <= 200,
        paragraphs[k].end <= t.len(),
        m.len() == 6,
        paragraphs[k].start <= m[0],
        m[5] + 2 <= paragraphs[k].end,
        m[0] + 2 <= m[1] && m[1] + 2 <= m[2] && m[2] + 2 <= m[3] && m[3] + 2 <= m[4] && m[4] + 2
            <= m[5],
        forall|i: int| 0 <= i < 6 ==> reads(t, #[trigger] m[i], seq!['*', '*']),
        absent(t, seq!['*', '*'], paragraphs[k].start as int, m[0]),
        absent(t, seq!['*', '*'], m[0] + 2, m[1]),
        absent(t, seq!['*', '*'], m[1] + 2, m[2]),
        absent(t, seq!['*', '*'], m[2] + 2, m[3]),
        absent(t, seq!['*', '*'], m[3] + 2, m[4]),
        absent(t, seq!['*', '*'], m[4] + 2, m[5]),
        untouched(t, ex, paragraphs[k].start as int, paragraphs[k].end as int),
    ensures
        style_reported(
            each(paragraphs.len() as int, bold_paragraph_rule(t, ex, paragraphs)),
            byte_pos(t, paragraphs[k].start as int),
            byte_pos(t, paragraphs[k].end as int),
            Some(StructuralFamily::BoldInParagraph),
        ),
{
    reveal_strlit("**");
    let x = seq!['*', '*'];
    assert("**"@ =~= x);
    let (from, to) = (paragraphs[k].start as int, paragraphs[k].end as int);
    assert(reads(t, m[0], x) && reads(t, m[1], x) && reads(t, m[2], x) && reads(t, m[3], x)
        && reads(t, m[4], x) && reads(t, m[5], x));
    lemma_untouched(t, ex, from, to, m[0], m[0] + 2);
    lemma_untouched(t, ex, from, to, m[1], m[1] + 2);
    lemma_untouched(t, ex, from, to, m[2], m[2] + 2);
    lemma_untouched(t, ex, from, to, m[3], m[3] + 2);
    lemma_untouched(t, ex, from, to, m[4], m[4] + 2);
    lemma_untouched(t, ex, from, to, m[5], m[5] + 2);
    lemma_hits_first(t, ex, x, from, to, m[0]);
    lemma_hits_first(t, ex, x, m[0] + 2, to, m[1]);
    lemma_hits_first(t, ex, x, m[1] + 2, to, m[2]);
    lemma_hits_first(t, ex, x, m[2] + 2, to, m[3]);
    lemma_hits_first(t, ex, x, m[3] + 2, to, m[4]);
    lemma_hits_first(t, ex, x, m[4] + 2, to, m[5]);
    assert(hits(t, ex, "**"@, from, to).len() >= 6);
    let n = bold_runs(t, ex, from, to);
    assert(n >= 3);
    assert(200 * n >= 3 * (to - from));
    lemma_first_byte(t, ex, from, to);
    lemma_byte_pos_monotone(t, least(from + 2, to), to);
    let f = bold_paragraph_rule(t, ex, paragraphs);
    assert(f(k).len() == 1);
    lemma_entry_reported(
        paragraphs.len() as int,
        f,
        k,
        byte_pos(t, from),
        byte_pos(t, to),
        Some(StructuralFamily::BoldInParagraph),
    );
}

proof fn lemma_first_byte(t: Seq<char>, ex: Seq<ByteRange>, from: int, to: int)
    requires
        0 <= from < to <= t.len(),
        untouched(t, ex, from, to),
    ensures
        !excluded_in(ex, byte_pos(t, from), byte_pos(t, from) + 1),
{
    lemma_byte_pos_monotone(t, from, to);
    if excluded_in(ex, byte_pos(t, from), byte_pos(t, from) + 1) {
        let k = choose|k: int|
            0 <= k < ex.len() && #[trigger] overlaps(
                ex[k],
                byte_pos(t, from),
                byte_pos(t, from) + 1,
            );
        assert(ex[k].end <= byte_pos(t, from) || ex[k].start >= byte_pos(t, to));
    }
}

/// Three items of a list that all open on a bold word of four characters with a
/// colon behind it are reported as labels.
pub proof fn law_four_character_labels_are_reported(
    t: Seq<char>,
    ex: Seq<ByteRange>,
    lines: Seq<(int, int)>,
)
    requires
        lines.len() == 3,
        forall|k: int|
            0 <= k < lines.len() ==> {
                let (x, y) = #[trigger] lines[k];
                &&& 0 <= x
                &&& x + 11 <= y <= t.len()
                &&& reads(t, x, seq!['-', ' ', '*', '*'])
                &&& absent(t, seq!['*', '*'], x + 4, x + 8)
                &&& reads(t, x + 8, seq!['*', '*', '：'])
            },
        untouched(t, ex, lines[0].0, lines[0].0 + 1),
    ensures
        style_reported(
            lists_from(t, ex, lines, 0, None),
            byte_pos(t, lines[0].0),
            byte_pos(t, lines[0].0 + 1),
            Some(StructuralFamily::FourCharBulletLabels),
        ),
{
    let (x, y) = lines[0];
    lemma_untouched(t, ex, x, x + 1, x, x + 1);
    lemma_label_item(t, None, lines[0]);
    let one = with_item(t, None, x, y);
    lemma_label_item(t, Some(one), lines[1]);
    let two = with_item(t, Some(one), lines[1].0, lines[1].1);
    lemma_label_item(t, Some(two), lines[2]);
    let three = with_item(t, Some(two), lines[2].0, lines[2].1);
    reveal_with_fuel(lists_from, 5);
    let v = lists_from(t, ex, lines, 0, None);
    assert(v == list_finding(t, ex, three));
    assert(v[0].offset == byte_pos(t, x));
}

proof fn lemma_label_item(t: Seq<char>, r: Option<ListRun>, line: (int, int))
    requires
        0 <= line.0,
        line.0 + 11 <= line.1 <= t.len(),
        reads(t, line.0, seq!['-', ' ', '*', '*']),
        absent(t, seq!['*', '*'], line.0 + 4, line.0 + 8),
        reads(t, line.0 + 8, seq!['*', '*', '：']),
    ensures
        skip_white(t, line.0, line.1) == line.0,
        list_item(t, line.0, line.1),
        ({
            let w = with_item(t, r, line.0, line.1);
            match r {
                Some(b) => w == (ListRun {
                    first: b.first,
                    items: b.items + 1,
                    bold: b.bold + 1,
                    four: b.four + 1,
                }),
                None => w == (ListRun { first: line.0, items: 1, bold: 1, four: 1 }),
            }
        }),
{
    reveal_strlit("- ");
    reveal_strlit("* ");
    reveal_strlit("**");
    let (x, y) = line;
    let s = seq!['-', ' ', '*', '*'];
    let e = seq!['*', '*', '：'];
    assert(t[x + 0] == s[0] && t[x + 1] == s[1] && t[x + 2] == s[2] && t[x + 3] == s[3]);
    assert(t[x + 8 + 0] == e[0] && t[x + 8 + 1] == e[1] && t[x + 8 + 2] == e[2]);
    assert("- "@ =~= seq!['-', ' ']);
    assert("**"@ =~= seq!['*', '*']);
    let (u, w) = (seq!['-', ' '], seq!['*', '*']);
    assert(reads(t, x, u));
    assert(reads(t, x + 2, w));
    assert(reads(t, x + 8, w));
    lemma_reads(t, x, u);
    lemma_reads(t, x + 2, w);
    assert(bullet(t, x, y));
    assert(item_content(t, x, y) == x + 2);
    assert(opens_bold(t, x + 2, y));
    lemma_first_read(t, w, x + 4, y, x + 8);
    assert(t[x + 10] == '：');
    assert(skip_white(t, x + 10, y) == x + 10);
    assert(four_char_label(t, x + 2, y));
}

/// A phrase between two straight quotation marks on its line, with no other
/// quotation mark there, is named and not used.
pub proof fn law_phrases_in_straight_quotes_are_named(
    t: Seq<char>,
    invisible: Seq<char>,
    m: IssueModel,
    a: int,
    p: int,
    e: int,
    b: int,
)
    requires
        style_phrase(t, invisible, m, p, e),
        one_line(t, 0, t.len() as int),
        0 <= a < p,
        e <= b < t.len(),
        t[a] == '"',
        t[b] == '"',
        forall|q: int|
            0 <= q < t.len() ==> #[trigger] t[q] != '「' && t[q] != '」' && t[q] != '『' && t[q] != '』'
                && (t[q] == '"' ==> q == a || q == b),
    ensures
        mentioned(t, invisible, m),
{
    lemma_style_phrase(t, invisible, m, p, e);
    lemma_line_begin(t, p);
    lemma_count_none(0, p, opens(t));
    assert(!deep_at(t, p));
    let f = straights(t);
    crate::laws::syntax::lemma_count_split(0, a, p, f);
    crate::laws::syntax::lemma_count_split(a, a + 1, p, f);
    lemma_count_none(0, a, f);
    lemma_count_none(a + 1, p, f);
    assert(count_where(a, a, f) == 0);
    assert(f(a));
    assert(count_where(0, p, f) == 1);
    assert(odd_at(t, p));
    lemma_last_at(t, f, p, b);
    lemma_byte_pos_monotone(t, e, b);
    assert(quoted(t, p, m.offset + m.length));
}

/// 實際上 with a gloss in Latin letters right behind it is reported by itself.
pub proof fn law_glossed_false_friends_are_reported(t: Seq<char>, ex: Seq<ByteRange>, p: int, c: int)
    requires
        reads(t, p, seq!['實', '際', '上']),
        absent(t, seq!['實', '際', '上'], 0, p),
        p + 4 < c < t.len(),
        t[p + 3] == '(',
        t[c] == ')',
        forall|q: int|
            p + 3 < q < c ==> 0x41 <= (#[trigger] t[q]) as int <= 0x5A || 0x61 <= t[q] as int <= 0x7A,
        untouched(t, ex, p, c + 1),
    ensures
        calque_reported(
            friend_findings(t, ex),
            byte_pos(t, p),
            byte_pos(t, p + 3),
            Some((PhaseFamily::FalseFriend, PhasePass::Lexical)),
        ),
{
    reveal_strlit("實際上");
    reveal_strlit(")");
    let n = t.len() as int;
    assert(")"@ =~= seq![')']);
    assert(FALSE_FRIENDS@.len() == 8);
    assert(FALSE_FRIENDS@[0].0@ =~= seq!['實', '際', '上']);
    lemma_byte_pos_monotone(t, p + 3, c + 1);
    assert(untouched(t, ex, p, p + 3)) by {
        assert forall|k: int| 0 <= k < ex.len() implies (#[trigger] ex[k]).end <= byte_pos(t, p)
            || ex[k].start >= byte_pos(t, p + 3) by {
            assert(ex[k].end <= byte_pos(t, p) || ex[k].start >= byte_pos(t, c + 1));
        }
    }
    lemma_friend_hit(t, ex, 0, 8, p);
    let found = all_friend_hits(t, ex, 8);
    let h = choose|h: int| 0 <= h < found.len() && found[h] == (p, 0int);
    assert(skip_blanks(t, p + 3, 2) == p + 3);
    crate::laws::reading::lemma_absent_char(t, ')', p + 4, c);
    assert(reads(t, c, seq![')']));
    lemma_first_read(t, seq![')'], p + 4, n, c);
    lemma_untouched(t, ex, p, c + 1, p + 3, c + 1);
    assert(crate::chars::ascii_letter(t[p + 4]));
    assert(gloss_after(t, ex, p + 3));
    let f = friend_rule(t, ex, found);
    let m = f(h)[0];
    assert(f(h).contains(m));
    lemma_each_contains(found.len() as int, f, h, m);
    let v = each(found.len() as int, f);
    let k = choose|k: int| 0 <= k < v.len() && v[k] == m;
    assert(v[k].offset == byte_pos(t, p));
}

/// In a paragraph of fifty to two hundred characters that says 相對而言 three times, a
/// remark of machine style that names a hedge becomes a warning.
pub proof fn law_dense_hedging_weighs(
    t: Seq<char>,
    ex: Seq<ByteRange>,
    paragraphs: Seq<Paragraph>,
    k: int,
    a: int,
    b: int,
    c: int,
    m: IssueModel,
    said: Seq<char>,
    at: int,
)
    requires
        0 <= k < paragraphs.len(),
        50 <= paragraphs[k].end - paragraphs[k].start <= 200,
        paragraphs[k].start <= a,
        a + 4 <= b,
        b + 4 <= c,
        c + 4 <= paragraphs[k].end <= t.len(),
        reads(t, a, seq!['相', '對', '而', '言']),
        reads(t, b, seq!['相', '對', '而', '言']),
        reads(t, c, seq!['相', '對', '而', '言']),
        absent(t, seq!['相', '對', '而', '言'], paragraphs[k].start as int, a),
        absent(t, seq!['相', '對', '而', '言'], a + 4, b),
        absent(t, seq!['相', '對', '而', '言'], b + 4, c),
        untouched(t, ex, paragraphs[k].start as int, paragraphs[k].end as int),
        m.rule_type == IssueType::AiStyle,
        m.severity == Severity::Info,
        m.context == Some(said),
        reads(said, at, seq!['相', '對', '而', '言']),
        byte_pos(t, paragraphs[k].start as int) <= m.offset < byte_pos(t, paragraphs[k].end as int),
    ensures
        promoted(t, ex, paragraphs, paragraphs.len() as int, m).severity == Severity::Warning,
{
    reveal_strlit("相對而言");
    let x = seq!['相', '對', '而', '言'];
    assert(HEDGING_PHRASES@.len() == 4);
    assert(HEDGING_PHRASES@[3]@ =~= x);
    let (from, to) = (paragraphs[k].start as int, paragraphs[k].end as int);
    lemma_untouched(t, ex, from, to, a, a + 4);
    lemma_untouched(t, ex, from, to, b, b + 4);
    lemma_untouched(t, ex, from, to, c, c + 4);
    lemma_hits_first(t, ex, x, from, to, a);
    lemma_hits_first(t, ex, x, a + 4, to, b);
    lemma_hits_first(t, ex, x, b + 4, to, c);
    assert(hits(t, ex, HEDGING_PHRASES@[3]@, from, to).len() >= 3);
    let n = hedges(t, ex, 4, from, to);
    assert(n >= 3);
    assert(dense_hedging(t, ex, paragraphs[k]));
    lemma_read_found(said, HEDGING_PHRASES@[3]@, 0, said.len() as int, at);
    assert(any_in(said, HEDGING_PHRASES@, 0, said.len() as int));
    assert(names_hedge(m));
    assert(in_dense(t, ex, paragraphs, paragraphs.len() as int, m.offset));
}

/// A paragraph that draws a 脈絡, points back at it with 這條線 twice, and lets it grow
/// with 延伸, is reported where 脈絡 stands first, no other such term being there.
pub proof fn law_drawn_lines_are_reported(
    t: Seq<char>,
    ex: Seq<ByteRange>,
    paragraphs: Seq<Paragraph>,
    k: int,
    p: int,
    a: int,
    b: int,
    g: int,
)
    requires
        0 <= k < paragraphs.len(),
        paragraphs[k].start <= p,
        paragraphs[k].end <= t.len(),
        p + 2 <= paragraphs[k].end,
        reads(t, p, seq!['脈', '絡']),
        absent(t, seq!['脈', '絡'], paragraphs[k].start as int, p),
        absent(t, seq!['一', '條', '線'], paragraphs[k].start as int, paragraphs[k].end as int),
        absent(t, seq!['路', '線'], paragraphs[k].start as int, paragraphs[k].end as int),
        absent(t, seq!['軸', '線'], paragraphs[k].start as int, paragraphs[k].end as int),
        absent(t, seq!['橋'], paragraphs[k].start as int, paragraphs[k].end as int),
        paragraphs[k].start <= a,
        a + 3 <= b,
        b + 3 <= paragraphs[k].end,
        reads(t, a, seq!['這', '條', '線']) && reads(t, b, seq!['這', '條', '線']),
        absent(t, seq!['這', '條', '線'], paragraphs[k].start as int, a),
        absent(t, seq!['這', '條', '線'], a + 3, b),
        paragraphs[k].start <= g,
        g + 2 <= paragraphs[k].end,
        reads(t, g, seq!['延', '伸']),
        untouched(t, ex, paragraphs[k].start as int, paragraphs[k].end as int),
    ensures
        style_reported(
            each(paragraphs.len() as int, metaphor_rule(t, ex, paragraphs)),
            byte_pos(t, p),
            byte_pos(t, p + 2),
            Some(StructuralFamily::AbstractLineMetaphor),
        ),
{
    reveal_strlit("一條線");
    reveal_strlit("路線");
    reveal_strlit("軸線");
    reveal_strlit("脈絡");
    reveal_strlit("橋");
    reveal_strlit("這條線");
    reveal_strlit("延伸");
    let (from, to) = (paragraphs[k].start as int, paragraphs[k].end as int);
    assert(ABSTRACT_TERMS@[0]@ =~= seq!['一', '條', '線']);
    assert(ABSTRACT_TERMS@[1]@ =~= seq!['路', '線']);
    assert(ABSTRACT_TERMS@[2]@ =~= seq!['軸', '線']);
    assert(ABSTRACT_TERMS@[3]@ =~= seq!['脈', '絡']);
    assert(ABSTRACT_TERMS@[4]@ =~= seq!['橋']);
    assert("這條線"@ =~= seq!['這', '條', '線']);
    assert(GROWTH_VERBS@[3]@ =~= seq!['延', '伸']);
    lemma_untouched(t, ex, from, to, p, p + 2);
    lemma_untouched(t, ex, from, to, a, a + 3);
    lemma_untouched(t, ex, from, to, b, b + 3);
    lemma_untouched(t, ex, from, to, g, g + 2);
    lemma_none(t, ex, ABSTRACT_TERMS@[0]@, from, to);
    lemma_none(t, ex, ABSTRACT_TERMS@[1]@, from, to);
    lemma_none(t, ex, ABSTRACT_TERMS@[2]@, from, to);
    lemma_none(t, ex, ABSTRACT_TERMS@[4]@, from, to);
    lemma_hits_first(t, ex, ABSTRACT_TERMS@[3]@, from, to, p);
    reveal_with_fuel(earliest_hit, 6);
    assert(hits(t, ex, ABSTRACT_TERMS@[3]@, from, to)[0] == p);
    assert(earliest_hit(t, ex, ABSTRACT_TERMS@, 5, from, to) == Some((p, 3int)));
    let x = seq!['這', '條', '線'];
    lemma_hits_first(t, ex, x, from, to, a);
    lemma_hits_first(t, ex, x, a + 3, to, b);
    assert(hits(t, ex, "這條線"@, from, to).len() >= 2);
    assert(line_anaphora(t, ex, from, to) >= 2);
    let y = seq!['延', '伸'];
    lemma_no_overlap(t, y, g);
    lemma_hits_hold(t, ex, y, from, to, g);
    assert(hits(t, ex, GROWTH_VERBS@[3]@, from, to).len() > 0);
    assert(any_hit(t, ex, GROWTH_VERBS@, from, to));
    let f = metaphor_rule(t, ex, paragraphs);
    assert(f(k).len() == 1);
    lemma_entry_reported(
        paragraphs.len() as int,
        f,
        k,
        byte_pos(t, p),
        byte_pos(t, p + 2),
        Some(StructuralFamily::AbstractLineMetaphor),
    );
}

proof fn lemma_none(t: Seq<char>, ex: Seq<ByteRange>, x: Seq<char>, from: int, to: int)
    requires
        0 <= from,
        to <= t.len(),
        x.len() > 0,
        absent(t, x, from, to),
    ensures
        hits(t, ex, x, from, to).len() == 0,
{
    lemma_hits_none(t, ex, x, from, to);
}

proof fn lemma_lead_ins(k: int)
    requires
        0 <= k < 15,
    ensures
        QA_LEAD_INS@.len() == 15,
        QA_LEAD_INS@[k]@.len() > 0,
        QA_LEAD_INS@[k]@[0] != '你',
        QA_LEAD_INS@[k]@[0] != '錯',
{
    reveal_strlit("那麼");
    reveal_strlit("那");
    reveal_strlit("但是");
    reveal_strlit("但");
    reveal_strlit("然而");
    reveal_strlit("可是");
    reveal_strlit("而");
    reveal_strlit("所以");
    reveal_strlit("究竟");
    reveal_strlit("到底");
    reveal_strlit("其實");
    reveal_strlit("主要");
    reveal_strlit("真正");
    reveal_strlit("說穿了");
    reveal_strlit("說白了");
}

proof fn lemma_no_lead_in(t: Seq<char>, k: int, i: int, to: int)
    requires
        0 <= k <= 15,
        0 <= i < t.len(),
        t[i] == '你' || t[i] == '錯',
    ensures
        lead_in_at(t, k, i, to) is None,
    decreases 15 - k,
{
    if k < 15 {
        lemma_lead_ins(k);
        let x = QA_LEAD_INS@[k]@;
        if occurs_at(t, x, i) {
            assert(t.subrange(i, i + x.len())[0] == t[i]);
        }
        lemma_no_lead_in(t, k + 1, i, to);
    }
}

/// The sentence asks 你以為…嗎.
pub open spec fn supposes(t: Seq<char>, s: Bound) -> bool {
    &&& s.start + 5 <= s.end <= t.len()
    &&& reads(t, s.start as int, seq!['你', '以', '為'])
    &&& t[s.end - 2] == '嗎'
    &&& t[s.end - 1] == '？'
}

/// The sentence answers 錯了.
pub open spec fn corrects(t: Seq<char>, s: Bound) -> bool {
    &&& s.start + 3 <= s.end <= t.len()
    &&& reads(t, s.start as int, seq!['錯', '了'])
    &&& t[s.end - 1] == '。'
}

proof fn lemma_dramatic(t: Seq<char>, q: Bound, a: Bound)
    requires
        supposes(t, q),
        corrects(t, a),
    ensures
        dramatic_pair(t, bare_sentence(t, q), bare_sentence(t, a)),
{
    reveal_strlit("你以為");
    reveal_strlit("嗎");
    reveal_strlit("錯了");
    let x = seq!['你', '以', '為'];
    let y = seq!['錯', '了'];
    assert("你以為"@ =~= x);
    assert("錯了"@ =~= y);
    assert("嗎"@ =~= seq!['嗎']);
    let (s, e) = (q.start as int, q.end as int);
    assert(t[s + 0] == x[0]);
    assert(!whitespace(t[s]) && !whitespace(t[e - 1]));
    assert(trimmed(t, s, e) == (s, e));
    lemma_no_lead_in(t, 0, s, e);
    assert(bare_sentence(t, q) == (s, e));
    lemma_reads(t, s, x);
    assert(reads(t, e - 2, seq!['嗎']));
    lemma_read_found(t, seq!['嗎'], s, e, e - 2);
    let (u, v) = (a.start as int, a.end as int);
    assert(t[u + 0] == y[0]);
    assert(!whitespace(t[u]) && !whitespace(t[v - 1]));
    assert(trimmed(t, u, v) == (u, v));
    lemma_no_lead_in(t, 0, u, v);
    assert(bare_sentence(t, a) == (u, v));
    lemma_reads(t, u, y);
}

/// A paragraph of four sentences that twice asks 你以為…嗎 and answers 錯了, and that is no
/// list of questions, is reported on its first question.
pub proof fn law_rhetorical_questions_are_reported(
    t: Seq<char>,
    sentences: Seq<Bound>,
    paragraphs: Seq<Paragraph>,
    k: int,
)
    requires
        0 <= k < paragraphs.len(),
        paragraphs[k].first + 4 == paragraphs[k].last,
        paragraphs[k].last <= sentences.len(),
        ({
            let i = paragraphs[k].first as int;
            &&& supposes(t, sentences[i]) && corrects(t, sentences[i + 1])
            &&& supposes(t, sentences[i + 2]) && corrects(t, sentences[i + 3])
        }),
        paragraphs[k].end <= t.len(),
        forall|q: int|
            paragraphs[k].start <= q < paragraphs[k].end ==> #[trigger] t[q] != 'f' && t[q] != 'F'
                && t[q] != 'q' && t[q] != 'Q' && t[q] != '常' && t[q] != '問',
    ensures
        style_reported(
            each(
                paragraphs.len() as int,
                self_qa_rule(t, Seq::empty(), sentences, paragraphs),
            ),
            byte_pos(t, sentences[paragraphs[k].first as int].start as int),
            byte_pos(t, sentences[paragraphs[k].first as int].end as int),
            Some(StructuralFamily::RhetoricalSelfQa),
        ),
{
    let ex = Seq::<ByteRange>::empty();
    let i = paragraphs[k].first as int;
    let last = paragraphs[k].last - 1;
    lemma_dramatic(t, sentences[i], sentences[i + 1]);
    lemma_dramatic(t, sentences[i + 2], sentences[i + 3]);
    let f = pair_at(t, ex, sentences);
    let g = dramatic_at(t, ex, sentences);
    assert(open_pair(t, ex, sentences, i) && open_pair(t, ex, sentences, i + 2));
    assert(f(i) && f(i + 2));
    assert(g(i));
    lemma_count_two(i, i, i + 2, last, f);
    lemma_count_step(i, i, last, g);
    assert(first_where(i, last, f) == i);
    lemma_not_labelled(t, paragraphs[k].start as int, paragraphs[k].end as int);
    let h = self_qa_rule(t, ex, sentences, paragraphs);
    assert(h(k).len() == 1);
    lemma_entry_reported(
        paragraphs.len() as int,
        h,
        k,
        byte_pos(t, sentences[i].start as int),
        byte_pos(t, sentences[i].end as int),
        Some(StructuralFamily::RhetoricalSelfQa),
    );
}

proof fn lemma_not_labelled(t: Seq<char>, from: int, to: int)
    requires
        0 <= from,
        to <= t.len(),
        forall|q: int|
            from <= q < to ==> #[trigger] t[q] != 'f' && t[q] != 'F' && t[q] != 'q' && t[q] != 'Q'
                && t[q] != '常' && t[q] != '問',
    ensures
        !labelled(t, from, to),
{
    if labelled(t, from, to) {
        reveal_strlit("faq");
        reveal_strlit("常見問題");
        reveal_strlit("q：");
        reveal_strlit("q:");
        reveal_strlit("問：");
        reveal_strlit("問:");
        let (i, k) = choose|i: int, k: int|
            from <= i <= to && 0 <= k < 6 && #[trigger] occurs_in_any_case(
                t,
                FAQ_LABELS@[k]@,
                i,
                to,
            );
        let x = FAQ_LABELS@[k]@;
        assert(k == 0 || k == 1 || k == 2 || k == 3 || k == 4 || k == 5);
        assert(x.len() >= 2);
        assert(crate::grammar::ai_slogan::lower(t[i + 0]) == x[0]);
    }
}

} // verus!
