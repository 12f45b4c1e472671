//! Translationese that a phrase or a sentence shows: where it is reported.
use vstd::prelude::*;

use crate::bounds::{Bound, Paragraph};
use crate::chars::TERMINALS;
use crate::emit::{hits, span_excluded, ByteRange};
use crate::grammar::calque::{
    another_dang_word, connective_findings, connective_rule, connective_step, superlative_rule,
    superlative_step, CONNECTIVES, PERSON_NOUN_TAILS, SKIP_NEXT, SUPERLATIVES, sentence_window,
};
use crate::grammar::indexed::{
    bounded_pairs, bounded_rule, bounded_step, yi_zhi_rule, Domain, SENTENCE_CONNECTIVES,
};
use crate::issue::{IssueModel, PhaseFamily, PhasePass, Register};
use crate::laws::reading::{
    absent, lemma_first_read, lemma_hits_are, lemma_hits_first, lemma_reads, lemma_untouched, reads,
    untouched,
};
use crate::origin::clear_of;
use crate::text::{
    any_ending, byte_pos, find_in, has_char_in, least, lemma_find_in, next_of, occurs_at,
};
use crate::walk::{
    all_are, calque_reported, each, lemma_each_are, lemma_each_contains, lemma_walk_are,
    lemma_walk_first, suggested, walk,
};

verus! {

proof fn lemma_held_reported(v: Seq<IssueModel>, m: IssueModel)
    requires
        v.contains(m),
        m.rule_type is Translationese,
    ensures
        calque_reported(v, m.offset, m.offset + m.length, m.phase_family),
        suggested(v, m.offset, m.offset + m.length, m.suggestions),
{
    let k = choose|k: int| 0 <= k < v.len() && v[k] == m;
    assert(v[k].offset == m.offset);
}

/// The character ends a sentence.
pub open spec fn ends_sentence(c: char) -> bool {
    c == '。' || c == '！' || c == '？' || c == '!' || c == '?'
}

proof fn lemma_terminals(c: char)
    ensures
        TERMINALS@.contains(c) == ends_sentence(c),
{
    assert(TERMINALS@.len() == 5);
    assert(TERMINALS@[0] == '。' && TERMINALS@[1] == '！' && TERMINALS@[2] == '？' && TERMINALS@[3]
        == '!' && TERMINALS@[4] == '?');
    if TERMINALS@.contains(c) {
        let i = choose|i: int| 0 <= i < TERMINALS@.len() && TERMINALS@[i] == c;
        assert(i == 0 || i == 1 || i == 2 || i == 3 || i == 4);
    }
}

/// A window that no sentence ends in reaches as far as it may.
proof fn lemma_window_reaches(t: Seq<char>, from: int, n: int, q: int)
    requires
        0 <= from <= q <= t.len(),
        q <= from + n,
        forall|r: int| from <= r < q ==> !ends_sentence(#[trigger] t[r]),
    ensures
        q <= sentence_window(t, from, n, t.len() as int) <= t.len(),
        sentence_window(t, from, n, t.len() as int) <= from + n,
{
    let to = least(from + n, t.len() as int);
    lemma_next_beyond(t, from, to, q);
}

proof fn lemma_next_beyond(t: Seq<char>, from: int, to: int, q: int)
    requires
        from <= to,
        q <= to,
        forall|r: int| from <= r < q ==> !ends_sentence(#[trigger] t[r]),
    ensures
        from <= next_of(t, TERMINALS@, from, to) <= to,
        q <= next_of(t, TERMINALS@, from, to) || q <= from,
    decreases to - from,
{
    if from < to {
        lemma_terminals(t[from]);
        if !TERMINALS@.contains(t[from]) {
            lemma_next_beyond(t, from + 1, to, q);
        }
    }
}

/// 最 or 極為, for the first time at `p`, with 之一 in the same sentence and one to
/// twenty characters other than 之 between them, is reported, unless what stands
/// before 之一 may name a person.
pub proof fn law_superlatives_are_reported(
    t: Seq<char>,
    ex: Seq<ByteRange>,
    x: Seq<char>,
    p: int,
    q: int,
)
    requires
        x == seq!['最'] || x == seq!['極', '為'],
        reads(t, p, x),
        absent(t, x, 0, p),
        p + x.len() < q <= p + x.len() + 20,
        reads(t, q, seq!['之', '一']),
        forall|r: int| p + x.len() <= r < q ==> #[trigger] t[r] != '之',
        forall|r: int| p + x.len() <= r < q + 2 ==> !ends_sentence(#[trigger] t[r]),
        t[q - 1] != '家' && t[q - 1] != '者' && t[q - 1] != '師' && t[q - 1] != '員' && t[q - 1]
            != '手' && t[q - 1] != '授' && t[q - 1] != '生',
        untouched(t, ex, p, q + 2),
    ensures
        calque_reported(
            each(2, superlative_rule(t, ex)),
            byte_pos(t, p),
            byte_pos(t, q + 2),
            Some((PhaseFamily::YiZhi, PhasePass::Lexical)),
        ),
{
    reveal_strlit("最");
    reveal_strlit("極為");
    reveal_strlit("之一");
    let y = seq!['之', '一'];
    assert("之一"@ =~= y);
    assert(SUPERLATIVES@[0]@ =~= seq!['最']);
    assert(SUPERLATIVES@[1]@ =~= seq!['極', '為']);
    let k: int = if x == seq!['最'] {
        0
    } else {
        1
    };
    let n = t.len() as int;
    let after = p + x.len();
    lemma_window_reaches(t, after, 22, q + 2);
    let far = sentence_window(t, after, 22, n);
    assert forall|r: int| after <= r < q implies !#[trigger] reads(t, r, y) by {
        if reads(t, r, y) {
            assert(t[r + 0] == y[0]);
        }
    }
    lemma_first_read(t, y, after, far, q);
    assert(!has_char_in(t, seq!['之'], after, q)) by {
        if has_char_in(t, seq!['之'], after, q) {
            let i = choose|i: int| after <= i < q && seq!['之'].contains(#[trigger] t[i]);
            assert(t[i] == '之');
        }
    }
    lemma_no_person(t, after, q);
    lemma_untouched(t, ex, p, q + 2, p, q + 2);
    let step = superlative_step(t, ex, x);
    lemma_first_read(t, x, 0, n, p);
    lemma_walk_first(t, x, 0, n, step, p);
    let m = step(p).1[0];
    assert(step(p).1.contains(m));
    let f = superlative_rule(t, ex);
    assert(f(k) == walk(t, x, 0, n, step));
    lemma_each_contains(2, f, k, m);
    lemma_held_reported(each(2, f), m);
}

proof fn lemma_person_tails(k: int)
    requires
        0 <= k < 16,
    ensures
        PERSON_NOUN_TAILS@.len() == 16,
        PERSON_NOUN_TAILS@[k]@.len() > 0,
        ({
            let c = PERSON_NOUN_TAILS@[k]@.last();
            c == '家' || c == '者' || c == '師' || c == '員' || c == '手' || c == '授' || c == '生'
        }),
{
    reveal_strlit("畫家");
    reveal_strlit("學者");
    reveal_strlit("作家");
    reveal_strlit("工程師");
    reveal_strlit("程式設計師");
    reveal_strlit("設計師");
    reveal_strlit("研究員");
    reveal_strlit("運動員");
    reveal_strlit("球員");
    reveal_strlit("演員");
    reveal_strlit("歌手");
    reveal_strlit("作者");
    reveal_strlit("記者");
    reveal_strlit("教授");
    reveal_strlit("醫師");
    reveal_strlit("醫生");
}

proof fn lemma_no_person(t: Seq<char>, from: int, to: int)
    requires
        0 <= from < to <= t.len(),
        t[to - 1] != '家' && t[to - 1] != '者' && t[to - 1] != '師' && t[to - 1] != '員' && t[to - 1]
            != '手' && t[to - 1] != '授' && t[to - 1] != '生',
    ensures
        !any_ending(t, PERSON_NOUN_TAILS@, from, to),
{
    assert(PERSON_NOUN_TAILS@.len() == 16);
    if any_ending(t, PERSON_NOUN_TAILS@, from, to) {
        let k = choose|k: int|
            0 <= k < PERSON_NOUN_TAILS@.len() && from <= to - PERSON_NOUN_TAILS@[k]@.len()
                && #[trigger] occurs_at(
                t,
                PERSON_NOUN_TAILS@[k]@,
                to - PERSON_NOUN_TAILS@[k]@.len(),
            );
        lemma_person_tails(k);
        let x = PERSON_NOUN_TAILS@[k]@;
        assert(t.subrange(to - x.len(), to)[x.len() - 1] == t[to - 1]);
    }
}

/// 最…學者之一 and 最…作家之一 name a person, and are not reported.
pub proof fn law_one_of_the_best_people_is_not_reported(
    t: Seq<char>,
    ex: Seq<ByteRange>,
    p: int,
    q: int,
)
    requires
        0 <= p,
        p + 3 <= q <= p + 21,
        reads(t, q, seq!['之', '一']),
        forall|r: int| p + 1 <= r < q ==> #[trigger] t[r] != '之',
        forall|r: int| p + 1 <= r < q + 2 ==> !ends_sentence(#[trigger] t[r]),
        reads(t, q - 2, seq!['學', '者']) || reads(t, q - 2, seq!['作', '家']),
    ensures
        superlative_step(t, ex, seq!['最'])(p).1.len() == 0,
{
    reveal_strlit("之一");
    reveal_strlit("學者");
    reveal_strlit("作家");
    let y = seq!['之', '一'];
    assert("之一"@ =~= y);
    assert(PERSON_NOUN_TAILS@[1]@ =~= seq!['學', '者']);
    assert(PERSON_NOUN_TAILS@[2]@ =~= seq!['作', '家']);
    let after = p + 1;
    lemma_window_reaches(t, after, 22, q + 2);
    let far = sentence_window(t, after, 22, t.len() as int);
    assert forall|r: int| after <= r < q implies !#[trigger] reads(t, r, y) by {
        if reads(t, r, y) {
            assert(t[r + 0] == y[0]);
        }
    }
    lemma_first_read(t, y, after, far, q);
    lemma_reads(t, q - 2, seq!['學', '者']);
    lemma_reads(t, q - 2, seq!['作', '家']);
    assert(occurs_at(t, PERSON_NOUN_TAILS@[1]@, q - PERSON_NOUN_TAILS@[1]@.len()) || occurs_at(
        t,
        PERSON_NOUN_TAILS@[2]@,
        q - PERSON_NOUN_TAILS@[2]@.len(),
    ));
    assert(any_ending(t, PERSON_NOUN_TAILS@, after, q));
}

/// A superlative is not reported where no 之一 follows within twenty-two
/// characters, nor where its sentence ends first.
pub proof fn law_superlatives_stay_in_their_sentence(
    t: Seq<char>,
    ex: Seq<ByteRange>,
    p: int,
    e: int,
)
    requires
        0 <= p < e,
        e == t.len() || e == p + 23 || (e < t.len() && ends_sentence(t[e])),
        e <= t.len(),
        e <= p + 23,
        absent(t, seq!['之', '一'], p + 1, e - 1),
    ensures
        superlative_step(t, ex, seq!['最'])(p).1.len() == 0,
{
    reveal_strlit("之一");
    let y = seq!['之', '一'];
    assert("之一"@ =~= y);
    let after = p + 1;
    let n = t.len() as int;
    let far = sentence_window(t, after, 22, n);
    lemma_next_stops(t, after, least(after + 22, n), e);
    lemma_find_in(t, y, after, far);
    if let Some(q) = find_in(t, y, after, far) {
        lemma_reads(t, q, y);
        assert(reads(t, q, y));
    }
}

proof fn lemma_next_stops(t: Seq<char>, from: int, to: int, e: int)
    requires
        from <= e <= to,
        e == to || ends_sentence(t[e]),
    ensures
        from <= next_of(t, TERMINALS@, from, to) <= e,
    decreases e - from,
{
    if from < to {
        lemma_terminals(t[from]);
        if !TERMINALS@.contains(t[from]) && from < e {
            lemma_next_stops(t, from + 1, to, e);
        }
    }
}

/// The pairs of connectives, and how many characters may stand between the
/// halves.
pub open spec fn connective_pair(k: int, open: Seq<char>, close: Seq<char>, most: int) -> bool {
    ||| k == 0 && open == seq!['因', '為'] && close == seq!['所', '以'] && most == 40
    ||| k == 1 && open == seq!['雖', '然'] && close == seq!['但', '是'] && most == 40
    ||| k == 2 && open == seq!['當'] && close == seq!['的', '時', '候'] && most == 30
    ||| k == 3 && open == seq!['如', '果'] && close == seq!['那', '麼'] && most == 40
}

proof fn lemma_connective_words(k: int, open: Seq<char>, close: Seq<char>, most: int)
    requires
        connective_pair(k, open, close, most),
    ensures
        CONNECTIVES@.len() == 4,
        CONNECTIVES@[k].0@ == open,
        CONNECTIVES@[k].1@ == close,
        CONNECTIVES@[k].2 == most,
        SENTENCE_CONNECTIVES@.len() == 4,
        SENTENCE_CONNECTIVES@[k].0@ == open,
        SENTENCE_CONNECTIVES@[k].1@ == close,
        SENTENCE_CONNECTIVES@[k].2 == most,
        SENTENCE_CONNECTIVES@[k].3 == (k < 2),
{
    reveal_strlit("因為");
    reveal_strlit("所以");
    reveal_strlit("雖然");
    reveal_strlit("但是");
    reveal_strlit("當");
    reveal_strlit("的時候");
    reveal_strlit("如果");
    reveal_strlit("那麼");
    assert(CONNECTIVES@[0].0@ =~= seq!['因', '為']);
    assert(CONNECTIVES@[0].1@ =~= seq!['所', '以']);
    assert(CONNECTIVES@[1].0@ =~= seq!['雖', '然']);
    assert(CONNECTIVES@[1].1@ =~= seq!['但', '是']);
    assert(CONNECTIVES@[2].0@ =~= seq!['當']);
    assert(CONNECTIVES@[2].1@ =~= seq!['的', '時', '候']);
    assert(CONNECTIVES@[3].0@ =~= seq!['如', '果']);
    assert(CONNECTIVES@[3].1@ =~= seq!['那', '麼']);
    assert(SENTENCE_CONNECTIVES@[0].0@ =~= seq!['因', '為']);
    assert(SENTENCE_CONNECTIVES@[0].1@ =~= seq!['所', '以']);
    assert(SENTENCE_CONNECTIVES@[1].0@ =~= seq!['雖', '然']);
    assert(SENTENCE_CONNECTIVES@[1].1@ =~= seq!['但', '是']);
    assert(SENTENCE_CONNECTIVES@[2].0@ =~= seq!['當']);
    assert(SENTENCE_CONNECTIVES@[2].1@ =~= seq!['的', '時', '候']);
    assert(SENTENCE_CONNECTIVES@[3].0@ =~= seq!['如', '果']);
    assert(SENTENCE_CONNECTIVES@[3].1@ =~= seq!['那', '麼']);
}

/// No other word begins with 當 at `p`.
proof fn lemma_no_other_word(t: Seq<char>, p: int, to: int)
    requires
        t[p] == '當' ==> p + 1 < to && t[p + 1] == '我',
    ensures
        !another_dang_word(t, p, to),
{
    assert(SKIP_NEXT@.len() == 17);
    if SKIP_NEXT@.contains('我') {
        let i = choose|i: int| 0 <= i < SKIP_NEXT@.len() && SKIP_NEXT@[i] == '我';
        assert(SKIP_NEXT@[0] == '下' && SKIP_NEXT@[1] == '時' && SKIP_NEXT@[2] == '作'
            && SKIP_NEXT@[3] == '初' && SKIP_NEXT@[4] == '今' && SKIP_NEXT@[5] == '年'
            && SKIP_NEXT@[6] == '日' && SKIP_NEXT@[7] == '前' && SKIP_NEXT@[8] == '地'
            && SKIP_NEXT@[9] == '局' && SKIP_NEXT@[10] == '事' && SKIP_NEXT@[11] == '中'
            && SKIP_NEXT@[12] == '然' && SKIP_NEXT@[13] == '面' && SKIP_NEXT@[14] == '選'
            && SKIP_NEXT@[15] == '權' && SKIP_NEXT@[16] == '代');
    }
}

/// Both halves of a pair of connectives in one sentence, no farther apart than
/// the pair may be, are reported outside the formal register: from the first
/// place of the opening half to the end of the closing half. In the formal
/// register nothing is.
pub proof fn law_paired_connectives_are_reported(
    t: Seq<char>,
    ex: Seq<ByteRange>,
    register: Register,
    k: int,
    open: Seq<char>,
    close: Seq<char>,
    most: int,
    p: int,
    q: int,
)
    requires
        connective_pair(k, open, close, most),
        reads(t, p, open),
        absent(t, open, 0, p),
        k == 2 ==> t[p + 1] == '我' && p + 1 < t.len(),
        p + open.len() <= q <= p + open.len() + most,
        reads(t, q, close),
        absent(t, close, p + open.len(), q),
        forall|r: int| p + open.len() <= r < q + close.len() ==> !ends_sentence(#[trigger] t[r]),
        untouched(t, ex, p, q + close.len()),
    ensures
        register != Register::Formal ==> calque_reported(
            connective_findings(t, ex, register),
            byte_pos(t, p),
            byte_pos(t, q + close.len()),
            Some((PhaseFamily::Connective, PhasePass::Lexical)),
        ),
        register == Register::Formal ==> connective_findings(t, ex, register).len() == 0,
{
    lemma_connective_words(k, open, close, most);
    let n = t.len() as int;
    let after = p + open.len();
    let end = q + close.len();
    assert(t[p + 0] == open[0]);
    lemma_no_other_word(t, p, n);
    lemma_window_reaches(t, after, most + close.len(), end);
    let far = sentence_window(t, after, most + close.len(), n);
    lemma_first_read(t, close, after, far, q);
    lemma_untouched(t, ex, p, end, p, end);
    lemma_first_read(t, open, 0, n, p);
    let entry = CONNECTIVES@[k];
    let step = connective_step(t, ex, entry);
    lemma_walk_first(t, open, 0, n, step, p);
    let m = step(p).1[0];
    assert(step(p).1.contains(m));
    let f = connective_rule(t, ex);
    assert(f(k) == walk(t, open, 0, n, step));
    lemma_each_contains(4, f, k, m);
    lemma_held_reported(each(4, f), m);
}

/// Within a sentence both halves are reported with the span without the half to
/// drop as the suggestion: 因為 and 雖然 go, and 的時候 and 那麼.
pub proof fn law_sentence_connectives_are_reported(
    t: Seq<char>,
    ex: Seq<ByteRange>,
    sentences: Seq<Bound>,
    j: int,
    k: int,
    open: Seq<char>,
    close: Seq<char>,
    most: int,
    p: int,
    q: int,
)
    requires
        0 <= j < sentences.len(),
        sentences[j].start <= p,
        sentences[j].end <= t.len(),
        connective_pair(k, open, close, most),
        reads(t, p, open),
        absent(t, open, sentences[j].start as int, p),
        k == 2 ==> t[p + 1] == '我' && p + 1 < sentences[j].end,
        p + open.len() <= q <= p + open.len() + most,
        q + close.len() <= sentences[j].end,
        reads(t, q, close),
        absent(t, close, p + open.len(), q),
        untouched(t, ex, p, q + close.len()),
    ensures
        suggested(
            each(sentences.len() as int, bounded_rule(t, ex, sentences)),
            byte_pos(t, p),
            byte_pos(t, q + close.len()),
            seq![
                if k < 2 {
                    t.subrange(p + open.len(), q + close.len())
                } else {
                    t.subrange(p, q)
                },
            ],
        ),
        calque_reported(
            each(sentences.len() as int, bounded_rule(t, ex, sentences)),
            byte_pos(t, p),
            byte_pos(t, q + close.len()),
            Some((PhaseFamily::Connective, PhasePass::Indexed)),
        ),
{
    lemma_connective_words(k, open, close, most);
    let (from, to) = (sentences[j].start as int, sentences[j].end as int);
    let after = p + open.len();
    let end = q + close.len();
    assert(t[p + 0] == open[0]);
    lemma_no_other_word(t, p, to);
    let far = least(after + most + close.len(), to);
    lemma_first_read(t, close, after, far, q);
    lemma_untouched(t, ex, p, end, p, end);
    lemma_first_read(t, open, from, to, p);
    let step = bounded_step(t, ex, to, SENTENCE_CONNECTIVES@[k]);
    lemma_walk_first(t, open, from, to, step, p);
    let m = step(p).1[0];
    assert(step(p).1.contains(m));
    let f = bounded_pairs(t, ex, from, to);
    assert(f(k) == walk(t, open, from, to, step));
    lemma_each_contains(4, f, k, m);
    let g = bounded_rule(t, ex, sentences);
    assert(g(j) == each(4, f));
    lemma_each_contains(sentences.len() as int, g, j, m);
    lemma_held_reported(each(sentences.len() as int, g), m);
}

/// A paragraph of one hundred to two hundred characters with 之一 in two places is
/// reported on the first, where the domain allows fewer than two per two hundred
/// characters or exactly two.
pub proof fn law_dense_yi_zhi_is_reported(
    t: Seq<char>,
    ex: Seq<ByteRange>,
    paragraphs: Seq<Paragraph>,
    domain: Domain,
    k: int,
    p: int,
    q: int,
)
    requires
        0 <= k < paragraphs.len(),
        paragraphs[k].start <= p,
        p + 2 <= q,
        q + 2 <= paragraphs[k].end <= t.len(),
        100 <= paragraphs[k].end - paragraphs[k].start <= 200,
        domain.yi_zhi_tenths <= 20,
        reads(t, p, seq!['之', '一']),
        absent(t, seq!['之', '一'], paragraphs[k].start as int, p),
        reads(t, q, seq!['之', '一']),
        absent(t, seq!['之', '一'], p + 2, q),
        untouched(t, ex, p, q + 2),
    ensures
        calque_reported(
            each(paragraphs.len() as int, yi_zhi_rule(t, ex, paragraphs, domain)),
            byte_pos(t, p),
            byte_pos(t, p + 2),
            Some((PhaseFamily::YiZhi, PhasePass::Indexed)),
        ),
{
    reveal_strlit("之一");
    let x = seq!['之', '一'];
    assert("之一"@ =~= x);
    let (from, to) = (paragraphs[k].start as int, paragraphs[k].end as int);
    lemma_untouched(t, ex, p, q + 2, p, p + 2);
    lemma_untouched(t, ex, p, q + 2, q, q + 2);
    lemma_hits_first(t, ex, x, from, to, p);
    lemma_hits_first(t, ex, x, p + 2, to, q);
    let found = hits(t, ex, "之一"@, from, to);
    assert(found.len() >= 2 && found[0] == p);
    assert(2000 * found.len() >= domain.yi_zhi_tenths * (to - from)) by (nonlinear_arith)
        requires
            found.len() >= 2,
            0 <= domain.yi_zhi_tenths <= 20,
            0 <= to - from <= 200,
    ;
    let f = yi_zhi_rule(t, ex, paragraphs, domain);
    let m = f(k)[0];
    assert(f(k).contains(m));
    lemma_each_contains(paragraphs.len() as int, f, k, m);
    lemma_held_reported(each(paragraphs.len() as int, f), m);
}

/// The lexical and the indexed findings overlap no excluded range.
pub proof fn law_calques_leave_excluded_text_alone(
    t: Seq<char>,
    ex: Seq<ByteRange>,
    register: Register,
    sentences: Seq<Bound>,
    paragraphs: Seq<Paragraph>,
    domain: Domain,
)
    requires
        forall|k: int|
            0 <= k < sentences.len() ==> (#[trigger] sentences[k]).start <= sentences[k].end
                <= t.len(),
        forall|k: int|
            0 <= k < paragraphs.len() ==> (#[trigger] paragraphs[k]).start <= paragraphs[k].end
                <= t.len(),
    ensures
        all_are(each(2, superlative_rule(t, ex)), clear_of(ex)),
        all_are(connective_findings(t, ex, register), clear_of(ex)),
        all_are(each(sentences.len() as int, bounded_rule(t, ex, sentences)), clear_of(ex)),
        all_are(
            each(paragraphs.len() as int, yi_zhi_rule(t, ex, paragraphs, domain)),
            clear_of(ex),
        ),
{
    let n = t.len() as int;
    let f = superlative_rule(t, ex);
    assert forall|k: int| 0 <= k < 2 implies all_are(#[trigger] f(k), clear_of(ex)) by {
        lemma_walk_are(
            t,
            SUPERLATIVES@[k]@,
            0,
            n,
            superlative_step(t, ex, SUPERLATIVES@[k]@),
            clear_of(ex),
        );
    }
    lemma_each_are(2, f, clear_of(ex));
    let g = connective_rule(t, ex);
    assert forall|k: int| 0 <= k < 4 implies all_are(#[trigger] g(k), clear_of(ex)) by {
        lemma_walk_are(
            t,
            CONNECTIVES@[k].0@,
            0,
            n,
            connective_step(t, ex, CONNECTIVES@[k]),
            clear_of(ex),
        );
    }
    lemma_each_are(4, g, clear_of(ex));
    let h = bounded_rule(t, ex, sentences);
    assert forall|j: int| 0 <= j < sentences.len() implies all_are(#[trigger] h(j), clear_of(ex)) by {
        let (from, to) = (sentences[j].start as int, sentences[j].end as int);
        let e = bounded_pairs(t, ex, from, to);
        assert forall|k: int| 0 <= k < 4 implies all_are(#[trigger] e(k), clear_of(ex)) by {
            lemma_walk_are(
                t,
                SENTENCE_CONNECTIVES@[k].0@,
                from,
                to,
                bounded_step(t, ex, to, SENTENCE_CONNECTIVES@[k]),
                clear_of(ex),
            );
        }
        lemma_each_are(4, e, clear_of(ex));
        assert(h(j) == each(4, e));
    }
    lemma_each_are(sentences.len() as int, h, clear_of(ex));
    reveal_strlit("之一");
    let y = yi_zhi_rule(t, ex, paragraphs, domain);
    assert forall|k: int| 0 <= k < paragraphs.len() implies all_are(
        #[trigger] y(k),
        clear_of(ex),
    ) by {
        let (a, b) = (paragraphs[k].start as int, paragraphs[k].end as int);
        lemma_hits_are(t, ex, "之一"@, a, b);
        let found = hits(t, ex, "之一"@, a, b);
        if found.len() >= 2 {
            assert(!span_excluded(t, ex, found[0], found[0] + 2));
        }
    }
    lemma_each_are(paragraphs.len() as int, y, clear_of(ex));
}

/// An opening half whose closing half does not follow within as many characters as
/// the pair allows is not reported.
pub proof fn law_far_connectives_are_no_pair(
    t: Seq<char>,
    ex: Seq<ByteRange>,
    k: int,
    open: Seq<char>,
    close: Seq<char>,
    most: int,
    p: int,
)
    requires
        connective_pair(k, open, close, most),
        reads(t, p, open),
        absent(t, close, p + open.len(), p + open.len() + most + 1),
    ensures
        connective_step(t, ex, CONNECTIVES@[k])(p).1.len() == 0,
{
    lemma_connective_words(k, open, close, most);
    let n = t.len() as int;
    let after = p + open.len();
    let far = sentence_window(t, after, most + close.len(), n);
    lemma_window_reaches(t, after, most + close.len(), after);
    lemma_find_in(t, close, after, far);
    if let Some(q) = find_in(t, close, after, far) {
        lemma_reads(t, q, close);
        assert(!reads(t, q, close));
    }
}

/// A sentence that ends between the halves parts them.
pub proof fn law_connectives_stay_in_their_sentence(
    t: Seq<char>,
    ex: Seq<ByteRange>,
    k: int,
    open: Seq<char>,
    close: Seq<char>,
    most: int,
    p: int,
    e: int,
)
    requires
        connective_pair(k, open, close, most),
        reads(t, p, open),
        p + open.len() <= e < t.len(),
        ends_sentence(t[e]),
        absent(t, close, p + open.len(), e),
    ensures
        connective_step(t, ex, CONNECTIVES@[k])(p).1.len() == 0,
{
    lemma_connective_words(k, open, close, most);
    let n = t.len() as int;
    let after = p + open.len();
    let w = most + close.len();
    let far = sentence_window(t, after, w, n);
    lemma_window_reaches(t, after, w, after);
    if e <= least(after + w, n) {
        lemma_next_stops(t, after, least(after + w, n), e);
    }
    lemma_find_in(t, close, after, far);
    if let Some(q) = find_in(t, close, after, far) {
        lemma_reads(t, q, close);
        assert(!reads(t, q, close));
    }
}

} // verus!
