//! Habits of machine-written prose: which texts show them, and which do not.
use vstd::prelude::*;

use crate::bounds::Bound;
use crate::emit::ByteRange;
use crate::grammar::ai_sentence::{
    parallel_openers, parallel_rule, PARALLEL_CLOSERS, PARALLEL_OPENERS,
};
use crate::issue::{IssueModel, StructuralFamily};
use crate::laws::reading::{
    absent, lemma_first_entry, lemma_first_read, lemma_reads, lemma_untouched, reads, untouched,
};
use crate::origin::clear_of;
use crate::text::{
    byte_pos, find_in, first_entry_in, least, lemma_byte_pos_monotone, lemma_find_in, occurs_at,
};
use crate::walk::{all_are, each, lemma_each_are, lemma_each_contains, style_reported};

verus! {

proof fn lemma_parallel_words()
    ensures
        PARALLEL_OPENERS@.len() == 3,
        PARALLEL_OPENERS@[0]@ =~= seq!['不', '只', '是'],
        PARALLEL_OPENERS@[1]@ =~= seq!['不', '僅', '是'],
        PARALLEL_OPENERS@[2]@ =~= seq!['不', '僅', '僅', '是'],
        PARALLEL_CLOSERS@.len() == 2,
        PARALLEL_CLOSERS@[0]@ =~= seq!['而', '是'],
        PARALLEL_CLOSERS@[1]@ =~= seq!['更', '是'],
{
    reveal_strlit("不只是");
    reveal_strlit("不僅是");
    reveal_strlit("不僅僅是");
    reveal_strlit("而是");
    reveal_strlit("更是");
}

/// Where a sentence holds 不只是, 不僅是 or 不僅僅是, for the first time at `p`,
/// with 而是 or 更是 within the thirty characters after it and no excluded range
/// in between, a negative parallel is reported that begins at `p`.
pub proof fn law_negative_parallels_are_reported(
    t: Seq<char>,
    ex: Seq<ByteRange>,
    sentences: Seq<Bound>,
    k: int,
    opener: Seq<char>,
    p: int,
    q: int,
)
    requires
        0 <= k < sentences.len(),
        sentences[k].start <= p,
        sentences[k].end <= t.len(),
        opener == seq!['不', '只', '是'] || opener == seq!['不', '僅', '是'] || opener == seq![
            '不',
            '僅',
            '僅',
            '是',
        ],
        reads(t, p, opener),
        forall|r: int| sentences[k].start <= r < p ==> !#[trigger] reads(t, r, opener),
        p + opener.len() <= q,
        q + 2 <= p + opener.len() + 30,
        q + 2 <= sentences[k].end,
        reads(t, q, seq!['而', '是']) || reads(t, q, seq!['更', '是']),
        untouched(t, ex, p, least(p + opener.len() + 30, sentences[k].end as int)),
    ensures
        style_reported(
            each(sentences.len() as int, parallel_rule(t, ex, sentences)),
            byte_pos(t, p),
            byte_pos(t, least(p + opener.len() + 30, sentences[k].end as int)),
            Some(StructuralFamily::NegativeParallel),
        ),
{
    lemma_parallel_words();
    let (from, to) = (sentences[k].start as int, sentences[k].end as int);
    let after = p + opener.len();
    let far = least(after + 30, to);
    let j: int = if opener == seq!['不', '只', '是'] {
        0
    } else if opener == seq!['不', '僅', '是'] {
        1
    } else {
        2
    };
    assert(PARALLEL_OPENERS@[j]@ == opener);
    lemma_find_in(t, opener, from, to);
    lemma_reads(t, p, opener);
    assert forall|r: int| from <= r < p implies !#[trigger] occurs_at(t, opener, r) by {
        lemma_reads(t, r, opener);
        assert(!reads(t, r, opener));
    }
    assert(find_in(t, opener, from, to) == Some(p));
    lemma_first_entry(t, PARALLEL_CLOSERS@, 0, after, far);
    lemma_reads(t, q, seq!['而', '是']);
    lemma_reads(t, q, seq!['更', '是']);
    assert(occurs_at(t, PARALLEL_CLOSERS@[0]@, q) || occurs_at(t, PARALLEL_CLOSERS@[1]@, q));
    let (c, e) = first_entry_in(t, PARALLEL_CLOSERS@, 0, after, far)->0;
    let end = e + PARALLEL_CLOSERS@[c]@.len();
    lemma_untouched(t, ex, p, far, p, end);
    lemma_byte_pos_monotone(t, end, far);
    let f = parallel_openers(t, ex, from, to);
    let m = f(j)[0];
    assert(f(j).contains(m));
    lemma_each_contains(3, f, j, m);
    let g = parallel_rule(t, ex, sentences);
    assert(g(k) == each(3, f));
    lemma_each_contains(sentences.len() as int, g, k, m);
    let v = each(sentences.len() as int, g);
    let x = choose|x: int| 0 <= x < v.len() && v[x] == m;
    assert(v[x].offset == byte_pos(t, p));
}

pub open spec fn negates_at(t: Seq<char>, p: int) -> bool {
    reads(t, p, seq!['不', '只', '是']) || reads(t, p, seq!['不', '僅', '是']) || reads(
        t,
        p,
        seq!['不', '僅', '僅', '是'],
    )
}

/// The finding begins where one of the openers stands.
pub open spec fn begins_with_negation(t: Seq<char>) -> spec_fn(IssueModel) -> bool {
    |m: IssueModel| exists|p: int| #[trigger] negates_at(t, p) && m.offset == byte_pos(t, p)
}

/// A negative parallel is reported only of text that is not excluded, and only
/// where its words stand: it begins with one of the openers.
pub proof fn law_negative_parallels_have_their_words(
    t: Seq<char>,
    ex: Seq<ByteRange>,
    sentences: Seq<Bound>,
)
    requires
        forall|k: int|
            0 <= k < sentences.len() ==> (#[trigger] sentences[k]).start <= sentences[k].end
                <= t.len(),
    ensures
        all_are(each(sentences.len() as int, parallel_rule(t, ex, sentences)), clear_of(ex)),
        all_are(
            each(sentences.len() as int, parallel_rule(t, ex, sentences)),
            begins_with_negation(t),
        ),
{
    lemma_parallel_words();
    let begins = begins_with_negation(t);
    let g = parallel_rule(t, ex, sentences);
    assert forall|k: int| 0 <= k < sentences.len() implies all_are(#[trigger] g(k), clear_of(ex))
        && all_are(g(k), begins) by {
        let (from, to) = (sentences[k].start as int, sentences[k].end as int);
        let f = parallel_openers(t, ex, from, to);
        assert forall|j: int| 0 <= j < 3 implies all_are(#[trigger] f(j), clear_of(ex)) && all_are(
            f(j),
            begins,
        ) by {
            lemma_find_in(t, PARALLEL_OPENERS@[j]@, from, to);
            if let Some(p) = find_in(t, PARALLEL_OPENERS@[j]@, from, to) {
                lemma_reads(t, p, PARALLEL_OPENERS@[j]@);
                assert(PARALLEL_OPENERS@[j]@ == seq!['不', '只', '是'] || PARALLEL_OPENERS@[j]@
                    == seq!['不', '僅', '是'] || PARALLEL_OPENERS@[j]@ == seq![
                    '不',
                    '僅',
                    '僅',
                    '是',
                ]);
                assert(negates_at(t, p));
            }
        }
        lemma_each_are(3, f, clear_of(ex));
        lemma_each_are(3, f, begins);
        assert(g(k) == each(3, f));
    }
    lemma_each_are(sentences.len() as int, g, clear_of(ex));
    lemma_each_are(sentences.len() as int, g, begins);
}

/// An opener with no closer within the thirty characters after it makes no
/// parallel.
pub proof fn law_far_halves_are_no_parallel(
    t: Seq<char>,
    ex: Seq<ByteRange>,
    from: int,
    to: int,
    j: int,
    p: int,
)
    requires
        0 <= from <= p,
        to <= t.len(),
        0 <= j < 3,
        p + PARALLEL_OPENERS@[j]@.len() <= to,
        reads(t, p, PARALLEL_OPENERS@[j]@),
        absent(t, PARALLEL_OPENERS@[j]@, from, p),
        absent(
            t,
            seq!['而', '是'],
            p + PARALLEL_OPENERS@[j]@.len(),
            least(p + PARALLEL_OPENERS@[j]@.len() + 30, to) - 1,
        ),
        absent(
            t,
            seq!['更', '是'],
            p + PARALLEL_OPENERS@[j]@.len(),
            least(p + PARALLEL_OPENERS@[j]@.len() + 30, to) - 1,
        ),
    ensures
        parallel_openers(t, ex, from, to)(j).len() == 0,
{
    lemma_parallel_words();
    let x = PARALLEL_OPENERS@[j]@;
    lemma_first_read(t, x, from, to, p);
    let after = p + x.len();
    let far = least(after + 30, to);
    lemma_first_entry(t, PARALLEL_CLOSERS@, 0, after, far);
    if let Some((c, q)) = first_entry_in(t, PARALLEL_CLOSERS@, 0, after, far) {
        let y = PARALLEL_CLOSERS@[c]@;
        lemma_reads(t, q, y);
        assert(y == seq!['而', '是'] || y == seq!['更', '是']);
        assert(!reads(t, q, seq!['而', '是']) && !reads(t, q, seq!['更', '是']));
    }
}

} // verus!
