//! Verbs made into nouns, false friends and heaps of modifiers.
use vstd::prelude::*;

use crate::bounds::Bound;
use crate::chars::CLAUSE_MARKS;
use crate::emit::ByteRange;
use crate::grammar::calque::{
    all_friend_hits, clause_end, clause_start, friend_findings, friend_hits, friend_rule, head_pair,
    next_head, nominal_clause, nominal_clauses, nominal_shape, same_clause, FALSE_FRIENDS,
    NOMINAL_HEADS,
};
use crate::grammar::indexed::{
    abstract_head_at, chain_rule, head_chain, next_abstract_head, ZY3B_ABSTRACT_HEADS,
};
use crate::issue::{IssueModel, PhaseFamily, PhasePass};
use crate::laws::reading::{
    absent, lemma_first_read, lemma_next_is, lemma_reads, lemma_untouched, reads, untouched,
};
use crate::text::{any_at, byte_pos, occurs_at};
use crate::walk::{calque_reported, each, lemma_each_contains};

verus! {

proof fn lemma_held_reported(v: Seq<IssueModel>, m: IssueModel)
    requires
        v.contains(m),
        m.rule_type is Translationese,
    ensures
        calque_reported(v, m.offset, m.offset + m.length, m.phase_family),
{
    let k = choose|k: int| 0 <= k < v.len() && v[k] == m;
    assert(v[k].offset == m.offset);
}

/// The character ends a clause.
pub open spec fn ends_clause(c: char) -> bool {
    c == '，' || c == '。' || c == '；' || c == ',' || c == '\n' || c == '！' || c == '？' || c == '!'
        || c == '?'
}

proof fn lemma_clause_marks(c: char)
    ensures
        CLAUSE_MARKS@.contains(c) == ends_clause(c),
{
    let m = CLAUSE_MARKS@;
    assert(m.len() == 9);
    assert(m[0] == '，' && m[1] == '。' && m[2] == '；' && m[3] == ',' && m[4] == '\n' && m[5] == '！'
        && m[6] == '？' && m[7] == '!' && m[8] == '?');
    if m.contains(c) {
        let i = choose|i: int| 0 <= i < m.len() && m[i] == c;
        assert(i == 0 || i == 1 || i == 2 || i == 3 || i == 4 || i == 5 || i == 6 || i == 7 || i
            == 8);
    }
}

/// The text is one clause.
pub open spec fn one_clause(t: Seq<char>) -> bool {
    forall|q: int| 0 <= q < t.len() ==> !ends_clause(#[trigger] t[q])
}

/// A nominalised verb that the table lists stands with its 的 at `i`.
pub open spec fn nominal_at(t: Seq<char>, i: int) -> bool {
    reads(t, i, seq!['的', '實', '施']) || reads(t, i, seq!['的', '分', '析']) || reads(
        t,
        i,
        seq!['的', '改', '善'],
    ) || reads(t, i, seq!['的', '提', '升'])
}

proof fn lemma_nominal(t: Seq<char>, i: int, to: int)
    requires
        nominal_at(t, i),
        i + 3 <= to,
    ensures
        any_at(t, NOMINAL_HEADS@, i, to),
{
    reveal_strlit("的實施");
    reveal_strlit("的分析");
    reveal_strlit("的改善");
    reveal_strlit("的提升");
    assert(NOMINAL_HEADS@[0]@ =~= seq!['的', '實', '施']);
    assert(NOMINAL_HEADS@[1]@ =~= seq!['的', '分', '析']);
    assert(NOMINAL_HEADS@[6]@ =~= seq!['的', '提', '升']);
    assert(NOMINAL_HEADS@[8]@ =~= seq!['的', '改', '善']);
    lemma_reads(t, i, seq!['的', '實', '施']);
    lemma_reads(t, i, seq!['的', '分', '析']);
    lemma_reads(t, i, seq!['的', '改', '善']);
    lemma_reads(t, i, seq!['的', '提', '升']);
    assert(occurs_at(t, NOMINAL_HEADS@[0]@, i) || occurs_at(t, NOMINAL_HEADS@[1]@, i) || occurs_at(
        t,
        NOMINAL_HEADS@[6]@,
        i,
    ) || occurs_at(t, NOMINAL_HEADS@[8]@, i));
}

proof fn lemma_heads_open_on_de(k: int)
    requires
        0 <= k < NOMINAL_HEADS@.len(),
    ensures
        NOMINAL_HEADS@[k]@.len() == 3,
        NOMINAL_HEADS@[k]@[0] == '的',
{
    reveal_strlit("的實施");
    reveal_strlit("的分析");
    reveal_strlit("的講解");
    reveal_strlit("的理解");
    reveal_strlit("的認識");
    reveal_strlit("的發現");
    reveal_strlit("的提升");
    reveal_strlit("的下降");
    reveal_strlit("的改善");
    assert(NOMINAL_HEADS@.len() == 9);
}

proof fn lemma_next_head(t: Seq<char>, from: int, to: int, a: int)
    requires
        0 <= from <= a < to <= t.len(),
        any_at(t, NOMINAL_HEADS@, a, to),
        forall|q: int| from <= q < a ==> #[trigger] t[q] != '的',
    ensures
        next_head(t, from, to) == a,
    decreases a - from,
{
    if from < a {
        assert(t[from] != '的');
        if any_at(t, NOMINAL_HEADS@, from, to) {
            let k = choose|k: int|
                0 <= k < NOMINAL_HEADS@.len() && #[trigger] occurs_at(t, NOMINAL_HEADS@[k]@, from)
                    && from + NOMINAL_HEADS@[k]@.len() <= to;
            lemma_heads_open_on_de(k);
            assert(t.subrange(from, from + 3)[0] == t[from]);
        }
        lemma_next_head(t, from + 1, to, a);
    }
}

/// Two nominalised verbs right behind each other, the first 的 of a text of one
/// clause, are reported as one span.
pub proof fn law_nominal_chains_are_reported(t: Seq<char>, ex: Seq<ByteRange>, a: int)
    requires
        one_clause(t),
        0 <= a,
        a + 6 <= t.len(),
        nominal_at(t, a),
        nominal_at(t, a + 3),
        forall|q: int| 0 <= q < a ==> #[trigger] t[q] != '的',
        untouched(t, ex, a, a + 6),
    ensures
        calque_reported(
            nominal_clauses(t, ex, 0),
            byte_pos(t, a),
            byte_pos(t, a + 6),
            Some((PhaseFamily::Nominalization, PhasePass::Lexical)),
        ),
{
    let n = t.len() as int;
    assert forall|r: int| 0 <= r < n implies !CLAUSE_MARKS@.contains(#[trigger] t[r]) by {
        lemma_clause_marks(t[r]);
    }
    lemma_next_is(t, CLAUSE_MARKS@, 0, n, n);
    lemma_nominal(t, a, n);
    lemma_nominal(t, a + 3, n);
    lemma_next_head(t, 0, n, a);
    lemma_inside(t, a);
    lemma_next_head(t, a + 1, n, a + 3);
    assert(head_pair(t, a, a + 3, n));
    assert(nominal_shape(t, 0, n) == Some((a, a + 6)));
    lemma_untouched(t, ex, a, a + 6, a, a + 6);
    let v = nominal_clauses(t, ex, 0);
    assert(v == nominal_clause(t, ex, 0, n));
    assert(v[0].offset == byte_pos(t, a));
}

proof fn lemma_inside(t: Seq<char>, a: int)
    requires
        nominal_at(t, a),
    ensures
        t[a + 1] != '的',
        t[a + 2] != '的',
{
    let (w, x, y, z) = (
        seq!['的', '實', '施'],
        seq!['的', '分', '析'],
        seq!['的', '改', '善'],
        seq!['的', '提', '升'],
    );
    if reads(t, a, w) {
        assert(t[a + 1] == w[1] && t[a + 2] == w[2]);
    } else if reads(t, a, x) {
        assert(t[a + 1] == x[1] && t[a + 2] == x[2]);
    } else if reads(t, a, y) {
        assert(t[a + 1] == y[1] && t[a + 2] == y[2]);
    } else {
        assert(t[a + 1] == z[1] && t[a + 2] == z[2]);
    }
}

/// The first place of a term is among its hits, and those among all hits.
pub proof fn lemma_friend_hit(t: Seq<char>, ex: Seq<ByteRange>, k: int, n: int, p: int)
    requires
        0 <= k < n <= FALSE_FRIENDS@.len(),
        FALSE_FRIENDS@[k].0@.len() > 0,
        reads(t, p, FALSE_FRIENDS@[k].0@),
        absent(t, FALSE_FRIENDS@[k].0@, 0, p),
        untouched(t, ex, p, p + FALSE_FRIENDS@[k].0@.len()),
    ensures
        all_friend_hits(t, ex, n).contains((p, k)),
    decreases n,
{
    let before = all_friend_hits(t, ex, n - 1);
    let own = friend_hits(t, ex, n - 1, 0);
    let now = all_friend_hits(t, ex, n);
    if k < n - 1 {
        lemma_friend_hit(t, ex, k, n - 1, p);
        let j = choose|j: int| 0 <= j < before.len() && before[j] == (p, k);
        assert(now[j] == (p, k));
    } else {
        let x = FALSE_FRIENDS@[k].0@;
        lemma_first_read(t, x, 0, t.len() as int, p);
        lemma_untouched(t, ex, p, p + x.len(), p, p + x.len());
        assert(own[0] == (p, k));
        assert(now[before.len() as int] == (p, k));
    }
}

/// Two different false friends in a text of one clause, 實際上 and 基本上, are both
/// reported where they stand for the first time; one alone is not.
pub proof fn law_false_friends_are_reported(t: Seq<char>, ex: Seq<ByteRange>, p: int, q: int)
    requires
        one_clause(t),
        reads(t, p, seq!['實', '際', '上']),
        absent(t, seq!['實', '際', '上'], 0, p),
        reads(t, q, seq!['基', '本', '上']),
        absent(t, seq!['基', '本', '上'], 0, q),
        untouched(t, ex, p, p + 3),
        untouched(t, ex, q, q + 3),
    ensures
        calque_reported(
            friend_findings(t, ex),
            byte_pos(t, p),
            byte_pos(t, p + 3),
            Some((PhaseFamily::FalseFriend, PhasePass::Lexical)),
        ),
        calque_reported(
            friend_findings(t, ex),
            byte_pos(t, q),
            byte_pos(t, q + 3),
            Some((PhaseFamily::FalseFriend, PhasePass::Lexical)),
        ),
{
    reveal_strlit("實際上");
    reveal_strlit("基本上");
    assert(FALSE_FRIENDS@.len() == 8);
    assert(FALSE_FRIENDS@[0].0@ =~= seq!['實', '際', '上']);
    assert(FALSE_FRIENDS@[2].0@ =~= seq!['基', '本', '上']);
    lemma_friend_hit(t, ex, 0, 8, p);
    lemma_friend_hit(t, ex, 2, 8, q);
    let hits = all_friend_hits(t, ex, 8);
    let h = choose|h: int| 0 <= h < hits.len() && hits[h] == (p, 0int);
    let o = choose|o: int| 0 <= o < hits.len() && hits[o] == (q, 2int);
    lemma_whole_clause(t, p);
    lemma_whole_clause(t, q);
    assert(same_clause(t, hits[o].0, p));
    assert(same_clause(t, hits[h].0, q));
    let f = friend_rule(t, ex, hits);
    let (m, n) = (f(h)[0], f(o)[0]);
    assert(f(h).contains(m));
    assert(f(o).contains(n));
    lemma_each_contains(hits.len() as int, f, h, m);
    lemma_each_contains(hits.len() as int, f, o, n);
    lemma_held_reported(each(hits.len() as int, f), m);
    lemma_held_reported(each(hits.len() as int, f), n);
}

proof fn lemma_whole_clause(t: Seq<char>, p: int)
    requires
        one_clause(t),
        0 <= p <= t.len(),
    ensures
        clause_start(t, p) == 0,
        clause_end(t, p) == t.len(),
    decreases p,
{
    let n = t.len() as int;
    assert forall|r: int| 0 <= r < n implies !CLAUSE_MARKS@.contains(#[trigger] t[r]) by {
        lemma_clause_marks(t[r]);
    }
    lemma_next_is(t, CLAUSE_MARKS@, p, n, n);
    if p > 0 {
        lemma_whole_clause(t, p - 1);
        assert(!CLAUSE_MARKS@.contains(t[p - 1]));
    }
}

/// An abstract noun that the table lists stands at `i`.
pub open spec fn abstract_noun_at(t: Seq<char>, i: int) -> bool {
    reads(t, i, seq!['實', '施']) || reads(t, i, seq!['分', '析']) || reads(t, i, seq!['提', '升'])
        || reads(t, i, seq!['評', '估'])
}

proof fn lemma_abstract(t: Seq<char>, i: int, to: int)
    requires
        abstract_noun_at(t, i),
        i + 2 <= to,
    ensures
        abstract_head_at(t, i, to),
{
    reveal_strlit("實施");
    reveal_strlit("分析");
    reveal_strlit("提升");
    reveal_strlit("評估");
    assert(ZY3B_ABSTRACT_HEADS@[0]@ =~= seq!['實', '施']);
    assert(ZY3B_ABSTRACT_HEADS@[1]@ =~= seq!['分', '析']);
    assert(ZY3B_ABSTRACT_HEADS@[6]@ =~= seq!['提', '升']);
    assert(ZY3B_ABSTRACT_HEADS@[9]@ =~= seq!['評', '估']);
    lemma_reads(t, i, seq!['實', '施']);
    lemma_reads(t, i, seq!['分', '析']);
    lemma_reads(t, i, seq!['提', '升']);
    lemma_reads(t, i, seq!['評', '估']);
    assert(occurs_at(t, ZY3B_ABSTRACT_HEADS@[0]@, i) || occurs_at(t, ZY3B_ABSTRACT_HEADS@[1]@, i)
        || occurs_at(t, ZY3B_ABSTRACT_HEADS@[6]@, i) || occurs_at(
        t,
        ZY3B_ABSTRACT_HEADS@[9]@,
        i,
    ));
}

/// Three abstract nouns on end with 的 between them, which open a sentence, are
/// reported as one chain where the domain allows fewer than three or exactly
/// three.
pub proof fn law_abstract_chains_are_reported(
    t: Seq<char>,
    ex: Seq<ByteRange>,
    sentences: Seq<Bound>,
    k: int,
    chain_min: int,
)
    requires
        0 <= k < sentences.len(),
        chain_min <= 3,
        sentences[k].start + 8 < sentences[k].end <= t.len(),
        ({
            let i = sentences[k].start as int;
            &&& abstract_noun_at(t, i) && abstract_noun_at(t, i + 3) && abstract_noun_at(t, i + 6)
            &&& t[i + 2] == '的' && t[i + 5] == '的' && t[i + 8] != '的'
            &&& untouched(t, ex, i, i + 8)
        }),
    ensures
        calque_reported(
            each(sentences.len() as int, chain_rule(t, ex, sentences, chain_min)),
            byte_pos(t, sentences[k].start as int),
            byte_pos(t, sentences[k].start + 8),
            Some((PhaseFamily::Nominalization, PhasePass::Indexed)),
        ),
{
    let (i, to) = (sentences[k].start as int, sentences[k].end as int);
    lemma_abstract(t, i, to);
    lemma_abstract(t, i + 3, to);
    lemma_abstract(t, i + 6, to);
    reveal_with_fuel(head_chain, 4);
    assert(head_chain(t, i + 6, to) == (1nat, i + 8));
    assert(head_chain(t, i + 3, to) == (2nat, i + 8));
    assert(head_chain(t, i, to) == (3nat, i + 8));
    assert(next_abstract_head(t, i, to) == i);
    lemma_untouched(t, ex, i, i + 8, i, i + 8);
    let f = chain_rule(t, ex, sentences, chain_min);
    let m = f(k)[0];
    assert(m.offset == byte_pos(t, i));
    assert(f(k).contains(m));
    lemma_each_contains(sentences.len() as int, f, k, m);
    lemma_held_reported(each(sentences.len() as int, f), m);
}

} // verus!
