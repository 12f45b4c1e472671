//! The lexical pass.
use vstd::prelude::*;
use vstd::string::*;
use vstd::utf8::*;

use crate::absorb::patterns;
use crate::automaton::{
    bytewise_find, charwise_find, law_matches_are_determined, leftmost_hit, leftmost_longest,
    pattern_at, resumed_at, Hit,
};
use crate::bytes::{lemma_bytes_to_chars, lemma_chars_to_bytes};
use crate::clues::{
    all_hold, build_clue_index_into, by_offset, clue_hits, first_from, first_listed, held, indexed,
};
use crate::database::{
    has_superstring, ids_or_none, law_flags_match_the_rule, lemma_database, positional_of,
    CompiledSpellingDb,
};
use crate::emit::{span_excluded, ByteRange, Emitter};
use crate::issue::{models, Issue, IssueModel};
use crate::predicates::{
    all_placed, chain, clues_pass, covered, deferred, eval_predicates, extended_end,
    law_chain_decides, superstrings, ContextModel, MatchContext,
};
use crate::profile::ProfileConfig;
use crate::rules::{listed_or_none, ChineseType, PoliticalStance, RuleModel, RuleType};
use crate::text::{
    byte_pos, contains_in, count_where, floor_pos, lemma_byte_pos_monotone, occurs_at,
};
use crate::vocabulary::{lemma_vocabulary_bounded, vocabulary};
use crate::walk::each;
use crate::window::{context_span, law_window_stops};

verus! {

/// The profile hears rules of the type, and the stance this rule.
pub open spec fn heard(
    cfg: ProfileConfig,
    stance: PoliticalStance,
    zh_type: ChineseType,
    m: RuleModel,
) -> bool {
    match m.rule_type {
        RuleType::Variant => cfg.variant_normalization && !(zh_type is Simplified),
        RuleType::AiFiller => cfg.ai_filler_detection,
        RuleType::Translationese => cfg.translationese_detection,
        RuleType::PoliticalColoring => cfg.spelling && stance.allows(m.from),
        _ => cfg.spelling,
    }
}

/// The clue with the number begins within `a..b`, as far as the clues of the
/// database can be found at all.
pub open spec fn clue_found(db: &CompiledSpellingDb, t: Seq<char>, a: int, b: int, id: u16) -> bool {
    db.clues.clue_ac is Some && exists|q: int|
        a <= q < b && #[trigger] occurs_at(t, vocabulary(db.models())[id as int], q)
}

/// One of the clues begins within `a..b`.
pub open spec fn any_clue(
    db: &CompiledSpellingDb,
    t: Seq<char>,
    a: int,
    b: int,
    ids: Seq<u16>,
) -> bool {
    exists|k: int| 0 <= k < ids.len() && clue_found(db, t, a, b, #[trigger] ids[k])
}

/// A clue for the rule stands near the match, where the rule has clues, and
/// none against it does.
pub open spec fn clues_decide(
    db: &CompiledSpellingDb,
    t: Seq<char>,
    ex: Seq<ByteRange>,
    s: int,
    e: int,
    i: int,
) -> bool {
    let (a, b) = context_span(t, ex, s, e);
    let pos = ids_or_none(db.clues.pos_ids@[i]);
    let neg = ids_or_none(db.clues.neg_ids@[i]);
    (pos.len() == 0 || any_clue(db, t, a, b, pos)) && !any_clue(db, t, a, b, neg)
}

/// The `i`-th rule speaks of the match `s..e`.
pub open spec fn fires(
    db: &CompiledSpellingDb,
    t: Seq<char>,
    ex: Seq<ByteRange>,
    cfg: ProfileConfig,
    stance: PoliticalStance,
    zh_type: ChineseType,
    straddles: bool,
    i: int,
    s: int,
    e: int,
) -> bool {
    let m = db.models()[i];
    &&& heard(cfg, stance, zh_type, m)
    &&& !span_excluded(t, ex, s, e)
    &&& !covered(t, s, superstrings(m.to, m.from, m.to.len() as int))
    &&& !covered(t, s, all_placed(listed_or_none(m.exceptions), m.from))
    &&& clues_decide(db, t, ex, s, e, i)
    &&& !straddles
    &&& all_hold(t, ex, s, e, positional_of(m))
}

/// What the match with a pattern yields: a finding where the pattern is a
/// rule's phrase and the rule speaks; nothing where the pattern is an
/// absorber.
pub open spec fn match_findings(
    db: &CompiledSpellingDb,
    t: Seq<char>,
    ex: Seq<ByteRange>,
    cfg: ProfileConfig,
    stance: PoliticalStance,
    zh_type: ChineseType,
    straddles: bool,
    hit: Hit,
) -> Seq<IssueModel> {
    let i = hit.pattern as int;
    let (s, e) = (floor_pos(t, hit.start as int), floor_pos(t, hit.end as int));
    if i < db.models().len() && fires(
        db,
        t,
        ex,
        cfg,
        stance,
        zh_type,
        straddles,
        i,
        s,
        e,
    ) {
        let m = db.models()[i];
        let end = if m.deletes() {
            extended_end(t, ex, e)
        } else {
            e
        };
        seq![deferred(t, s, end, m.rule_type, m.weight(), i)]
    } else {
        Seq::empty()
    }
}

/// Whether the `k`-th match cuts a word; one that nothing is known of does
/// not.
pub open spec fn cut(straddles: Seq<bool>, k: int) -> bool {
    0 <= k < straddles.len() && straddles[k]
}

pub open spec fn spelling_rule(
    db: &CompiledSpellingDb,
    t: Seq<char>,
    ex: Seq<ByteRange>,
    cfg: ProfileConfig,
    stance: PoliticalStance,
    zh_type: ChineseType,
    hits: Seq<Hit>,
    straddles: Seq<bool>,
) -> spec_fn(int) -> Seq<IssueModel> {
    |k: int|
        match_findings(db, t, ex, cfg, stance, zh_type, cut(straddles, k), hits[k])
}

/// The matches of the database's patterns in the text. There are none where
/// no automaton could be built.
pub open spec fn spelling_matches(db: &CompiledSpellingDb, t: Seq<char>, hits: Seq<Hit>) -> bool {
    if db.automata.ac_charwise is Some || db.automata.ac_bytewise is Some {
        leftmost_longest(patterns(db.models()), encode_utf8(t), hits)
    } else {
        hits.len() == 0
    }
}

/// The matches are determined by the rules and the text, whichever automaton
/// finds them.
pub proof fn law_spelling_matches_are_determined(
    db: &CompiledSpellingDb,
    t: Seq<char>,
    a: Seq<Hit>,
    b: Seq<Hit>,
)
    requires
        db.searchable(),
        spelling_matches(db, t, a),
        spelling_matches(db, t, b),
    ensures
        a == b,
{
    if db.automata.ac_charwise is Some || db.automata.ac_bytewise is Some {
        lemma_database(db);
        law_matches_are_determined(patterns(db.models()), encode_utf8(t), a, b);
    } else {
        assert(a =~= b);
    }
}

/// Databases of the same rules find the same matches, one with its charwise
/// automaton and the other with its bytewise one.
pub proof fn law_automata_agree(
    x: &CompiledSpellingDb,
    y: &CompiledSpellingDb,
    t: Seq<char>,
    a: Seq<Hit>,
    b: Seq<Hit>,
)
    requires
        x.searchable(),
        y.searchable(),
        x.models() == y.models(),
        x.automata.ac_charwise is Some || x.automata.ac_bytewise is Some,
        y.automata.ac_charwise is Some || y.automata.ac_bytewise is Some,
        spelling_matches(x, t, a),
        spelling_matches(y, t, b),
    ensures
        a == b,
{
    lemma_database(x);
    law_matches_are_determined(patterns(x.models()), encode_utf8(t), a, b);
}

/// Finds the phrases of the rules, and the absorbers, in a text.
pub fn spelling_hits(db: &CompiledSpellingDb, text: &str) -> (r: Vec<Hit>)
    requires
        db.searchable(),
    ensures
        spelling_matches(db, text@, r@),
{
    proof {
        lemma_database(db);
    }
    match &db.automata.ac_charwise {
        Some(ac) => charwise_find(ac, text),
        None => match &db.automata.ac_bytewise {
            Some(ac) => bytewise_find(ac, text),
            None => Vec::new(),
        },
    }
}

fn is_heard(
    cfg: &ProfileConfig,
    stance: &PoliticalStance,
    zh_type: ChineseType,
    rule_type: RuleType,
    from: &str,
    Ghost(m): Ghost<RuleModel>,
) -> (r: bool)
    requires
        m.rule_type == rule_type,
        m.from == from@,
    ensures
        r == heard(*cfg, *stance, zh_type, m),
{
    let simplified: bool = match zh_type {
        ChineseType::Simplified => true,
        _ => false,
    };
    match rule_type {
        RuleType::Variant => cfg.variant_normalization && !simplified,
        RuleType::AiFiller => cfg.ai_filler_detection,
        RuleType::Translationese => cfg.translationese_detection,
        RuleType::PoliticalColoring => cfg.spelling && stance.allows_rule(from),
        _ => cfg.spelling,
    }
}

proof fn lemma_first_from_splits(v: Seq<(usize, u16)>, b: int, n: int)
    requires
        by_offset(v),
        0 <= n <= v.len(),
    ensures
        0 <= first_from(v, b, n) <= n,
        forall|i: int| 0 <= i < first_from(v, b, n) ==> (#[trigger] v[i]).0 < b,
        forall|i: int| first_from(v, b, n) <= i < n ==> (#[trigger] v[i]).0 >= b,
    decreases n,
{
    if n > 0 && v[n - 1].0 >= b {
        lemma_first_from_splits(v, b, n - 1);
    } else if n > 0 {
        assert forall|i: int| 0 <= i < n implies (#[trigger] v[i]).0 < b by {
            if i < n - 1 {
                assert(v[i].0 <= v[n - 1].0);
            }
        }
    }
}

/// The index holds a number within a window exactly where the clue begins
/// there.
proof fn lemma_entry_is_clue(
    p: Seq<Seq<char>>,
    t: Seq<char>,
    v: Seq<(usize, u16)>,
    a: int,
    b: int,
    id: u16,
)
    requires
        by_offset(v),
        clue_hits(p, encode_utf8(t), v),
        0 <= a <= b <= t.len(),
        id < p.len(),
    ensures
        ({
            let n = v.len() as int;
            (exists|m: int|
                first_from(v, byte_pos(t, a), n) <= m < first_from(v, byte_pos(t, b), n) && (
                #[trigger] v[m]).1 == id) == (exists|q: int|
                a <= q < b && #[trigger] occurs_at(t, p[id as int], q))
        }),
{
    let n = v.len() as int;
    let h = encode_utf8(t);
    let (lo, hi) = (byte_pos(t, a), byte_pos(t, b));
    lemma_first_from_splits(v, lo, n);
    lemma_first_from_splits(v, hi, n);
    let (x, y) = (first_from(v, lo, n), first_from(v, hi, n));
    let needle = p[id as int];
    if exists|m: int| x <= m < y && (#[trigger] v[m]).1 == id {
        let m = choose|m: int| x <= m < y && (#[trigger] v[m]).1 == id;
        assert(v[m].0 >= lo);
        assert(v[m].0 < hi);
        if needle.len() > 0 {
            let q = lemma_bytes_to_chars(t, needle, v[m].0 as int);
            if q < a {
                lemma_byte_pos_monotone(t, q, a);
            }
            if q >= b {
                lemma_byte_pos_monotone(t, b, q);
            }
            assert(occurs_at(t, needle, q));
        } else {
            assert(t.subrange(a, a) =~= needle);
            assert(occurs_at(t, needle, a));
        }
    }
    if exists|q: int| a <= q < b && #[trigger] occurs_at(t, p[id as int], q) {
        let q = choose|q: int| a <= q < b && #[trigger] occurs_at(t, p[id as int], q);
        lemma_chars_to_bytes(t, p[id as int], q);
        lemma_byte_pos_monotone(t, a, q);
        lemma_byte_pos_monotone(t, q, b);
        assert(pattern_at(p, h, id as int, byte_pos(t, q)));
        let m = choose|m: int|
            0 <= m < v.len() && (#[trigger] v[m]).0 == byte_pos(t, q) && v[m].1 == id;
        if m < x {
            assert(v[m].0 < lo);
        }
        if m >= y {
            assert(v[m].0 >= hi);
        }
        assert(v[m].1 == id);
    }
}

proof fn lemma_first_listed(v: Seq<(usize, u16)>, ids: Seq<u16>, from: int, to: int)
    ensures
        from <= to ==> from <= first_listed(v, ids, from, to) <= to,
        (first_listed(v, ids, from, to) < to) == (exists|m: int|
            from <= m < to && ids.contains((#[trigger] v[m]).1)),
    decreases to - from,
{
    if from < to && !ids.contains(v[from].1) {
        lemma_first_listed(v, ids, from + 1, to);
        if exists|m: int| from <= m < to && ids.contains((#[trigger] v[m]).1) {
            let m = choose|m: int| from <= m < to && ids.contains((#[trigger] v[m]).1);
            assert(m != from);
            assert(ids.contains(v[m].1));
        }
        if exists|m: int| from + 1 <= m < to && ids.contains((#[trigger] v[m]).1) {
            let m = choose|m: int| from + 1 <= m < to && ids.contains((#[trigger] v[m]).1);
            assert(ids.contains(v[m].1));
        }
    } else if from < to {
        assert(ids.contains(v[from].1));
    }
}

proof fn lemma_count_some(n: int, f: spec_fn(int) -> bool)
    requires
        0 <= n,
    ensures
        (count_where(0, n, f) >= 1) == (exists|k: int| 0 <= k < n && #[trigger] f(k)),
    decreases n,
{
    if n > 0 {
        lemma_count_some(n - 1, f);
        if f(n - 1) {
            assert(f(n - 1));
        }
        if exists|k: int| 0 <= k < n - 1 && #[trigger] f(k) {
            let k = choose|k: int| 0 <= k < n - 1 && #[trigger] f(k);
            assert(f(k));
        }
        if exists|k: int| 0 <= k < n && #[trigger] f(k) {
            let k = choose|k: int| 0 <= k < n && #[trigger] f(k);
            assert(f(k));
        }
    }
}

/// `index` is the clue index of the text.
spec fn index_of(db: &CompiledSpellingDb, t: Seq<char>, index: Seq<(usize, u16)>) -> bool {
    by_offset(index) && (if db.clues.clue_ac is Some {
        clue_hits(vocabulary(db.models()), encode_utf8(t), index)
    } else {
        index.len() == 0
    })
}

proof fn lemma_held_is_found(
    db: &CompiledSpellingDb,
    t: Seq<char>,
    index: Seq<(usize, u16)>,
    a: int,
    b: int,
    id: u16,
)
    requires
        db.searchable(),
        index_of(db, t, index),
        0 <= a <= b <= t.len(),
        id < vocabulary(db.models()).len(),
    ensures
        ({
            let n = index.len() as int;
            (exists|m: int|
                first_from(index, byte_pos(t, a), n) <= m < first_from(index, byte_pos(t, b), n) && (
                #[trigger] index[m]).1 == id) == clue_found(db, t, a, b, id)
        }),
{
    if db.clues.clue_ac is Some {
        lemma_vocabulary_bounded(db.models());
        lemma_entry_is_clue(vocabulary(db.models()), t, index, a, b, id);
    }
}

/// The numbers of a rule's clues are those of clues.
proof fn lemma_ids_are_words(db: &CompiledSpellingDb, i: int)
    requires
        db.searchable(),
        0 <= i < db.models().len(),
    ensures
        forall|k: int|
            0 <= k < ids_or_none(db.clues.pos_ids@[i]).len() ==> (#[trigger] ids_or_none(
                db.clues.pos_ids@[i],
            )[k]) < vocabulary(db.models()).len(),
        forall|k: int|
            0 <= k < ids_or_none(db.clues.neg_ids@[i]).len() ==> (#[trigger] ids_or_none(
                db.clues.neg_ids@[i],
            )[k]) < vocabulary(db.models()).len(),
{
    let v = db.models();
    let words = vocabulary(v);
    lemma_vocabulary_bounded(v);
    let pos = ids_or_none(db.clues.pos_ids@[i]);
    let neg = ids_or_none(db.clues.neg_ids@[i]);
    assert(crate::vocabulary::numbered_clues(
        words,
        v[i].context_clues,
        crate::vocabulary::opt_ids(db.clues.pos_ids@[i]),
    ));
    assert(crate::vocabulary::numbered_clues(
        words,
        v[i].negative_context_clues,
        crate::vocabulary::opt_ids(db.clues.neg_ids@[i]),
    ));
    assert forall|k: int| 0 <= k < pos.len() implies (#[trigger] pos[k]) < words.len() by {
        assert(pos.contains(pos[k]));
        lemma_numbers_bounded(words, v[i].context_clues, pos[k]);
    }
    assert forall|k: int| 0 <= k < neg.len() implies (#[trigger] neg[k]) < words.len() by {
        assert(neg.contains(neg[k]));
        lemma_numbers_bounded(words, v[i].negative_context_clues, neg[k]);
    }
}

proof fn lemma_numbers_bounded(
    words: Seq<Seq<char>>,
    clues: Option<Seq<Seq<char>>>,
    id: u16,
)
    requires
        words.len() <= crate::vocabulary::VOCABULARY_LIMIT,
        crate::vocabulary::numbers(words, clues).contains(id),
    ensures
        id < words.len(),
{
    let list = listed_or_none(clues);
    let all = crate::vocabulary::numbers_of(words, list, list.len() as int);
    let some = crate::vocabulary::numbers(words, clues);
    let k = choose|k: int| 0 <= k < some.len() && some[k] == id;
    assert(all[k] == id);
    lemma_number_bounded(words, list, list.len() as int, k);
}

proof fn lemma_number_bounded(words: Seq<Seq<char>>, clues: Seq<Seq<char>>, n: int, k: int)
    requires
        words.len() <= crate::vocabulary::VOCABULARY_LIMIT,
        0 <= k < crate::vocabulary::numbers_of(words, clues, n).len(),
    ensures
        crate::vocabulary::numbers_of(words, clues, n)[k] < words.len(),
    decreases n,
{
    let before = crate::vocabulary::numbers_of(words, clues, n - 1);
    if k < before.len() {
        lemma_number_bounded(words, clues, n - 1, k);
    } else {
        let p = crate::vocabulary::place_in(words, clues[n - 1]);
        assert(words.contains(clues[n - 1]));
        assert(0 <= p < words.len());
    }
}

/// What the index decides is what the text decides.
proof fn lemma_clues_decide(
    db: &CompiledSpellingDb,
    ctx: ContextModel,
    i: int,
)
    requires
        db.searchable(),
        0 <= i < db.models().len(),
        index_of(db, ctx.t, ctx.index),
        0 <= ctx.start <= ctx.end <= ctx.t.len(),
    ensures
        ({
            let pos = ids_or_none(db.clues.pos_ids@[i]);
            let neg = ids_or_none(db.clues.neg_ids@[i]);
            clues_pass(
                ctx,
                pos,
                neg,
                if pos.len() == 0 {
                    0
                } else {
                    1
                },
                ctx.end,
            ) == clues_decide(db, ctx.t, ctx.ex, ctx.start, ctx.end, i)
        }),
{
    let t = ctx.t;
    let pos = ids_or_none(db.clues.pos_ids@[i]);
    let neg = ids_or_none(db.clues.neg_ids@[i]);
    let (a, b) = context_span(t, ctx.ex, ctx.start, ctx.end);
    law_window_stops(t, ctx.ex, ctx.start, ctx.end);
    lemma_ids_are_words(db, i);
    let v = ctx.index;
    let n = v.len() as int;
    let (x, y) = (first_from(v, byte_pos(t, a), n), first_from(v, byte_pos(t, b), n));
    lemma_first_listed(v, neg, x, y);
    let against = exists|m: int| x <= m < y && neg.contains((#[trigger] v[m]).1);
    assert(against == any_clue(db, t, a, b, neg)) by {
        if against {
            let m = choose|m: int| x <= m < y && neg.contains((#[trigger] v[m]).1);
            let k = choose|k: int| 0 <= k < neg.len() && neg[k] == v[m].1;
            lemma_held_is_found(db, t, v, a, b, neg[k]);
            assert(v[m].1 == neg[k]);
            assert(clue_found(db, t, a, b, neg[k]));
        }
        if any_clue(db, t, a, b, neg) {
            let k = choose|k: int|
                0 <= k < neg.len() && clue_found(db, t, a, b, #[trigger] neg[k]);
            lemma_held_is_found(db, t, v, a, b, neg[k]);
            let m = choose|m: int| x <= m < y && (#[trigger] v[m]).1 == neg[k];
            assert(neg.contains(v[m].1)) by {
                assert(neg[k] == v[m].1);
            }
        }
    }
    if !against {
        let f = held(v, pos, x, y);
        lemma_count_some(pos.len() as int, f);
        if exists|k: int| 0 <= k < pos.len() && #[trigger] f(k) {
            let k = choose|k: int| 0 <= k < pos.len() && #[trigger] f(k);
            lemma_held_is_found(db, t, v, a, b, pos[k]);
            assert(clue_found(db, t, a, b, pos[k]));
        }
        if any_clue(db, t, a, b, pos) {
            let k = choose|k: int|
                0 <= k < pos.len() && clue_found(db, t, a, b, #[trigger] pos[k]);
            lemma_held_is_found(db, t, v, a, b, pos[k]);
            assert(f(k));
        }
    }
}

/// No form in which the phrase does not stand can cover a match.
proof fn lemma_no_superstring(m: RuleModel, n: int)
    requires
        !has_superstring(m),
        0 <= n <= m.to.len(),
    ensures
        superstrings(m.to, m.from, n).len() == 0,
    decreases n,
{
    if n > 0 {
        lemma_no_superstring(m, n - 1);
        assert(!contains_in(m.to[n - 1], m.from, 0, m.to[n - 1].len() as int));
    }
}

/// A match passes the chain of its rule exactly where the rule speaks of it.
proof fn lemma_chain_fires(db: &CompiledSpellingDb, ctx: ContextModel, i: int)
    requires
        db.searchable(),
        0 <= i < db.models().len(),
        index_of(db, ctx.t, ctx.index),
        0 <= ctx.start <= ctx.end <= ctx.t.len(),
        heard(ctx.cfg, ctx.stance, ctx.zh_type, db.models()[i]),
    ensures
        chain(db.models()[i].from, ctx, db.chain(i), 0, ctx.end) == (if fires(
            db,
            ctx.t,
            ctx.ex,
            ctx.cfg,
            ctx.stance,
            ctx.zh_type,
            ctx.straddles,
            i,
            ctx.start,
            ctx.end,
        ) {
            Some(
                if db.models()[i].deletes() {
                    extended_end(ctx.t, ctx.ex, ctx.end)
                } else {
                    ctx.end
                },
            )
        } else {
            None
        }),
{
    let m = db.models()[i];
    let pos = ids_or_none(db.clues.pos_ids@[i]);
    let neg = ids_or_none(db.clues.neg_ids@[i]);
    law_chain_decides(m, db.flags(i), pos, neg, positional_of(m), ctx);
    law_flags_match_the_rule(
        m,
        db.clues.pos_ids@[i] is Some,
        db.clues.neg_ids@[i] is Some,
        db.rule_positional_clues@[i] is Some,
    );
    lemma_clues_decide(db, ctx, i);
    if !has_superstring(m) {
        lemma_no_superstring(m, m.to.len() as int);
    }
}

/// Takes one match through its rule.
fn evaluate(
    db: &CompiledSpellingDb,
    em: &Emitter<'_>,
    zh_type: ChineseType,
    cfg: &ProfileConfig,
    stance: &PoliticalStance,
    index: &Vec<(usize, u16)>,
    hit: Hit,
    straddles: bool,
) -> (r: Option<Issue>)
    requires
        db.searchable(),
        em.wf(),
        hit.start <= hit.end,
        index_of(db, em.chars(), index@),
    ensures
        ({
            let found = match_findings(
                db,
                em.chars(),
                em.ex(),
                *cfg,
                *stance,
                zh_type,
                straddles,
                hit,
            );
            match r {
                Some(issue) => found == seq![issue@],
                None => found == Seq::<IssueModel>::empty(),
            }
        }),
{
    if hit.pattern >= db.spelling_rules.len() {
        return None;
    }
    let i: usize = hit.pattern;
    let ghost m = db.models()[i as int];
    assert(db.compiled(i as int));
    assert(m == db.spelling_rules@[i as int]@);
    let from = db.spelling_rules[i].from.as_str();
    if !is_heard(cfg, stance, zh_type, db.rules[i].rule_type, from, Ghost(m)) {
        return None;
    }
    let s: usize = em.text.floor(hit.start);
    let e: usize = em.text.floor(hit.end);
    proof {
        if e < s {
            lemma_floor_order(em.chars(), hit.start as int, hit.end as int);
        }
    }
    let ctx = MatchContext {
        text: &em.text,
        excluded: em.excluded.as_slice(),
        cfg,
        stance,
        zh_type,
        start: s,
        end: e,
        clue_index: index.as_slice(),
        straddles,
    };
    proof {
        lemma_database(db);
        assert(sound_chain(db, i as int));
        lemma_chain_fires(db, ctx@, i as int);
    }
    eval_predicates(from, &db.rules[i], &ctx)
}

spec fn sound_chain(db: &CompiledSpellingDb, i: int) -> bool {
    crate::predicates::sound_ids(db.chain(i))
}

/// Rounding down keeps the order of offsets.
proof fn lemma_floor_order(t: Seq<char>, a: int, b: int)
    requires
        0 <= a <= b,
    ensures
        floor_pos(t, a) <= floor_pos(t, b),
{
    lemma_floor_from_order(t, a, b, t.len() as int);
}

proof fn lemma_floor_from_order(t: Seq<char>, a: int, b: int, i: int)
    requires
        0 <= a <= b,
    ensures
        crate::text::floor_from(t, a, i) <= crate::text::floor_from(t, b, i),
        i >= 0 ==> crate::text::floor_from(t, a, i) <= i,
    decreases i,
{
    if i > 0 {
        lemma_floor_from_order(t, a, b, i - 1);
    }
}

/// The lexical pass: takes every match of the rules' phrases through its rule.
/// `straddles` says of each match whether it cuts a word.
pub fn scan_spelling(
    db: &CompiledSpellingDb,
    em: &mut Emitter<'_>,
    zh_type: ChineseType,
    cfg: &ProfileConfig,
    stance: &PoliticalStance,
    clue_buf: &mut Vec<(usize, u16)>,
    hits: &Vec<Hit>,
    straddles: &[bool],
)
    requires
        db.searchable(),
        old(em).wf(),
        spelling_matches(db, old(em).chars(), hits@),
    ensures
        final(em).wf(),
        final(em).extends(
            old(em),
            each(
                hits@.len() as int,
                spelling_rule(
                    db,
                    old(em).chars(),
                    old(em).ex(),
                    *cfg,
                    *stance,
                    zh_type,
                    hits@,
                    straddles@,
                ),
            ),
        ),
{
    let ghost start = *em;
    let ghost t = em.chars();
    proof {
        lemma_vocabulary_bounded(db.models());
    }
    clue_buf.clear();
    build_clue_index_into(db.clues.clue_ac.as_ref(), em.text.source(), clue_buf);
    proof {
        lemma_fresh_index(db, t, clue_buf@);
    }
    let ghost f = spelling_rule(db, t, em.ex(), *cfg, *stance, zh_type, hits@, straddles@);
    let mut k: usize = 0;
    assert(em.out() =~= start.out() + each(0, f));
    while k < hits.len()
        invariant
            db.searchable(),
            em.wf(),
            t == start.chars(),
            index_of(db, t, clue_buf@),
            spelling_matches(db, t, hits@),
            f == spelling_rule(
                db,
                t,
                start.ex(),
                *cfg,
                *stance,
                zh_type,
                hits@,
                straddles@,
            ),
            k <= hits@.len(),
            em.extends(&start, each(k as int, f)),
        decreases hits@.len() - k,
    {
        let hit = hits[k];
        let straddling: bool = k < straddles.len() && straddles[k];
        assert(leftmost_hit(
            patterns(db.models()),
            encode_utf8(t),
            hits@[k as int],
            resumed_at(hits@, k as int),
        ));
        if let Some(issue) = evaluate(db, em, zh_type, cfg, stance, clue_buf, hit, straddling) {
            em.push(issue);
        }
        assert(em.out() =~= start.out() + (each(k as int, f) + f(k as int)));
        k = k + 1;
    }
}

/// An index that was empty before it was built is that of the text.
proof fn lemma_fresh_index(db: &CompiledSpellingDb, t: Seq<char>, v: Seq<(usize, u16)>)
    requires
        db.searchable(),
        match db.clues.clue_ac {
            Some(ac) => indexed(
                vocabulary(db.models()),
                encode_utf8(t),
                Seq::empty(),
                v,
            ),
            None => v.len() == 0,
        },
    ensures
        index_of(db, t, v),
{
    if db.clues.clue_ac is Some {
        let p = vocabulary(db.models());
        let h = encode_utf8(t);
        let none = Seq::<(usize, u16)>::empty();
        let added = choose|added: Seq<(usize, u16)>| #[trigger]
            clue_hits(p, h, added) && v.to_multiset() == none.to_multiset().add(
                added.to_multiset(),
            );
        none.to_multiset_ensures();
        v.to_multiset_ensures();
        added.to_multiset_ensures();
        assert(v.to_multiset() =~= added.to_multiset());
        assert forall|x: (usize, u16)| v.contains(x) == #[trigger] added.contains(x) by {
            assert(v.to_multiset().count(x) == added.to_multiset().count(x));
        }
        assert forall|i: int| 0 <= i < v.len() implies pattern_at(
            p,
            h,
            (#[trigger] v[i]).1 as int,
            v[i].0 as int,
        ) by {
            assert(v.contains(v[i]));
            assert(added.contains(v[i]));
            let j = choose|j: int| 0 <= j < added.len() && added[j] == v[i];
            assert(pattern_at(p, h, added[j].1 as int, added[j].0 as int));
        }
        assert forall|k: int, b: int| #[trigger] pattern_at(p, h, k, b) implies exists|i: int|
            0 <= i < v.len() && (#[trigger] v[i]).0 == b && v[i].1 == k by {
            let j = choose|j: int|
                0 <= j < added.len() && (#[trigger] added[j]).0 == b && added[j].1 == k;
            assert(added.contains(added[j]));
            let i = choose|i: int| 0 <= i < v.len() && v[i] == added[j];
            assert(v[i].0 == b);
        }
    }
}

} // verus!
