//! Rules: which matches they speak of, and what they say.
use vstd::prelude::*;
use vstd::utf8::*;

use crate::automaton::{leftmost_hit, leftmost_longest, pattern_at, resumed_at, Hit};
use crate::database::{ids_or_none, positional_of, CompiledSpellingDb};
use crate::emit::{overlaps, span_excluded, ByteRange};
use crate::issue::{IssueModel, IssueType, Severity};
use crate::laws::reading::{lemma_reads, lemma_untouched, reads, untouched};
use crate::predicates::{all_placed, covered, occurrences, superstrings};
use crate::profile::ProfileConfig;
use crate::rules::{listed_or_none, ChineseType, PoliticalStance, RuleModel};
use crate::passes::spelling_findings;
use crate::spelling::{spelling_rule, any_clue, clue_found, clues_decide, fires, match_findings};
use crate::text::{byte_pos, contains_in, floor_pos, lemma_find_in, lemma_floor_bounds, occurs_at};
use crate::vocabulary::{
    law_every_clue_has_a_number, lemma_numbers_hold, lemma_numbers_source, lemma_vocabulary_bounded,
    numbers, numbers_of, opt_ids, place_in, vocabulary,
};
use crate::walk::lemma_each_contains;
use crate::window::{
    context_span, law_single_line_ends_do_not_narrow_the_window, law_window_before_a_match,
    law_window_behind_a_match,
};

verus! {

/// The rule asks for nothing but its phrase: no replacement holds the phrase, and
/// there are no exceptions and no clues tied to a side.
pub open spec fn plain_rule(m: RuleModel) -> bool {
    &&& m.rule_type is CrossStrait || m.rule_type is Confusable
    &&& m.exceptions is None
    &&& m.positional_clues is None
    &&& forall|k: int, p: int| 0 <= k < m.to.len() ==> !#[trigger] reads(m.to[k], p, m.from)
}

/// The match stands on the characters `s..e`.
pub open spec fn stands_on(t: Seq<char>, hit: Hit, s: int, e: int) -> bool {
    &&& 0 <= s <= e <= t.len()
    &&& hit.start == byte_pos(t, s)
    &&& hit.end == byte_pos(t, e)
}

proof fn lemma_stands_on(t: Seq<char>, hit: Hit, s: int, e: int)
    requires
        stands_on(t, hit, s, e),
    ensures
        floor_pos(t, hit.start as int) == s,
        floor_pos(t, hit.end as int) == e,
{
    lemma_floor_bounds(t, hit.start as int, s, s);
    lemma_floor_bounds(t, hit.end as int, e, e);
}

proof fn lemma_no_superstrings(to: Seq<Seq<char>>, from: Seq<char>, n: int)
    requires
        0 <= n <= to.len(),
        forall|k: int, p: int| 0 <= k < to.len() ==> !#[trigger] reads(to[k], p, from),
    ensures
        superstrings(to, from, n).len() == 0,
    decreases n,
{
    if n > 0 {
        lemma_no_superstrings(to, from, n - 1);
        lemma_find_in(to[n - 1], from, 0, to[n - 1].len() as int);
        if contains_in(to[n - 1], from, 0, to[n - 1].len() as int) {
            let p = crate::text::find_in(to[n - 1], from, 0, to[n - 1].len() as int)->0;
            lemma_reads(to[n - 1], p, from);
            assert(reads(to[n - 1], p, from));
        }
    }
}

/// A plain rule that is heard speaks of a match outside the excluded ranges that
/// cuts no word, as far as its clues let it.
proof fn lemma_plain_rule(
    db: &CompiledSpellingDb,
    t: Seq<char>,
    ex: Seq<ByteRange>,
    cfg: ProfileConfig,
    stance: PoliticalStance,
    zh_type: ChineseType,
    straddles: bool,
    i: int,
    s: int,
    e: int,
)
    requires
        0 <= i < db.models().len(),
        plain_rule(db.models()[i]),
        cfg.spelling,
    ensures
        fires(db, t, ex, cfg, stance, zh_type, straddles, i, s, e) == (!span_excluded(t, ex, s, e)
            && !straddles && clues_decide(db, t, ex, s, e, i)),
{
    let m = db.models()[i];
    lemma_no_superstrings(m.to, m.from, m.to.len() as int);
    assert(positional_of(m).len() == 0);
    assert(all_placed(listed_or_none(m.exceptions), m.from).len() == 0);
}

/// A rule without clues, exceptions or further conditions speaks of every match
/// of its phrase outside the excluded ranges that cuts no word: one finding, on
/// the characters of the match, that names the rule.
pub proof fn law_plain_rules_speak(
    db: &CompiledSpellingDb,
    t: Seq<char>,
    ex: Seq<ByteRange>,
    cfg: ProfileConfig,
    stance: PoliticalStance,
    zh_type: ChineseType,
    hit: Hit,
    s: int,
    e: int,
)
    requires
        db.searchable(),
        hit.pattern < db.models().len(),
        plain_rule(db.models()[hit.pattern as int]),
        db.models()[hit.pattern as int].context_clues is None,
        db.models()[hit.pattern as int].negative_context_clues is None,
        cfg.spelling,
        stands_on(t, hit, s, e),
        untouched(t, ex, s, e),
    ensures
        ({
            let v = match_findings(db, t, ex, cfg, stance, zh_type, false, hit);
            &&& v.len() == 1
            &&& v[0].offset == byte_pos(t, s)
            &&& v[0].offset + v[0].length == byte_pos(t, e)
            &&& v[0].spelling_rule_idx == Some(hit.pattern as int)
            &&& v[0].severity == (match db.models()[hit.pattern as int].severity {
                Some(s) => s,
                None => Severity::Warning,
            })
            &&& v[0].rule_type == (if db.models()[hit.pattern as int].rule_type is CrossStrait {
                IssueType::CrossStrait
            } else {
                IssueType::Confusable
            })
        }),
{
    let i = hit.pattern as int;
    lemma_stands_on(t, hit, s, e);
    lemma_untouched(t, ex, s, e, s, e);
    lemma_plain_rule(db, t, ex, cfg, stance, zh_type, false, i, s, e);
    lemma_no_ids(db, i);
}

proof fn lemma_no_ids(db: &CompiledSpellingDb, i: int)
    requires
        db.searchable(),
        0 <= i < db.models().len(),
    ensures
        db.models()[i].context_clues is None ==> ids_or_none(db.clues.pos_ids@[i]).len() == 0,
        db.models()[i].negative_context_clues is None ==> ids_or_none(
            db.clues.neg_ids@[i],
        ).len() == 0,
{
    let v = db.models();
    assert(db.clues.of(v));
    assert(opt_ids(db.clues.pos_ids@[i]) is Some ==> numbers(
        vocabulary(v),
        v[i].context_clues,
    ).len() > 0);
    assert(opt_ids(db.clues.neg_ids@[i]) is Some ==> numbers(
        vocabulary(v),
        v[i].negative_context_clues,
    ).len() > 0);
}

/// The numbers of a rule's clues are those of the words in its list.
proof fn lemma_ids_are_words(db: &CompiledSpellingDb, i: int)
    requires
        db.searchable(),
        0 <= i < db.models().len(),
    ensures
        ({
            let v = db.models();
            let words = vocabulary(v);
            &&& forall|k: int|
                0 <= k < ids_or_none(db.clues.pos_ids@[i]).len() ==> listed_or_none(
                    v[i].context_clues,
                ).contains(words[(#[trigger] ids_or_none(db.clues.pos_ids@[i])[k]) as int])
            &&& forall|k: int|
                0 <= k < ids_or_none(db.clues.neg_ids@[i]).len() ==> listed_or_none(
                    v[i].negative_context_clues,
                ).contains(words[(#[trigger] ids_or_none(db.clues.neg_ids@[i])[k]) as int])
        }),
{
    let v = db.models();
    let words = vocabulary(v);
    assert(db.clues.of(v));
    lemma_vocabulary_bounded(v);
    let pos = ids_or_none(db.clues.pos_ids@[i]);
    let neg = ids_or_none(db.clues.neg_ids@[i]);
    assert(opt_ids(db.clues.pos_ids@[i]) is Some == (db.clues.pos_ids@[i] is Some));
    assert(opt_ids(db.clues.neg_ids@[i]) is Some == (db.clues.neg_ids@[i] is Some));
    assert forall|k: int| 0 <= k < pos.len() implies listed_or_none(v[i].context_clues).contains(
        words[(#[trigger] pos[k]) as int],
    ) by {
        assert(pos.contains(pos[k]));
        lemma_numbers_listed(words, v[i].context_clues, pos[k]);
    }
    assert forall|k: int| 0 <= k < neg.len() implies listed_or_none(
        v[i].negative_context_clues,
    ).contains(words[(#[trigger] neg[k]) as int]) by {
        assert(neg.contains(neg[k]));
        lemma_numbers_listed(words, v[i].negative_context_clues, neg[k]);
    }
}

proof fn lemma_numbers_listed(words: Seq<Seq<char>>, clues: Option<Seq<Seq<char>>>, id: u16)
    requires
        numbers(words, clues).contains(id),
        words.len() <= 65536,
    ensures
        listed_or_none(clues).contains(words[id as int]),
{
    let list = listed_or_none(clues);
    let all = numbers_of(words, list, list.len() as int);
    let some = numbers(words, clues);
    let j = choose|j: int| 0 <= j < some.len() && some[j] == id;
    assert(all[j] == id);
    lemma_numbers_source(words, list, list.len() as int, id);
}

/// A clue that stands in the window is found.
proof fn lemma_clue_in_window(
    db: &CompiledSpellingDb,
    t: Seq<char>,
    i: int,
    clue: Seq<char>,
    a: int,
    b: int,
    q: int,
    pos: bool,
)
    requires
        db.searchable(),
        0 <= i < db.models().len(),
        db.clues.clue_ac is Some,
        vocabulary(db.models()).len() < 65536,
        ({
            let list = if pos {
                db.models()[i].context_clues
            } else {
                db.models()[i].negative_context_clues
            };
            list matches Some(c) && c.contains(clue) && c.len() <= 32
        }),
        reads(t, q, clue),
        a <= q < b,
    ensures
        any_clue(
            db,
            t,
            a,
            b,
            ids_or_none(
                if pos {
                    db.clues.pos_ids@[i]
                } else {
                    db.clues.neg_ids@[i]
                },
            ),
        ),
{
    let v = db.models();
    let words = vocabulary(v);
    assert(db.clues.of(v));
    law_every_clue_has_a_number(v, i, clue);
    let given = if pos {
        v[i].context_clues
    } else {
        v[i].negative_context_clues
    };
    let list = listed_or_none(given);
    let k = choose|k: int| 0 <= k < list.len() && list[k] == clue;
    lemma_numbers_hold(words, list, list.len() as int, k);
    let id = place_in(words, clue) as u16;
    let all = numbers_of(words, list, list.len() as int);
    assert(numbers(words, given) == all);
    let place = place_in(words, clue);
    assert(words[place] == clue);
    let kept = if pos {
        db.clues.pos_ids@[i]
    } else {
        db.clues.neg_ids@[i]
    };
    let ids = ids_or_none(kept);
    assert(opt_ids(kept) is Some);
    assert(ids.contains(id));
    let j = choose|j: int| 0 <= j < ids.len() && ids[j] == id;
    lemma_reads(t, q, clue);
    assert(occurs_at(t, words[id as int], q));
    assert(clue_found(db, t, a, b, ids[j]));
}

/// A rule that goes by clues speaks where one of them stands within forty
/// characters of the match, on the same line or on another of the same
/// paragraph, and none that speaks against it is there.
pub proof fn law_a_clue_nearby_lets_a_rule_speak(
    db: &CompiledSpellingDb,
    t: Seq<char>,
    cfg: ProfileConfig,
    stance: PoliticalStance,
    zh_type: ChineseType,
    hit: Hit,
    s: int,
    e: int,
    clue: Seq<char>,
    q: int,
)
    requires
        db.searchable(),
        db.clues.clue_ac is Some,
        vocabulary(db.models()).len() < 65536,
        hit.pattern < db.models().len(),
        plain_rule(db.models()[hit.pattern as int]),
        db.models()[hit.pattern as int].negative_context_clues is None,
        db.models()[hit.pattern as int].context_clues matches Some(c) && c.contains(clue)
            && c.len() <= 32,
        cfg.spelling,
        stands_on(t, hit, s, e),
        reads(t, q, clue),
        s - 40 <= q < e + 40,
        q < t.len(),
        forall|r: int|
            0 <= r && s - 43 <= r < e + 40 && r + 1 < t.len() && #[trigger] t[r] == '\n' ==> t[r + 1]
                != '\n' && t[r + 1] != '\r',
    ensures
        ({
            let v = match_findings(db, t, Seq::empty(), cfg, stance, zh_type, false, hit);
            &&& v.len() == 1
            &&& v[0].offset == byte_pos(t, s)
            &&& v[0].offset + v[0].length == byte_pos(t, e)
            &&& v[0].spelling_rule_idx == Some(hit.pattern as int)
        }),
{
    let ex = Seq::<ByteRange>::empty();
    let i = hit.pattern as int;
    lemma_stands_on(t, hit, s, e);
    assert(!span_excluded(t, ex, s, e));
    lemma_plain_rule(db, t, ex, cfg, stance, zh_type, false, i, s, e);
    lemma_no_ids(db, i);
    law_single_line_ends_do_not_narrow_the_window(t, s, e);
    let (a, b) = context_span(t, ex, s, e);
    lemma_clue_in_window(db, t, i, clue, a, b, q, true);
}

/// A rule that goes by clues is silent where none of them begins within forty
/// characters of the match, whatever else is there.
pub proof fn law_without_a_clue_nearby_a_rule_is_silent(
    db: &CompiledSpellingDb,
    t: Seq<char>,
    ex: Seq<ByteRange>,
    cfg: ProfileConfig,
    stance: PoliticalStance,
    zh_type: ChineseType,
    straddles: bool,
    hit: Hit,
    s: int,
    e: int,
)
    requires
        db.searchable(),
        hit.pattern < db.models().len(),
        db.clues.pos_ids@[hit.pattern as int] is Some,
        stands_on(t, hit, s, e),
        db.models()[hit.pattern as int].context_clues matches Some(c) && forall|k: int, q: int|
            0 <= k < c.len() && s - 40 <= q < e + 40 ==> !#[trigger] reads(t, q, c[k]),
    ensures
        match_findings(db, t, ex, cfg, stance, zh_type, straddles, hit).len() == 0,
{
    let i = hit.pattern as int;
    let v = db.models();
    lemma_stands_on(t, hit, s, e);
    lemma_ids_are_words(db, i);
    law_window_before_a_match(t, ex, s, e);
    law_window_behind_a_match(t, ex, s, e);
    let (a, b) = context_span(t, ex, s, e);
    let pos = ids_or_none(db.clues.pos_ids@[i]);
    assert(db.clues.of(v));
    assert(opt_ids(db.clues.pos_ids@[i]) is Some);
    assert(pos.len() > 0);
    let c = v[i].context_clues->0;
    if any_clue(db, t, a, b, pos) {
        let k = choose|k: int| 0 <= k < pos.len() && clue_found(db, t, a, b, #[trigger] pos[k]);
        let word = vocabulary(v)[pos[k] as int];
        let q = choose|q: int| a <= q < b && #[trigger] occurs_at(t, word, q);
        assert(c.contains(word));
        let n = choose|n: int| 0 <= n < c.len() && c[n] == word;
        lemma_reads(t, q, word);
        assert(reads(t, q, c[n]));
    }
}

/// A rule is silent where a clue that speaks against it stands within forty
/// characters of the match, in the same paragraph.
pub proof fn law_a_clue_against_silences_a_rule(
    db: &CompiledSpellingDb,
    t: Seq<char>,
    cfg: ProfileConfig,
    stance: PoliticalStance,
    zh_type: ChineseType,
    straddles: bool,
    hit: Hit,
    s: int,
    e: int,
    clue: Seq<char>,
    q: int,
)
    requires
        db.searchable(),
        db.clues.clue_ac is Some,
        vocabulary(db.models()).len() < 65536,
        hit.pattern < db.models().len(),
        db.models()[hit.pattern as int].negative_context_clues matches Some(c) && c.contains(clue)
            && c.len() <= 32,
        stands_on(t, hit, s, e),
        reads(t, q, clue),
        s - 40 <= q < e + 40,
        q < t.len(),
        forall|r: int|
            0 <= r && s - 43 <= r < e + 40 && r + 1 < t.len() && #[trigger] t[r] == '\n' ==> t[r + 1]
                != '\n' && t[r + 1] != '\r',
    ensures
        match_findings(db, t, Seq::empty(), cfg, stance, zh_type, straddles, hit).len() == 0,
{
    let i = hit.pattern as int;
    lemma_stands_on(t, hit, s, e);
    law_single_line_ends_do_not_narrow_the_window(t, s, e);
    let (a, b) = context_span(t, Seq::empty(), s, e);
    lemma_clue_in_window(db, t, i, clue, a, b, q, false);
}

/// A rule is silent where an exception of its own stands around the match: one
/// whose first occurrence of the phrase is the match.
pub proof fn law_exceptions_silence_a_rule(
    db: &CompiledSpellingDb,
    t: Seq<char>,
    ex: Seq<ByteRange>,
    cfg: ProfileConfig,
    stance: PoliticalStance,
    zh_type: ChineseType,
    straddles: bool,
    hit: Hit,
    s: int,
    e: int,
    form: Seq<char>,
    at: int,
)
    requires
        db.searchable(),
        hit.pattern < db.models().len(),
        stands_on(t, hit, s, e),
        db.models()[hit.pattern as int].exceptions matches Some(v) && v.contains(form),
        reads(form, at, db.models()[hit.pattern as int].from),
        forall|q: int|
            0 <= q < at ==> !#[trigger] reads(form, q, db.models()[hit.pattern as int].from),
        reads(t, s - at, form),
    ensures
        match_findings(db, t, ex, cfg, stance, zh_type, straddles, hit).len() == 0,
{
    let m = db.models()[hit.pattern as int];
    lemma_stands_on(t, hit, s, e);
    let v = m.exceptions->0;
    let k = choose|k: int| 0 <= k < v.len() && v[k] == form;
    let placed = all_placed(v, m.from);
    lemma_first_place(form, m.from, at);
    lemma_reads(t, s - at, form);
    assert(placed[k].0 == form);
    assert(placed[k].1[0] == at);
    assert(occurs_at(t, placed[k].0, s - placed[k].1[0]));
    assert(covered(t, s, placed));
}

proof fn lemma_first_place(form: Seq<char>, from: Seq<char>, at: int)
    requires
        reads(form, at, from),
        forall|q: int| 0 <= q < at ==> !#[trigger] reads(form, q, from),
    ensures
        occurrences(form, from, 0, form.len() as int).len() > 0,
        occurrences(form, from, 0, form.len() as int)[0] == at,
{
    lemma_find_in(form, from, 0, form.len() as int);
    lemma_reads(form, at, from);
    assert forall|q: int| 0 <= q < at implies !#[trigger] occurs_at(form, from, q) by {
        lemma_reads(form, q, from);
        assert(!reads(form, q, from));
    }
}

/// A rule is silent where the text already reads one of its own replacements
/// around the match.
pub proof fn law_a_replacement_in_place_silences_a_rule(
    db: &CompiledSpellingDb,
    t: Seq<char>,
    ex: Seq<ByteRange>,
    cfg: ProfileConfig,
    stance: PoliticalStance,
    zh_type: ChineseType,
    straddles: bool,
    hit: Hit,
    s: int,
    e: int,
    form: Seq<char>,
    at: int,
)
    requires
        db.searchable(),
        hit.pattern < db.models().len(),
        stands_on(t, hit, s, e),
        db.models()[hit.pattern as int].to.contains(form),
        reads(form, at, db.models()[hit.pattern as int].from),
        forall|q: int|
            0 <= q < at ==> !#[trigger] reads(form, q, db.models()[hit.pattern as int].from),
        reads(t, s - at, form),
    ensures
        match_findings(db, t, ex, cfg, stance, zh_type, straddles, hit).len() == 0,
{
    let m = db.models()[hit.pattern as int];
    lemma_stands_on(t, hit, s, e);
    lemma_first_place(form, m.from, at);
    lemma_reads(t, s - at, form);
    let k = choose|k: int| 0 <= k < m.to.len() && m.to[k] == form;
    let j = lemma_superstring_listed(m.to, m.from, m.to.len() as int, k, at);
    let forms = superstrings(m.to, m.from, m.to.len() as int);
    assert(occurs_at(t, forms[j].0, s - forms[j].1[0]));
    assert(covered(t, s, forms));
}

proof fn lemma_superstring_listed(
    to: Seq<Seq<char>>,
    from: Seq<char>,
    n: int,
    k: int,
    at: int,
) -> (j: int)
    requires
        0 <= k < n <= to.len(),
        reads(to[k], at, from),
        forall|q: int| 0 <= q < at ==> !#[trigger] reads(to[k], q, from),
    ensures
        0 <= j < superstrings(to, from, n).len(),
        superstrings(to, from, n)[j].0 == to[k],
        superstrings(to, from, n)[j].1.len() > 0,
        superstrings(to, from, n)[j].1[0] == at,
    decreases n,
{
    if k == n - 1 {
        lemma_first_place(to[k], from, at);
        lemma_find_in(to[k], from, 0, to[k].len() as int);
        lemma_reads(to[k], at, from);
        superstrings(to, from, n - 1).len() as int
    } else {
        lemma_superstring_listed(to, from, n - 1, k, at)
    }
}

/// Nothing is said of a match that an excluded range overlaps, of one that cuts a
/// word, of a variant where variants are off or the text is simplified, of filler
/// or translationese where those are off, or of what the stance silences.
pub proof fn law_what_silences_every_rule(
    db: &CompiledSpellingDb,
    t: Seq<char>,
    ex: Seq<ByteRange>,
    cfg: ProfileConfig,
    stance: PoliticalStance,
    zh_type: ChineseType,
    straddles: bool,
    hit: Hit,
    s: int,
    e: int,
)
    requires
        hit.pattern < db.models().len(),
        stands_on(t, hit, s, e),
        ({
            let m = db.models()[hit.pattern as int];
            ||| straddles
            ||| exists|k: int|
                0 <= k < ex.len() && (#[trigger] ex[k]).start < byte_pos(t, e) && byte_pos(t, s)
                    < ex[k].end
            ||| m.rule_type is Variant && (!cfg.variant_normalization || zh_type is Simplified)
            ||| m.rule_type is AiFiller && !cfg.ai_filler_detection
            ||| m.rule_type is Translationese && !cfg.translationese_detection
            ||| m.rule_type is PoliticalColoring && exists|k: int|
                0 <= k < stance.silenced@.len() && (#[trigger] stance.silenced@[k])@ == m.from
            ||| !cfg.spelling && (m.rule_type is CrossStrait || m.rule_type is Confusable
                || m.rule_type is PoliticalColoring)
        }),
    ensures
        match_findings(db, t, ex, cfg, stance, zh_type, straddles, hit).len() == 0,
{
    let m = db.models()[hit.pattern as int];
    lemma_stands_on(t, hit, s, e);
    if exists|k: int|
        0 <= k < ex.len() && (#[trigger] ex[k]).start < byte_pos(t, e) && byte_pos(t, s)
            < ex[k].end {
        let k = choose|k: int|
            0 <= k < ex.len() && (#[trigger] ex[k]).start < byte_pos(t, e) && byte_pos(t, s)
                < ex[k].end;
        assert(overlaps(ex[k], byte_pos(t, s), byte_pos(t, e)));
    }
    if exists|k: int|
        0 <= k < stance.silenced@.len() && (#[trigger] stance.silenced@[k])@ == m.from {
        let k = choose|k: int|
            0 <= k < stance.silenced@.len() && (#[trigger] stance.silenced@[k])@ == m.from;
        assert(crate::issue::strings(stance.silenced@)[k] == m.from);
    }
}

/// No phrase goes by unmatched: wherever a pattern stands, a match covers the
/// place where it begins.
pub proof fn law_every_phrase_is_met(p: Seq<Seq<char>>, h: Seq<u8>, ms: Seq<Hit>, k: int, b: int) -> (
i: int)
    requires
        leftmost_longest(p, h, ms),
        pattern_at(p, h, k, b),
        0 <= b,
    ensures
        0 <= i < ms.len(),
        ms[i].start <= b < ms[i].end,
        b == ms[i].start ==> encode_utf8(p[k]).len() <= ms[i].end - ms[i].start,
{
    lemma_met_from(p, h, ms, k, b, 0)
}

proof fn lemma_met_from(p: Seq<Seq<char>>, h: Seq<u8>, ms: Seq<Hit>, k: int, b: int, n: int) -> (i:
    int)
    requires
        leftmost_longest(p, h, ms),
        pattern_at(p, h, k, b),
        0 <= n <= ms.len(),
        resumed_at(ms, n) <= b,
    ensures
        0 <= i < ms.len(),
        ms[i].start <= b < ms[i].end,
        b == ms[i].start ==> encode_utf8(p[k]).len() <= ms[i].end - ms[i].start,
    decreases ms.len() - n,
{
    if n < ms.len() {
        assert(leftmost_hit(p, h, ms[n], resumed_at(ms, n)));
        if b < ms[n].start {
            assert(false);
        }
        if b < ms[n].end {
            n
        } else {
            lemma_met_from(p, h, ms, k, b, n + 1)
        }
    } else {
        assert(false);
        0
    }
}

/// Every match is judged by itself: what it yields is among the findings, and a
/// match of which nothing is known cuts no word.
pub proof fn law_matches_are_judged_one_by_one(
    db: &CompiledSpellingDb,
    t: Seq<char>,
    ex: Seq<ByteRange>,
    cfg: ProfileConfig,
    stance: PoliticalStance,
    zh_type: ChineseType,
    hits: Seq<Hit>,
    straddles: Seq<bool>,
    k: int,
    m: IssueModel,
)
    requires
        0 <= k < hits.len(),
        k >= straddles.len() || !straddles[k],
        match_findings(db, t, ex, cfg, stance, zh_type, false, hits[k]).contains(m),
    ensures
        spelling_findings(db, t, ex, cfg, stance, zh_type, hits, straddles).contains(m),
{
    let f = spelling_rule(db, t, ex, cfg, stance, zh_type, hits, straddles);
    assert(f(k) == match_findings(db, t, ex, cfg, stance, zh_type, false, hits[k]));
    lemma_each_contains(hits.len() as int, f, k, m);
}

} // verus!
