//! Which findings come from rules, and what is known of those that do.
use vstd::prelude::*;
use vstd::utf8::*;

use crate::absorb::patterns;
use crate::automaton::{leftmost_hit, pattern_at, resumed_at, Hit};
use crate::bytes::lemma_bytes_to_chars;
use crate::database::{lemma_database, CompiledSpellingDb};
use crate::emit::{excluded_in, overlaps, span_excluded, ByteRange};
use crate::inflate::{inflatable, on_characters};
use crate::issue::{models, IssueModel};
use crate::marks::{commas, curly_issues, dunhao_rule, range_rule};
use crate::passes::{
    curly_findings, dunhao_findings, lexical_findings, mark_findings, punctuation_findings,
    range_findings, spacing_findings, spelling_findings, if_on, LexicalExtras,
};
use crate::predicates::extended_end;
use crate::profile::ProfileConfig;
use crate::punctuation::{punctuation_at, punctuation_rule, whole_plan};
use crate::quotes::{QuoteKind, QuoteMark};
use crate::ranges::separate;
use crate::rules::{ChineseType, PoliticalStance};
use crate::spacing::{spacing_at, spacing_rule};
use crate::spelling::{cut, heard, match_findings, spelling_matches, spelling_rule};
use crate::text::{
    byte_pos, floor_pos, lemma_byte_len_is_encoded_len, lemma_byte_pos_monotone, lemma_floor_bounds,
    occurs_at,
};
use crate::walk::{all_are, each, lemma_each_are};

verus! {

/// No finding of the list comes from a rule.
pub open spec fn unruled(v: Seq<IssueModel>) -> bool {
    forall|i: int| 0 <= i < v.len() ==> (#[trigger] v[i]).spelling_rule_idx is None
}

/// A finding that comes from a rule shows whole characters of the text, and
/// the profile hears the rule.
pub open spec fn well_founded(
    db: &CompiledSpellingDb,
    t: Seq<char>,
    cfg: ProfileConfig,
    stance: PoliticalStance,
    zh_type: ChineseType,
    m: IssueModel,
) -> bool {
    &&& inflatable(db, t, m)
    &&& m.spelling_rule_idx matches Some(k) ==> cfg.spelling && heard(
        cfg,
        stance,
        zh_type,
        db.models()[k],
    )
}

pub open spec fn all_well_founded(
    db: &CompiledSpellingDb,
    t: Seq<char>,
    cfg: ProfileConfig,
    stance: PoliticalStance,
    zh_type: ChineseType,
    v: Seq<IssueModel>,
) -> bool {
    forall|i: int|
        0 <= i < v.len() ==> well_founded(db, t, cfg, stance, zh_type, #[trigger] v[i])
}

proof fn lemma_unruled_each(n: int, f: spec_fn(int) -> Seq<IssueModel>)
    requires
        forall|k: int| 0 <= k < n ==> unruled(#[trigger] f(k)),
    ensures
        unruled(each(n, f)),
    decreases n,
{
    if n > 0 {
        lemma_unruled_each(n - 1, f);
        lemma_unruled_sum(each(n - 1, f), f(n - 1));
    }
}

proof fn lemma_unruled_sum(a: Seq<IssueModel>, b: Seq<IssueModel>)
    requires
        unruled(a),
        unruled(b),
    ensures
        unruled(a + b),
{
    assert forall|i: int| 0 <= i < (a + b).len() implies (#[trigger] (
    a + b)[i]).spelling_rule_idx is None by {
        if i < a.len() {
            assert((a + b)[i] == a[i]);
        } else {
            assert((a + b)[i] == b[i - a.len()]);
        }
    }
}

proof fn lemma_curly_unruled(
    t: Seq<char>,
    doubles: Seq<QuoteMark>,
    singles: Seq<QuoteMark>,
    i: int,
    j: int,
)
    ensures
        unruled(curly_issues(t, doubles, singles, i, j)),
    decreases doubles.len() - i + singles.len() - j,
{
    if 0 <= i <= doubles.len() && 0 <= j <= singles.len() {
        if i < doubles.len() && (j == singles.len() || doubles[i].pos <= singles[j].pos) {
            lemma_curly_unruled(t, doubles, singles, i + 1, j);
        } else if j < singles.len() {
            lemma_curly_unruled(t, doubles, singles, i, j + 1);
        }
    }
}

proof fn lemma_marks_unruled(
    t: Seq<char>,
    ex: Seq<ByteRange>,
    cfg: ProfileConfig,
    ellipsis: Seq<IssueModel>,
)
    requires
        unruled(ellipsis),
    ensures
        unruled(mark_findings(t, ex, cfg, ellipsis)),
{
    let n = t.len() as int;
    let plan = whole_plan(t, ex, QuoteKind::AsciiDouble);
    let f = punctuation_rule(t, ex, cfg.colon_enforcement, plan);
    assert forall|k: int| 0 <= k < n implies unruled(#[trigger] f(k)) by {
        assert(f(k) == punctuation_at(t, ex, cfg.colon_enforcement, plan, k));
    }
    lemma_unruled_each(n, f);
    let p = commas(t, ex, n);
    lemma_unruled_each(p.len() as int, dunhao_rule(t, p));
    lemma_unruled_each(n, range_rule(t, ex, cfg.range_en_dash));
    let g = spacing_rule(t, ex);
    assert forall|k: int| 0 <= k < n implies unruled(#[trigger] g(k)) by {
        assert(g(k) == spacing_at(t, ex, k));
    }
    lemma_unruled_each(n, g);
    lemma_curly_unruled(
        t,
        whole_plan(t, ex, QuoteKind::CurlyDouble),
        whole_plan(t, ex, QuoteKind::CurlySingle),
        0,
        0,
    );
    let a = if_on(cfg.basic_punctuation, punctuation_findings(t, ex, cfg));
    let b = if_on(cfg.dunhao_detection, dunhao_findings(t, ex));
    let c = if_on(cfg.range_normalization, range_findings(t, ex, cfg));
    let d = if_on(cfg.ellipsis_normalization, ellipsis);
    let e = if_on(cfg.basic_punctuation, curly_findings(t, ex));
    let s = if_on(cfg.basic_punctuation, spacing_findings(t, ex));
    lemma_unruled_sum(a, b);
    lemma_unruled_sum(a + b, c);
    lemma_unruled_sum(a + b + c, d);
    lemma_unruled_sum(a + b + c + d, e);
    lemma_unruled_sum(a + b + c + d + e, s);
}

/// Byte width of a needle where it stands.
proof fn lemma_needle_width(t: Seq<char>, needle: Seq<char>, q: int, n: int)
    requires
        occurs_at(t, needle, q),
        0 <= n <= needle.len(),
    ensures
        byte_pos(t, q + n) == byte_pos(t, q) + byte_pos(needle, n),
    decreases n,
{
    if n > 0 {
        lemma_needle_width(t, needle, q, n - 1);
        assert(t.subrange(q, q + needle.len())[n - 1] == t[q + n - 1]);
    }
}

proof fn lemma_on_characters(t: Seq<char>, i: int, j: int)
    requires
        0 <= i <= j <= t.len(),
    ensures
        on_characters(t, byte_pos(t, i), byte_pos(t, j)),
{
    lemma_byte_pos_monotone(t, i, j);
    lemma_floor_bounds(t, byte_pos(t, i), i, i);
    lemma_floor_bounds(t, byte_pos(t, j), j, j);
}

/// What a match of the rules' phrases yields is well founded.
#[verifier::spinoff_prover]
#[verifier::rlimit(40)]
proof fn lemma_match_well_founded(
    db: &CompiledSpellingDb,
    t: Seq<char>,
    ex: Seq<ByteRange>,
    cfg: ProfileConfig,
    stance: PoliticalStance,
    zh_type: ChineseType,
    straddles: bool,
    hits: Seq<Hit>,
    k: int,
)
    requires
        db.searchable(),
        cfg.spelling,
        spelling_matches(db, t, hits),
        0 <= k < hits.len(),
    ensures
        all_well_founded(
            db,
            t,
            cfg,
            stance,
            zh_type,
            match_findings(db, t, ex, cfg, stance, zh_type, straddles, hits[k]),
        ),
{
    let hit = hits[k];
    let i = hit.pattern as int;
    let v = db.models();
    let h = encode_utf8(t);
    let found = match_findings(db, t, ex, cfg, stance, zh_type, straddles, hit);
    if found.len() > 0 {
        lemma_database(db);
        assert(leftmost_hit(patterns(v), h, hits[k], resumed_at(hits, k)));
        assert(pattern_at(patterns(v), h, i, hit.start as int));
        assert(patterns(v)[i] == v[i].from);
        let from = v[i].from;
        let q = lemma_bytes_to_chars(t, from, hit.start as int);
        lemma_needle_width(t, from, q, from.len() as int);
        lemma_byte_len_is_encoded_len(from);
        let e = q + from.len();
        lemma_floor_bounds(t, byte_pos(t, q), q, q);
        lemma_floor_bounds(t, byte_pos(t, e), e, e);
        let m = found[0];
        let end = if v[i].deletes() {
            extended_end(t, ex, e)
        } else {
            e
        };
        lemma_byte_pos_monotone(t, q, end);
        lemma_byte_pos_monotone(t, end, t.len() as int);
        lemma_byte_pos_monotone(t, e, t.len() as int);
        lemma_on_characters(t, q, e);
        lemma_on_characters(t, q, end);
        assert(m.offset == byte_pos(t, q));
        assert(m.offset + m.length == byte_pos(t, end));
        assert(inflatable(db, t, m));
    }
}

proof fn lemma_founded_sum(
    db: &CompiledSpellingDb,
    t: Seq<char>,
    cfg: ProfileConfig,
    stance: PoliticalStance,
    zh_type: ChineseType,
    a: Seq<IssueModel>,
    b: Seq<IssueModel>,
)
    requires
        all_well_founded(db, t, cfg, stance, zh_type, a),
        all_well_founded(db, t, cfg, stance, zh_type, b),
    ensures
        all_well_founded(db, t, cfg, stance, zh_type, a + b),
{
    assert forall|i: int| 0 <= i < (a + b).len() implies well_founded(
        db,
        t,
        cfg,
        stance,
        zh_type,
        #[trigger] (a + b)[i],
    ) by {
        if i < a.len() {
            assert((a + b)[i] == a[i]);
        } else {
            assert((a + b)[i] == b[i - a.len()]);
        }
    }
}

proof fn lemma_founded_each(
    db: &CompiledSpellingDb,
    t: Seq<char>,
    ex: Seq<ByteRange>,
    cfg: ProfileConfig,
    stance: PoliticalStance,
    zh_type: ChineseType,
    hits: Seq<Hit>,
    straddles: Seq<bool>,
    n: int,
)
    requires
        db.searchable(),
        cfg.spelling,
        spelling_matches(db, t, hits),
        0 <= n <= hits.len(),
    ensures
        all_well_founded(
            db,
            t,
            cfg,
            stance,
            zh_type,
            each(n, spelling_rule(db, t, ex, cfg, stance, zh_type, hits, straddles)),
        ),
    decreases n,
{
    let f = spelling_rule(db, t, ex, cfg, stance, zh_type, hits, straddles);
    if n > 0 {
        lemma_founded_each(db, t, ex, cfg, stance, zh_type, hits, straddles, n - 1);
        lemma_match_well_founded(
            db,
            t,
            ex,
            cfg,
            stance,
            zh_type,
            cut(straddles, n - 1),
            hits,
            n - 1,
        );
        lemma_founded_sum(db, t, cfg, stance, zh_type, each(n - 1, f), f(n - 1));
    }
}

/// No detector outside this library speaks for a rule.
pub open spec fn extras_unruled(extras: &LexicalExtras) -> bool {
    &&& unruled(models(extras.casing@))
    &&& unruled(models(extras.ellipsis@))
    &&& unruled(models(extras.repetition@))
    &&& unruled(models(extras.acronyms@))
}

/// What the passes over the text itself find is well founded.
pub proof fn lemma_lexical_well_founded(
    db: &CompiledSpellingDb,
    t: Seq<char>,
    ex: Seq<ByteRange>,
    cfg: ProfileConfig,
    stance: PoliticalStance,
    zh_type: ChineseType,
    hits: Seq<Hit>,
    straddles: Seq<bool>,
    extras: &LexicalExtras,
)
    requires
        db.searchable(),
        cfg.spelling ==> spelling_matches(db, t, hits),
        extras_unruled(extras),
    ensures
        all_well_founded(
            db,
            t,
            cfg,
            stance,
            zh_type,
            lexical_findings(
                t,
                ex,
                cfg,
                spelling_findings(db, t, ex, cfg, stance, zh_type, hits, straddles),
                extras,
            ),
        ),
{
    let spelled = spelling_findings(db, t, ex, cfg, stance, zh_type, hits, straddles);
    if cfg.spelling {
        lemma_founded_each(db, t, ex, cfg, stance, zh_type, hits, straddles, hits.len() as int);
    }
    lemma_marks_unruled(t, ex, cfg, models(extras.ellipsis@));
    let a = if_on(cfg.spelling, spelled);
    let b = if_on(cfg.casing, models(extras.casing@));
    let c = mark_findings(t, ex, cfg, models(extras.ellipsis@));
    let d = models(extras.repetition@);
    let e = models(extras.acronyms@);
    lemma_founded_sum(db, t, cfg, stance, zh_type, a, b);
    lemma_founded_sum(db, t, cfg, stance, zh_type, a + b, c);
    lemma_founded_sum(db, t, cfg, stance, zh_type, a + b + c, d);
    lemma_founded_sum(db, t, cfg, stance, zh_type, a + b + c + d, e);
}

/// No excluded range overlaps the finding.
pub open spec fn clear_of(ex: Seq<ByteRange>) -> spec_fn(IssueModel) -> bool {
    |m: IssueModel| !excluded_in(ex, m.offset, m.offset + m.length)
}

/// A range that overlaps a span overlaps one of the parts that it is cut into.
proof fn lemma_cut(ex: Seq<ByteRange>, a: int, b: int, c: int)
    requires
        separate(ex),
        !excluded_in(ex, a, b),
        !excluded_in(ex, b, c),
    ensures
        !excluded_in(ex, a, c),
{
    if excluded_in(ex, a, c) {
        let k = choose|k: int| 0 <= k < ex.len() && #[trigger] overlaps(ex[k], a, c);
        assert(ex[k].start < ex[k].end);
        assert(!overlaps(ex[k], a, b));
        assert(!overlaps(ex[k], b, c));
    }
}

/// The rules say nothing of text that is excluded.
pub proof fn law_rules_leave_excluded_text_alone(
    db: &CompiledSpellingDb,
    t: Seq<char>,
    ex: Seq<ByteRange>,
    cfg: ProfileConfig,
    stance: PoliticalStance,
    zh_type: ChineseType,
    hits: Seq<Hit>,
    straddles: Seq<bool>,
)
    requires
        separate(ex),
    ensures
        all_are(
            spelling_findings(db, t, ex, cfg, stance, zh_type, hits, straddles),
            clear_of(ex),
        ),
{
    let f = spelling_rule(db, t, ex, cfg, stance, zh_type, hits, straddles);
    assert forall|k: int| 0 <= k < hits.len() implies all_are(#[trigger] f(k), clear_of(ex)) by {
        let hit = hits[k];
        let (s, e) = (floor_pos(t, hit.start as int), floor_pos(t, hit.end as int));
        assert(f(k) == match_findings(
            db,
            t,
            ex,
            cfg,
            stance,
            zh_type,
            cut(straddles, k),
            hit,
        ));
        if f(k).len() > 0 {
            let end = extended_end(t, ex, e);
            if end != e {
                lemma_cut(ex, byte_pos(t, s), byte_pos(t, e), byte_pos(t, end));
            }
        }
    }
    lemma_each_are(hits.len() as int, f, clear_of(ex));
}

proof fn lemma_commas_clear(t: Seq<char>, ex: Seq<ByteRange>, n: int)
    ensures
        forall|k: int|
            0 <= k < commas(t, ex, n).len() ==> !span_excluded(
                t,
                ex,
                #[trigger] commas(t, ex, n)[k],
                commas(t, ex, n)[k] + 1,
            ),
    decreases n,
{
    if n > 0 {
        lemma_commas_clear(t, ex, n - 1);
        let (before, now) = (commas(t, ex, n - 1), commas(t, ex, n));
        assert forall|k: int| 0 <= k < now.len() implies !span_excluded(
            t,
            ex,
            #[trigger] now[k],
            now[k] + 1,
        ) by {
            if k < before.len() {
                assert(now[k] == before[k]);
            }
        }
    }
}

/// The passes over punctuation and over ranges say nothing of marks that are
/// excluded.
pub proof fn law_marks_leave_excluded_text_alone(
    t: Seq<char>,
    ex: Seq<ByteRange>,
    cfg: ProfileConfig,
)
    ensures
        all_are(punctuation_findings(t, ex, cfg), clear_of(ex)),
        all_are(dunhao_findings(t, ex), clear_of(ex)),
        all_are(range_findings(t, ex, cfg), clear_of(ex)),
{
    let n = t.len() as int;
    let plan = whole_plan(t, ex, QuoteKind::AsciiDouble);
    let f = punctuation_rule(t, ex, cfg.colon_enforcement, plan);
    assert forall|k: int| 0 <= k < n implies all_are(#[trigger] f(k), clear_of(ex)) by {
        assert(f(k) == punctuation_at(t, ex, cfg.colon_enforcement, plan, k));
    }
    lemma_each_are(n, f, clear_of(ex));
    let p = commas(t, ex, n);
    lemma_commas_clear(t, ex, n);
    let g = dunhao_rule(t, p);
    assert forall|k: int| 0 <= k < p.len() implies all_are(#[trigger] g(k), clear_of(ex)) by {
        assert(!span_excluded(t, ex, p[k], p[k] + 1));
    }
    lemma_each_are(p.len() as int, g, clear_of(ex));
    lemma_each_are(n, range_rule(t, ex, cfg.range_en_dash), clear_of(ex));
}

} // verus!
