//! Whole scans: what a pass finds reaches the report.
use vstd::prelude::*;

use crate::automaton::Hit;
use crate::bounds::{Bound, Paragraph};
use crate::brackets::on_quote;
use crate::content::ContentType;
use crate::database::CompiledSpellingDb;
use crate::emit::ByteRange;
use crate::grammar::ai::indexed_findings;
use crate::grammar::ai_sentence::promoted;
use crate::grammar::calque::lexical_findings as calque_findings;
use crate::grammar::translationese::{indexed_findings as sentence_findings, syntactic_findings};
use crate::grammar::rhythm::rhythm_findings;
use crate::inflate::inflated_by;
use crate::issue::{models, IssueModel, PhasePass, Severity};
use crate::keep::lemma_kept_contains;
use crate::listing::{lemma_listed, listed_by, ranks_by, report_rank, span_rank};
use crate::order::{arranged, comes_before, in_order, lemma_order_fits};
use crate::output::ScanOutput;
use crate::overlap::{clash, law_lone_findings_survive};
use crate::passes::{
    ai_findings, if_on, lexical_findings, section_blocks, spelling_findings, structural_result,
    styled_findings, translated, unmentioned, StructuralExtras,
};
use crate::phases::{law_indexed_findings_win, superseded, supersedes};
use crate::mentions::used;
use crate::profile::ProfileConfig;
use crate::register::register_under;
use crate::rules::PoliticalStance;
use crate::scanner::{filled, hierarchy_findings, reports, scanned, Course, DocumentFacts};
use crate::spelling::{law_spelling_matches_are_determined, spelling_matches};
use crate::walk::lemma_sum_holds;

verus! {

/// A finding that clashes with no other stands apart in every order too.
proof fn lemma_apart_in_order(
    v: Seq<IssueModel>,
    rank: spec_fn(IssueModel) -> crate::order::Rank,
    out: Seq<IssueModel>,
    i: int,
) -> (k: int)
    requires
        listed_by(v, rank, out),
        0 <= i < v.len(),
        forall|j: int| 0 <= j < v.len() && j != i ==> !clash(v[i], #[trigger] v[j]),
    ensures
        0 <= k < out.len(),
        out[k] == v[i],
        forall|j: int| 0 <= j < out.len() && j != k ==> !clash(out[k], #[trigger] out[j]),
{
    let ranks = ranks_by(v, rank);
    let n = v.len() as int;
    let order = choose|order: Seq<usize>| #[trigger]
        in_order(ranks, order, 0, n) && out == arranged(v, order);
    lemma_order_fits(ranks, order, n);
    assert(order.contains(i as usize));
    let k = choose|k: int| 0 <= k < order.len() && order[k] == i as usize;
    assert(out[k] == v[i]);
    assert forall|j: int| 0 <= j < out.len() && j != k implies !clash(out[k], #[trigger] out[j]) by {
        if j < k {
            assert(comes_before(ranks, order[j] as int, order[k] as int));
        } else {
            assert(comes_before(ranks, order[k] as int, order[j] as int));
        }
        assert(order[j] != order[k]);
        assert(out[j] == v[order[j] as int]);
        assert(!clash(v[i], v[order[j] as int]));
    }
    k
}

/// What machine-style detectors and translationese detectors add takes nothing
/// away: a finding that is neither of machine style nor of a pattern that two
/// passes find stays as it is.
pub proof fn law_structural_passes_keep_other_findings(
    t: Seq<char>,
    ex: Seq<ByteRange>,
    cfg: ProfileConfig,
    ct: ContentType,
    sentences: Seq<Bound>,
    paragraphs: Seq<Paragraph>,
    extras: &StructuralExtras,
    before: Seq<IssueModel>,
    m: IssueModel,
)
    requires
        before.contains(m),
        !(m.rule_type is AiStyle),
        m.phase_family is None,
    ensures
        structural_result(t, ex, cfg, ct, sentences, paragraphs, extras, before).contains(m),
{
    let grammar = if_on(cfg.grammar_checks, models(extras.grammar@));
    lemma_sum_holds(before, grammar);
    let first = before + grammar;
    let ai = ai_findings(t, ex, cfg, extras);
    lemma_sum_holds(first, ai);
    let found = first + ai;
    let styled = styled_findings(t, ex, cfg, ct, sentences, paragraphs, extras, before);
    assert(styled.contains(m)) by {
        if cfg.ai_structural_patterns {
            let more = indexed_findings(
                t,
                ex,
                sentences,
                paragraphs,
                section_blocks(ct, extras.section_blocks@),
            );
            lemma_sum_holds(found, more);
            let all = found + more;
            let k = choose|k: int| 0 <= k < all.len() && all[k] == m;
            assert(styled[k] == promoted(t, ex, paragraphs, paragraphs.len() as int, m));
            assert(styled[k] == m);
        }
    }
    let plain = unmentioned(t, extras.invisible_chars@, styled);
    let k = choose|k: int| 0 <= k < styled.len() && styled[k] == m;
    lemma_kept_contains(
        styled,
        used(t, extras.invisible_chars@, styled),
        styled.len() as int,
        k,
    );
    assert(plain.contains(m));
    let register = register_under(cfg.register, extras.detected_register);
    let read = translated(t, ex, cfg, sentences, paragraphs, register, plain);
    assert(read.contains(m)) by {
        if cfg.translationese_detection {
            let a = syntactic_findings(t, ex, sentences, paragraphs);
            let b = sentence_findings(
                t,
                ex,
                sentences,
                paragraphs,
                cfg.translationese_domain,
                cfg.rhythm,
                register,
            );
            let c = calque_findings(t, ex, register);
            lemma_sum_holds(plain, a);
            lemma_sum_holds(plain + a, b);
            lemma_sum_holds(plain + a + b, c);
            let v = plain + a + b + c;
            let k = choose|k: int| 0 <= k < v.len() && v[k] == m;
            if superseded(v, k) {
                let x = choose|x: int| 0 <= x < v.len() && supersedes(#[trigger] v[x], v[k]);
            }
            law_indexed_findings_win(v, k, k);
        }
    }
    lemma_sum_holds(
        read,
        if_on(cfg.rhythm, rhythm_findings(t, ex, sentences, paragraphs)),
    );
}

/// What a pass over the text itself finds reaches the report, with its texts
/// filled in, where it clashes with nothing else that is found there, is no
/// finding of machine style, and is not on a curly quotation mark, whose bracket
/// is settled later.
pub proof fn law_what_is_found_is_reported(
    db: &CompiledSpellingDb,
    t: Seq<char>,
    ex: Seq<ByteRange>,
    cfg: ProfileConfig,
    stance: PoliticalStance,
    ct: ContentType,
    facts: &DocumentFacts,
    hits: Seq<Hit>,
    r: &ScanOutput,
    i: int,
)
    requires
        db.searchable(),
        t.len() > 0,
        scanned(db, t, ex, cfg, stance, ct, facts, r),
        if cfg.spelling {
            spelling_matches(db, t, hits)
        } else {
            hits.len() == 0
        },
        ({
            let v = lexical_findings(
                t,
                ex,
                cfg,
                spelling_findings(db, t, ex, cfg, stance, facts.script, hits, facts.straddles@),
                &facts.lexical,
            );
            &&& 0 <= i < v.len()
            &&& forall|j: int| 0 <= j < v.len() && j != i ==> !clash(v[i], #[trigger] v[j])
            &&& !(v[i].rule_type is AiStyle)
            &&& v[i].phase_family is None
            &&& !on_quote(inflated_by(db, t, ex, cfg.offset_only, v[i]))
        }),
    ensures
        models(r.issues@).contains(
            inflated_by(
                db,
                t,
                ex,
                cfg.offset_only,
                lexical_findings(
                    t,
                    ex,
                    cfg,
                    spelling_findings(db, t, ex, cfg, stance, facts.script, hits, facts.straddles@),
                    &facts.lexical,
                )[i],
            ),
        ),
{
    let c = choose|c: Course| #[trigger] reports(db, t, ex, cfg, stance, ct, facts, c, r);
    if cfg.spelling {
        law_spelling_matches_are_determined(db, t, c.hits, hits);
    } else {
        assert(c.hits =~= hits);
    }
    let v = lexical_findings(
        t,
        ex,
        cfg,
        spelling_findings(db, t, ex, cfg, stance, facts.script, hits, facts.straddles@),
        &facts.lexical,
    );
    let out = models(r.issues@);
    let k = lemma_apart_in_order(v, |m: IssueModel| span_rank(m), c.spanned, i);
    law_lone_findings_survive(c.spanned, c.survivors, k);
    let a = choose|a: int| 0 <= a < c.survivors.len() && c.survivors[a] == v[i];
    let m = inflated_by(db, t, ex, cfg.offset_only, v[i]);
    let full = filled(db, t, ex, cfg, c.survivors);
    assert(full[a] == m);
    let made = structural_result(
        t,
        ex,
        cfg,
        ct,
        facts.bounds.sentences@,
        facts.bounds.paragraphs@,
        &facts.structural,
        full,
    );
    law_structural_passes_keep_other_findings(
        t,
        ex,
        cfg,
        ct,
        facts.bounds.sentences@,
        facts.bounds.paragraphs@,
        &facts.structural,
        full,
        m,
    );
    let b = choose|b: int| 0 <= b < made.len() && made[b] == m;
    assert(c.bracketed[b] == m);
    assert(c.bracketed.contains(m));
    let all = c.bracketed + hierarchy_findings(t, ex);
    lemma_sum_holds(c.bracketed, hierarchy_findings(t, ex));
    lemma_listed(all, |m: IssueModel| report_rank(m), out);
}

/// What is wrong with the brackets of a text is always reported.
pub proof fn law_brackets_are_always_checked(
    db: &CompiledSpellingDb,
    t: Seq<char>,
    ex: Seq<ByteRange>,
    cfg: ProfileConfig,
    stance: PoliticalStance,
    ct: ContentType,
    facts: &DocumentFacts,
    r: &ScanOutput,
    m: IssueModel,
)
    requires
        t.len() > 0,
        scanned(db, t, ex, cfg, stance, ct, facts, r),
        hierarchy_findings(t, ex).contains(m),
    ensures
        models(r.issues@).contains(m),
{
    let c = choose|c: Course| #[trigger] reports(db, t, ex, cfg, stance, ct, facts, c, r);
    let all = c.bracketed + hierarchy_findings(t, ex);
    lemma_sum_holds(c.bracketed, hierarchy_findings(t, ex));
    lemma_listed(all, |m: IssueModel| report_rank(m), models(r.issues@));
}

/// What the rhythm axis finds is reported where it is on.
pub proof fn law_rhythm_is_reported(
    db: &CompiledSpellingDb,
    t: Seq<char>,
    ex: Seq<ByteRange>,
    cfg: ProfileConfig,
    stance: PoliticalStance,
    ct: ContentType,
    facts: &DocumentFacts,
    r: &ScanOutput,
    m: IssueModel,
)
    requires
        t.len() > 0,
        cfg.rhythm,
        scanned(db, t, ex, cfg, stance, ct, facts, r),
        rhythm_findings(
            t,
            ex,
            facts.bounds.sentences@,
            facts.bounds.paragraphs@,
        ).contains(m),
        !on_quote(m),
    ensures
        models(r.issues@).contains(m),
{
    let c = choose|c: Course| #[trigger] reports(db, t, ex, cfg, stance, ct, facts, c, r);
    let (s, p) = (facts.bounds.sentences@, facts.bounds.paragraphs@);
    let full = filled(db, t, ex, cfg, c.survivors);
    let made = structural_result(t, ex, cfg, ct, s, p, &facts.structural, full);
    let register = register_under(cfg.register, facts.structural.detected_register);
    let plain = unmentioned(
        t,
        facts.structural.invisible_chars@,
        styled_findings(t, ex, cfg, ct, s, p, &facts.structural, full),
    );
    lemma_sum_holds(
        translated(t, ex, cfg, s, p, register, plain),
        rhythm_findings(t, ex, s, p),
    );
    assert(made.contains(m));
    let b = choose|b: int| 0 <= b < made.len() && made[b] == m;
    assert(c.bracketed[b] == m);
    assert(c.bracketed.contains(m));
    let all = c.bracketed + hierarchy_findings(t, ex);
    lemma_sum_holds(c.bracketed, hierarchy_findings(t, ex));
    lemma_listed(all, |m: IssueModel| report_rank(m), models(r.issues@));
}

/// What the structural passes make reaches the report, unless it is on a curly
/// quotation mark.
proof fn lemma_made_reported(
    db: &CompiledSpellingDb,
    t: Seq<char>,
    ex: Seq<ByteRange>,
    cfg: ProfileConfig,
    stance: PoliticalStance,
    ct: ContentType,
    facts: &DocumentFacts,
    c: Course,
    r: &ScanOutput,
    m: IssueModel,
)
    requires
        reports(db, t, ex, cfg, stance, ct, facts, c, r),
        structural_result(
            t,
            ex,
            cfg,
            ct,
            facts.bounds.sentences@,
            facts.bounds.paragraphs@,
            &facts.structural,
            filled(db, t, ex, cfg, c.survivors),
        ).contains(m),
        !on_quote(m),
    ensures
        models(r.issues@).contains(m),
{
    let made = structural_result(
        t,
        ex,
        cfg,
        ct,
        facts.bounds.sentences@,
        facts.bounds.paragraphs@,
        &facts.structural,
        filled(db, t, ex, cfg, c.survivors),
    );
    let b = choose|b: int| 0 <= b < made.len() && made[b] == m;
    assert(c.bracketed[b] == m);
    assert(c.bracketed.contains(m));
    let all = c.bracketed + hierarchy_findings(t, ex);
    lemma_sum_holds(c.bracketed, hierarchy_findings(t, ex));
    lemma_listed(all, |m: IssueModel| report_rank(m), models(r.issues@));
}

/// What the detectors of figures find is reported where machine-style structure is
/// looked for, as a remark or, in a paragraph that hedges too much, as a warning.
pub proof fn law_figures_are_reported(
    db: &CompiledSpellingDb,
    t: Seq<char>,
    ex: Seq<ByteRange>,
    cfg: ProfileConfig,
    stance: PoliticalStance,
    ct: ContentType,
    facts: &DocumentFacts,
    r: &ScanOutput,
    m: IssueModel,
)
    requires
        t.len() > 0,
        cfg.ai_structural_patterns,
        scanned(db, t, ex, cfg, stance, ct, facts, r),
        indexed_findings(
            t,
            ex,
            facts.bounds.sentences@,
            facts.bounds.paragraphs@,
            section_blocks(ct, facts.structural.section_blocks@),
        ).contains(m),
        m.structural_family is Some,
        m.phase_family is None,
        !on_quote(m),
    ensures
        models(r.issues@).contains(m) || models(r.issues@).contains(
            IssueModel { severity: Severity::Warning, ..m },
        ),
{
    let c = choose|c: Course| #[trigger] reports(db, t, ex, cfg, stance, ct, facts, c, r);
    let (s, p) = (facts.bounds.sentences@, facts.bounds.paragraphs@);
    let full = filled(db, t, ex, cfg, c.survivors);
    let extras = &facts.structural;
    let found = full + if_on(cfg.grammar_checks, models(extras.grammar@)) + ai_findings(
        t,
        ex,
        cfg,
        extras,
    );
    let more = indexed_findings(t, ex, s, p, section_blocks(ct, extras.section_blocks@));
    lemma_sum_holds(found, more);
    let all = found + more;
    let styled = styled_findings(t, ex, cfg, ct, s, p, extras, full);
    let k = choose|k: int| 0 <= k < all.len() && all[k] == m;
    let n = promoted(t, ex, p, p.len() as int, m);
    assert(styled[k] == n);
    assert(n == m || n == (IssueModel { severity: Severity::Warning, ..m }));
    let plain = unmentioned(t, extras.invisible_chars@, styled);
    lemma_kept_contains(
        styled,
        used(t, extras.invisible_chars@, styled),
        styled.len() as int,
        k,
    );
    assert(plain.contains(n));
    lemma_read_stays(t, ex, cfg, s, p, extras, plain, n);
    lemma_made_reported(db, t, ex, cfg, stance, ct, facts, c, r, n);
}

/// A finding of no pattern that two passes find stays through the last passes.
proof fn lemma_read_stays(
    t: Seq<char>,
    ex: Seq<ByteRange>,
    cfg: ProfileConfig,
    s: Seq<Bound>,
    p: Seq<Paragraph>,
    extras: &StructuralExtras,
    plain: Seq<IssueModel>,
    m: IssueModel,
)
    requires
        plain.contains(m),
        m.phase_family is None,
    ensures
        ({
            let register = register_under(cfg.register, extras.detected_register);
            (translated(t, ex, cfg, s, p, register, plain) + if_on(
                cfg.rhythm,
                rhythm_findings(t, ex, s, p),
            )).contains(m)
        }),
{
    let register = register_under(cfg.register, extras.detected_register);
    let read = translated(t, ex, cfg, s, p, register, plain);
    assert(read.contains(m)) by {
        if cfg.translationese_detection {
            let a = syntactic_findings(t, ex, s, p);
            let b = sentence_findings(
                t,
                ex,
                s,
                p,
                cfg.translationese_domain,
                cfg.rhythm,
                register,
            );
            let c = calque_findings(t, ex, register);
            lemma_sum_holds(plain, a);
            lemma_sum_holds(plain + a, b);
            lemma_sum_holds(plain + a + b, c);
            let v = plain + a + b + c;
            let k = choose|k: int| 0 <= k < v.len() && v[k] == m;
            if superseded(v, k) {
                let x = choose|x: int| 0 <= x < v.len() && supersedes(#[trigger] v[x], v[k]);
            }
            law_indexed_findings_win(v, k, k);
        }
    }
    lemma_sum_holds(read, if_on(cfg.rhythm, rhythm_findings(t, ex, s, p)));
}

/// What the syntactic detectors find is reported where translationese is looked
/// for, and so is what the sentence-aware detectors find.
pub proof fn law_translationese_is_reported(
    db: &CompiledSpellingDb,
    t: Seq<char>,
    ex: Seq<ByteRange>,
    cfg: ProfileConfig,
    stance: PoliticalStance,
    ct: ContentType,
    facts: &DocumentFacts,
    r: &ScanOutput,
    m: IssueModel,
)
    requires
        t.len() > 0,
        cfg.translationese_detection,
        scanned(db, t, ex, cfg, stance, ct, facts, r),
        !on_quote(m),
        ({
            let (s, p) = (facts.bounds.sentences@, facts.bounds.paragraphs@);
            ||| syntactic_findings(t, ex, s, p).contains(m) && m.phase_family is None
            ||| sentence_findings(
                t,
                ex,
                s,
                p,
                cfg.translationese_domain,
                cfg.rhythm,
                register_under(cfg.register, facts.structural.detected_register),
            ).contains(m) && (m.phase_family matches Some(f) && f.1 == PhasePass::Indexed)
        }),
    ensures
        models(r.issues@).contains(m),
{
    let c = choose|c: Course| #[trigger] reports(db, t, ex, cfg, stance, ct, facts, c, r);
    let (s, p) = (facts.bounds.sentences@, facts.bounds.paragraphs@);
    let extras = &facts.structural;
    let full = filled(db, t, ex, cfg, c.survivors);
    let register = register_under(cfg.register, extras.detected_register);
    let plain = unmentioned(
        t,
        extras.invisible_chars@,
        styled_findings(t, ex, cfg, ct, s, p, extras, full),
    );
    let a = syntactic_findings(t, ex, s, p);
    let b = sentence_findings(t, ex, s, p, cfg.translationese_domain, cfg.rhythm, register);
    let d = calque_findings(t, ex, register);
    lemma_sum_holds(plain, a);
    lemma_sum_holds(plain + a, b);
    lemma_sum_holds(plain + a + b, d);
    let v = plain + a + b + d;
    assert(v.contains(m));
    let k = choose|k: int| 0 <= k < v.len() && v[k] == m;
    if superseded(v, k) {
        let x = choose|x: int| 0 <= x < v.len() && supersedes(#[trigger] v[x], v[k]);
    }
    law_indexed_findings_win(v, k, k);
    let read = translated(t, ex, cfg, s, p, register, plain);
    assert(read.contains(m));
    lemma_sum_holds(read, if_on(cfg.rhythm, rhythm_findings(t, ex, s, p)));
    lemma_made_reported(db, t, ex, cfg, stance, ct, facts, c, r, m);
}

} // verus!
