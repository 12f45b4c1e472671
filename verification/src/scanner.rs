//! The scanner: rules, compiled once, and the scan of a document with them.
use aho_corasick::AhoCorasick;
use daachorse::CharwiseDoubleArrayAhoCorasick;
use vstd::prelude::*;
use vstd::string::*;

use crate::absorb::patterns;
use crate::automaton::{bytewise_builds, Hit};
use crate::bounds::{paragraphs_of, BoundaryIndex};
use crate::brackets::{
    brackets_settled, fix_quote_pairing, hierarchy_rule, law_brackets_are_determined,
    validate_quote_hierarchy,
};
use crate::casing::{
    build_case_automaton, case_models, case_texts, drop_disabled, finds_terms, switched_on,
    CaseModel, CaseRule,
};
use crate::content::{
    build_exclusions_for_content_type_with_config, excluded_byte, options_for, with_caller_ranges,
    ContentType, DocumentRanges,
};
use crate::database::{all_sound, compile_spelling_rules_filtered, CompiledSpellingDb};
use crate::emit::{ByteRange, Emitter};
use crate::guard::{guarded, GuardRules, StructuralGuard};
use crate::inflate::{
    inflatable, inflate_spelling_issues, inflate_spelling_issues_compact, inflated_by,
};
use crate::issue::{models, strings, Issue, IssueModel};
use crate::keep::{kept, lemma_kept_origin};
use crate::listing::{
    by_report, by_span, law_listing_is_determined, lemma_listed, report_rank, sort_by_span,
    sort_for_report, span_rank,
};
use crate::origin::{all_well_founded, extras_unruled, lemma_lexical_well_founded, well_founded};
use crate::normalize::{carried, forward_ranges, trace_back, traced_back, Normalized};
use crate::output::{CoverageReport, ScanOutput, ScratchSpace};
use crate::overlap::{law_resolution_is_determined, resolution, resolve_overlaps, resolved};
use crate::passes::{
    if_on, lexical_findings, raw_findings, run_lexical_passes, run_raw_marks, run_structural_passes,
    spelling_findings, structural_result, styled_findings, LexicalExtras, StructuralExtras,
};
use crate::mentions::mention_byte;
use crate::prepare::{prepared, ProfileFilter};
use crate::profile::ProfileConfig;
use crate::ranges::{covers, law_merged_form_is_determined, same_cover, separate};
use crate::regions::{
    annotate_table_cells, annotated, boost_heading_severity, boosted, TableCellSpan,
};
use crate::rules::{rule_models, ChineseType, PoliticalStance, RuleModel, RuleType, SpellingRule};
use crate::signals::{
    build_quality_flags, compute_oral_density, flag_if, oral_density, quality_flags, OralDensity,
};
use crate::spelling::{
    heard, law_spelling_matches_are_determined, scan_spelling, spelling_hits, spelling_matches,
};
use crate::text::{
    byte_len, count_where, lemma_byte_len_is_encoded_len, lemma_count_where_bound, Text,
};
use crate::walk::each;

verus! {

/// What is known of a document from outside this library.
pub struct DocumentFacts {
    /// The script that it is written in.
    pub script: ChineseType,
    /// For each match of the rules' phrases, whether it cuts a word.
    pub straddles: Vec<bool>,
    /// Its sentences and paragraphs.
    pub bounds: BoundaryIndex,
    pub lexical: LexicalExtras,
    pub structural: StructuralExtras,
}

impl DocumentFacts {
    /// The facts can be those of a text.
    pub open spec fn fits(&self, t: Seq<char>) -> bool {
        extras_unruled(&self.lexical) && self.structural.fits(t.len() as int) && self.bounds.fits(
            t.len() as int,
        )
    }

    /// Nothing but the script is known.
    pub fn of_script(script: ChineseType) -> (r: Self)
        ensures
            r.script == script,
            r.straddles@.len() == 0,
            r.bounds.sentences@.len() == 0,
            r.bounds.paragraphs@.len() == 0,
            forall|t: Seq<char>| #[trigger] r.fits(t),
    {
        DocumentFacts {
            script,
            straddles: Vec::new(),
            bounds: BoundaryIndex::none(),
            lexical: LexicalExtras::none(),
            structural: StructuralExtras::none(),
        }
    }
}

/// The profile consults rules of the type.
pub open spec fn consulted(cfg: ProfileConfig, rule_type: RuleType) -> bool {
    match rule_type {
        RuleType::Variant => cfg.variant_normalization,
        RuleType::AiFiller => cfg.ai_filler_detection,
        RuleType::Translationese => cfg.translationese_detection,
        _ => true,
    }
}

pub open spec fn rule_consulted(cfg: ProfileConfig, v: Seq<RuleModel>) -> spec_fn(int) -> bool {
    |i: int| consulted(cfg, v[i].rule_type)
}

/// How many rules the profile consults.
pub open spec fn active_rules(cfg: ProfileConfig, v: Seq<RuleModel>) -> nat {
    if cfg.spelling {
        count_where(0, v.len() as int, rule_consulted(cfg, v))
    } else {
        0
    }
}

/// Some finding comes from the `i`-th rule.
pub open spec fn speaks(v: Seq<IssueModel>, i: int) -> bool {
    exists|k: int| 0 <= k < v.len() && (#[trigger] v[k]).spelling_rule_idx == Some(i)
}

pub open spec fn rule_speaks(v: Seq<IssueModel>) -> spec_fn(int) -> bool {
    |i: int| speaks(v, i)
}

/// From how many of `n` rules there is a finding.
pub open spec fn rules_speaking(v: Seq<IssueModel>, n: int) -> nat {
    count_where(0, n, rule_speaks(v))
}

/// The course of a scan: the matches of the rules, the findings on the text
/// itself in order and those that are kept, and the findings once the brackets
/// are settled.
pub ghost struct Course {
    pub hits: Seq<Hit>,
    pub spanned: Seq<IssueModel>,
    pub survivors: Seq<IssueModel>,
    pub bracketed: Seq<IssueModel>,
}

/// The findings that are kept, with their texts.
pub open spec fn filled(
    db: &CompiledSpellingDb,
    t: Seq<char>,
    ex: Seq<ByteRange>,
    cfg: ProfileConfig,
    v: Seq<IssueModel>,
) -> Seq<IssueModel> {
    Seq::new(v.len(), |i: int| inflated_by(db, t, ex, cfg.offset_only, v[i]))
}

/// What is wrong with the brackets of the text.
pub open spec fn hierarchy_findings(t: Seq<char>, ex: Seq<ByteRange>) -> Seq<IssueModel> {
    let p = paragraphs_of(t);
    each(p.len() as int, hierarchy_rule(t, ex, p))
}

/// The passes over the text itself, and which of their findings are kept.
pub open spec fn lexical_course(
    db: &CompiledSpellingDb,
    t: Seq<char>,
    ex: Seq<ByteRange>,
    cfg: ProfileConfig,
    stance: PoliticalStance,
    facts: &DocumentFacts,
    c: Course,
) -> bool {
    &&& if cfg.spelling {
        spelling_matches(db, t, c.hits)
    } else {
        c.hits.len() == 0
    }
    &&& by_span(
        lexical_findings(
            t,
            ex,
            cfg,
            spelling_findings(db, t, ex, cfg, stance, facts.script, c.hits, facts.straddles@),
            &facts.lexical,
        ),
        c.spanned,
    )
    &&& resolved(c.spanned, c.survivors)
}

/// The course of the scan of a text, and the findings that it ends in.
pub open spec fn runs(
    db: &CompiledSpellingDb,
    t: Seq<char>,
    ex: Seq<ByteRange>,
    cfg: ProfileConfig,
    stance: PoliticalStance,
    ct: ContentType,
    facts: &DocumentFacts,
    c: Course,
    out: Seq<IssueModel>,
) -> bool {
    &&& lexical_course(db, t, ex, cfg, stance, facts, c)
    &&& brackets_settled(
        t,
        structural_result(
            t,
            ex,
            cfg,
            ct,
            facts.bounds.sentences@,
            facts.bounds.paragraphs@,
            &facts.structural,
            filled(db, t, ex, cfg, c.survivors),
        ),
        c.bracketed,
    )
    &&& by_report(c.bracketed + hierarchy_findings(t, ex), out)
}

/// The byte lies in a phrase that the text names.
pub open spec fn named_byte(
    db: &CompiledSpellingDb,
    t: Seq<char>,
    ex: Seq<ByteRange>,
    cfg: ProfileConfig,
    ct: ContentType,
    facts: &DocumentFacts,
    c: Course,
    b: int,
) -> bool {
    mention_byte(
        t,
        facts.structural.invisible_chars@,
        styled_findings(
            t,
            ex,
            cfg,
            ct,
            facts.bounds.sentences@,
            facts.bounds.paragraphs@,
            &facts.structural,
            filled(db, t, ex, cfg, c.survivors),
        ),
        b,
    )
}

/// The flags of a report on the text.
pub open spec fn flags_of_report(t: Seq<char>, out: Seq<IssueModel>) -> Seq<Seq<char>> {
    quality_flags(out) + flag_if(
        oral_density(t) matches Some(d) && d.high(),
        "high_oral_density"@,
    )
}

/// The output is that of a course of the scan of a text that is not empty.
pub open spec fn reports(
    db: &CompiledSpellingDb,
    t: Seq<char>,
    ex: Seq<ByteRange>,
    cfg: ProfileConfig,
    stance: PoliticalStance,
    ct: ContentType,
    facts: &DocumentFacts,
    c: Course,
    r: &ScanOutput,
) -> bool {
    &&& runs(db, t, ex, cfg, stance, ct, facts, c, models(r.issues@))
    &&& r.detected_script == facts.script
    &&& r.coverage == Some(
        CoverageReport {
            rules_checked: active_rules(cfg, db.models()) as usize,
            rules_matched: rules_speaking(c.survivors, db.models().len() as int) as usize,
        },
    )
    &&& r.oral_density == oral_density(t)
    &&& strings(r.quality_flags@) == flags_of_report(t, models(r.issues@))
    &&& separate(r.mentions@)
    &&& forall|b: int| #[trigger]
        covers(r.mentions@, b) == named_byte(db, t, ex, cfg, ct, facts, c, b)
}

/// Nothing was found, because there is no text.
pub open spec fn reports_nothing(
    db: &CompiledSpellingDb,
    cfg: ProfileConfig,
    r: &ScanOutput,
) -> bool {
    &&& r.issues@.len() == 0
    &&& r.detected_script is Unknown
    &&& r.coverage == Some(
        CoverageReport {
            rules_checked: active_rules(cfg, db.models()) as usize,
            rules_matched: 0,
        },
    )
    &&& r.oral_density is None
    &&& r.quality_flags@.len() == 0
    &&& r.mentions@.len() == 0
}

/// The output is that of the scan of the text.
pub open spec fn scanned(
    db: &CompiledSpellingDb,
    t: Seq<char>,
    ex: Seq<ByteRange>,
    cfg: ProfileConfig,
    stance: PoliticalStance,
    ct: ContentType,
    facts: &DocumentFacts,
    r: &ScanOutput,
) -> bool {
    if t.len() == 0 {
        reports_nothing(db, cfg, r)
    } else {
        exists|c: Course| #[trigger] reports(db, t, ex, cfg, stance, ct, facts, c, r)
    }
}

proof fn lemma_survivors_founded(
    db: &CompiledSpellingDb,
    t: Seq<char>,
    ex: Seq<ByteRange>,
    cfg: ProfileConfig,
    stance: PoliticalStance,
    facts: &DocumentFacts,
    c: Course,
)
    requires
        db.searchable(),
        facts.fits(t),
        lexical_course(db, t, ex, cfg, stance, facts, c),
    ensures
        all_well_founded(db, t, cfg, stance, facts.script, c.survivors),
{
    let found = lexical_findings(
        t,
        ex,
        cfg,
        spelling_findings(db, t, ex, cfg, stance, facts.script, c.hits, facts.straddles@),
        &facts.lexical,
    );
    lemma_lexical_well_founded(
        db,
        t,
        ex,
        cfg,
        stance,
        facts.script,
        c.hits,
        facts.straddles@,
        &facts.lexical,
    );
    lemma_listed(found, |m: IssueModel| span_rank(m), c.spanned);
    let keep = choose|keep: Seq<bool>| #[trigger]
        resolution(c.spanned, keep) && c.survivors == kept(
            c.spanned,
            keep,
            c.spanned.len() as int,
        );
    let at = lemma_kept_origin(c.spanned, keep, c.spanned.len() as int);
    assert forall|i: int| 0 <= i < c.survivors.len() implies well_founded(
        db,
        t,
        cfg,
        stance,
        facts.script,
        #[trigger] c.survivors[i],
    ) by {
        assert(c.survivors[i] == c.spanned[at[i]]);
        assert(found.contains(c.spanned[at[i]]));
        let k = choose|k: int| 0 <= k < found.len() && found[k] == c.spanned[at[i]];
        assert(well_founded(db, t, cfg, stance, facts.script, found[k]));
    }
}

/// How many rules the findings come from.
fn count_speaking(issues: &Vec<Issue>, n: usize) -> (r: usize)
    requires
        forall|k: int|
            0 <= k < issues@.len() ==> ((#[trigger] issues@[k]).spelling_rule_idx matches Some(i)
                ==> i < n),
    ensures
        r == rules_speaking(models(issues@), n as int),
{
    let ghost v = models(issues@);
    let mut seen: Vec<bool> = Vec::new();
    let mut i: usize = 0;
    while i < n
        invariant
            i <= n,
            seen@.len() == i,
            forall|j: int| 0 <= j < i ==> !#[trigger] seen@[j],
        decreases n - i,
    {
        seen.push(false);
        i = i + 1;
    }
    let mut k: usize = 0;
    while k < issues.len()
        invariant
            k <= issues@.len(),
            v == models(issues@),
            seen@.len() == n,
            forall|m: int|
                0 <= m < issues@.len() ==> ((#[trigger] issues@[m]).spelling_rule_idx matches Some(
                    i,
                ) ==> i < n),
            forall|j: int|
                0 <= j < n ==> (#[trigger] seen@[j] == exists|m: int|
                    0 <= m < k && (#[trigger] v[m]).spelling_rule_idx == Some(j)),
        decreases issues@.len() - k,
    {
        assert(v[k as int] == issues@[k as int]@);
        let ghost before = seen@;
        match issues[k].spelling_rule_idx {
            Some(i) => {
                seen.set(i, true);
                proof {
                    assert forall|j: int| 0 <= j < n implies (#[trigger] seen@[j] == exists|m: int|
                        0 <= m < k + 1 && (#[trigger] v[m]).spelling_rule_idx == Some(j)) by {
                        if j == i {
                            assert(v[k as int].spelling_rule_idx == Some(j));
                        } else {
                            assert(before[j] == seen@[j]);
                        }
                    }
                }
            },
            None => {},
        }
        k = k + 1;
    }
    let mut count: usize = 0;
    let mut j: usize = 0;
    while j < n
        invariant
            j <= n,
            seen@.len() == n,
            count <= j,
            forall|m: int| 0 <= m < n ==> #[trigger] seen@[m] == speaks(v, m),
            count == count_where(0, j as int, rule_speaks(v)),
        decreases n - j,
    {
        if seen[j] {
            count = count + 1;
        }
        j = j + 1;
    }
    count
}

/// The structural passes, the brackets, and the order of the report. Gives the
/// bytes of the phrases that are named.
fn settle(
    em: &mut Emitter<'_>,
    cfg: &ProfileConfig,
    content_type: ContentType,
    idx: &BoundaryIndex,
    structural: StructuralExtras,
) -> (r: (Vec<ByteRange>, Ghost<Seq<IssueModel>>))
    requires
        old(em).wf(),
        idx.fits(old(em).chars().len() as int),
        structural.fits(old(em).chars().len() as int),
    ensures
        final(em).wf(),
        final(em).text == old(em).text,
        final(em).excluded == old(em).excluded,
        brackets_settled(
            old(em).chars(),
            structural_result(
                old(em).chars(),
                old(em).ex(),
                *cfg,
                content_type,
                idx.sentences@,
                idx.paragraphs@,
                &structural,
                old(em).out(),
            ),
            r.1@,
        ),
        by_report(r.1@ + hierarchy_findings(old(em).chars(), old(em).ex()), final(em).out()),
        separate(r.0@),
        forall|b: int| #[trigger]
            covers(r.0@, b) == mention_byte(
                old(em).chars(),
                structural.invisible_chars@,
                styled_findings(
                    old(em).chars(),
                    old(em).ex(),
                    *cfg,
                    content_type,
                    idx.sentences@,
                    idx.paragraphs@,
                    &structural,
                    old(em).out(),
                ),
                b,
            ),
{
    let mentions = run_structural_passes(em, cfg, content_type, idx, structural);
    fix_quote_pairing(&em.text, &mut em.issues);
    let ghost bracketed = em.out();
    validate_quote_hierarchy(em);
    sort_for_report(&mut em.issues);
    (mentions, Ghost(bracketed))
}

/// The density of filler, and the flags of the report.
fn signals_of(text: &Text<'_>, issues: &Vec<Issue>) -> (r: (Option<OralDensity>, Vec<String>))
    requires
        text.wf(),
    ensures
        r.0 == oral_density(text@),
        strings(r.1@) == flags_of_report(text@, models(issues@)),
{
    let oral = compute_oral_density(text);
    let mut flags = build_quality_flags(issues);
    let ghost raised = strings(flags@);
    let high: bool = match oral {
        Some(d) => d.is_high(),
        None => false,
    };
    if high {
        flags.push("high_oral_density".to_owned());
    }
    assert(strings(flags@) =~= raised + flag_if(high, "high_oral_density"@));
    (oral, flags)
}

/// Where the headings and the table cells of a Markdown document lie.
pub struct MarkdownRegions {
    pub headings: Vec<ByteRange>,
    pub cells: Vec<TableCellSpan>,
}

impl MarkdownRegions {
    pub fn none() -> (r: Self)
        ensures
            r.headings@.len() == 0,
            r.cells@.len() == 0,
    {
        MarkdownRegions { headings: Vec::new(), cells: Vec::new() }
    }
}

/// The findings as they weigh in the headings of a document of the kind.
pub open spec fn weighed(
    v: Seq<IssueModel>,
    cfg: ProfileConfig,
    ct: ContentType,
    headings: Seq<ByteRange>,
    w: Seq<IssueModel>,
) -> bool {
    let b = Seq::new(v.len(), |i: int| boosted(v[i], headings));
    if cfg.heading_severity_boost && ct.markdown() && b != v {
        by_report(b, w)
    } else {
        w == v
    }
}

/// The findings with what their places in the document change about them.
pub open spec fn placed(
    v: Seq<IssueModel>,
    cfg: ProfileConfig,
    ct: ContentType,
    regions: &MarkdownRegions,
    out: Seq<IssueModel>,
) -> bool {
    exists|w: Seq<IssueModel>| #[trigger]
        weighed(v, cfg, ct, regions.headings@, w) && out == (if ct.markdown() {
            Seq::new(w.len(), |i: int| annotated(w[i], regions.cells@))
        } else {
            w
        })
}

/// Makes the findings in headings graver and notes the table cells that
/// findings lie in. The order of the report is kept.
pub fn place_findings(
    issues: &mut Vec<Issue>,
    cfg: &ProfileConfig,
    content_type: ContentType,
    regions: &MarkdownRegions,
)
    ensures
        placed(models(old(issues)@), *cfg, content_type, regions, models(final(issues)@)),
{
    let ghost v = models(issues@);
    let ghost headings = regions.headings@;
    if cfg.heading_severity_boost && content_type.is_markdown() {
        let ghost b = Seq::new(v.len(), |i: int| boosted(v[i], headings));
        let ghost before = issues@;
        let changed: bool = boost_heading_severity(issues, regions.headings.as_slice());
        proof {
            assert forall|i: int| 0 <= i < v.len() implies v[i] == (#[trigger] before[i])@ by {}
            assert(models(issues@) =~= b);
            if changed {
                let i = choose|i: int|
                    0 <= i < before.len() && boosted((#[trigger] before[i])@, headings)
                        != before[i]@;
                assert(b[i] != v[i]);
            } else {
                assert forall|i: int| 0 <= i < v.len() implies b[i] == v[i] by {
                    assert(boosted(before[i]@, headings) == before[i]@);
                }
                assert(b =~= v);
            }
        }
        if changed {
            sort_for_report(issues);
        }
    }
    let ghost w = models(issues@);
    assert(weighed(v, *cfg, content_type, headings, w));
    if content_type.is_markdown() {
        annotate_table_cells(issues, regions.cells.as_slice());
        assert(models(issues@) =~= Seq::new(w.len(), |i: int| annotated(w[i], regions.cells@)));
    }
}

/// Two outputs differ in their findings at most.
pub open spec fn same_but_issues(a: &ScanOutput, b: &ScanOutput) -> bool {
    &&& a.detected_script == b.detected_script
    &&& a.coverage == b.coverage
    &&& a.oral_density == b.oral_density
    &&& a.quality_flags == b.quality_flags
    &&& a.mentions == b.mentions
}

/// The output is that of the scan of a document.
pub open spec fn document_scanned(
    db: &CompiledSpellingDb,
    t: Seq<char>,
    ex: Seq<ByteRange>,
    cfg: ProfileConfig,
    stance: PoliticalStance,
    ct: ContentType,
    facts: &DocumentFacts,
    regions: &MarkdownRegions,
    r: &ScanOutput,
) -> bool {
    exists|mid: ScanOutput| #[trigger]
        scanned(db, t, ex, cfg, stance, ct, facts, &mid) && placed(
            models(mid.issues@),
            cfg,
            ct,
            regions,
            models(r.issues@),
        ) && same_but_issues(&mid, r)
}

/// The ranges cover what a document of the kind excludes, and what the caller
/// does.
pub open spec fn excludes(
    t: Seq<char>,
    ranges: &DocumentRanges,
    ct: ContentType,
    cfg: ProfileConfig,
    caller: Seq<ByteRange>,
    ex: Seq<ByteRange>,
) -> bool {
    forall|b: int| #[trigger]
        covers(ex, b) == (excluded_byte(ranges, ct, options_for(ct, cfg), b) || (b < byte_len(t)
            && covers(caller, b)))
}

/// The ranges that the scan of a composed text leaves alone.
pub open spec fn nfc_excludes(
    original: Seq<char>,
    norm: &Normalized,
    prebuilt: Option<Vec<ByteRange>>,
    caller: Seq<ByteRange>,
    ranges: &DocumentRanges,
    ct: ContentType,
    cfg: ProfileConfig,
    ex: Seq<ByteRange>,
) -> bool {
    if prebuilt is Some && !norm.changed() && caller.len() == 0 {
        ex == prebuilt->0@
    } else {
        &&& separate(ex)
        &&& forall|b: int| #[trigger]
            covers(ex, b) == (excluded_byte(ranges, ct, options_for(ct, cfg), b) || carried(
                norm.positions@,
                byte_len(norm.text@),
                caller,
                byte_len(original),
                b,
            ))
    }
}

/// The ranges that the scan of a composed text leaves alone.
fn nfc_exclusions(
    original: &str,
    norm: &Normalized,
    prebuilt: Option<Vec<ByteRange>>,
    caller: &[ByteRange],
    ranges: &DocumentRanges,
    content_type: ContentType,
    cfg: &ProfileConfig,
) -> (r: Vec<ByteRange>)
    requires
        norm.wf(original@),
    ensures
        nfc_excludes(original@, norm, prebuilt, caller@, ranges, content_type, *cfg, r@),
{
    if norm.positions.len() == 0 && caller.len() == 0 {
        if let Some(ranges) = prebuilt {
            return ranges;
        }
    }
    proof {
        lemma_byte_len_is_encoded_len(original@);
        lemma_byte_len_is_encoded_len(norm.text@);
    }
    let len: usize = original.as_bytes().len();
    let n: usize = norm.text.as_str().as_bytes().len();
    let own = build_exclusions_for_content_type_with_config(ranges, content_type, cfg);
    let mapped = forward_ranges(&norm.positions, n, caller, len);
    let r = with_caller_ranges(own, mapped.as_slice(), n);
    proof {
        assert forall|b: int| #[trigger]
            covers(r@, b) == (excluded_byte(
                ranges,
                content_type,
                options_for(content_type, *cfg),
                b,
            ) || carried(
                norm.positions@,
                byte_len(norm.text@),
                caller@,
                byte_len(original@),
                b,
            )) by {
            assert(covers(own@, b) == excluded_byte(
                ranges,
                content_type,
                options_for(content_type, *cfg),
                b,
            ));
            assert(covers(mapped@, b) == carried(
                norm.positions@,
                n as int,
                caller@,
                len as int,
                b,
            ));
        }
    }
    r
}

/// Rules, compiled for scanning.
pub struct Scanner {
    pub spelling_db: CompiledSpellingDb,
    /// Finds the terms of the case rules, in whatever case they are written.
    pub case_ac: Option<AhoCorasick>,
    pub case_rules: Vec<CaseRule>,
    /// The types of rules that were left out.
    pub build_filter: ProfileFilter,
    /// Phrases that belong to detectors rather than to the lexical pass. They
    /// come from all rules, also from those of a type that was left out.
    pub guards: GuardRules,
    /// The rules that the scanner was made of.
    pub given: Ghost<Seq<RuleModel>>,
}

impl Scanner {
    pub open spec fn wf(&self) -> bool {
        &&& self.spelling_db.wf()
        &&& self.guards.of(self.given@)
        &&& self.case_ac matches Some(ac) ==> finds_terms(ac, case_models(self.case_rules@))
    }

    /// A document can be scanned: no rule's phrase is empty.
    pub open spec fn searchable(&self) -> bool {
        self.wf() && self.spelling_db.searchable()
    }

    /// Whether a document can be scanned. An empty phrase would stand between
    /// the bytes of a character.
    pub fn is_searchable(&self) -> (r: bool)
        requires
            self.wf(),
        ensures
            r == self.searchable(),
    {
        let rules = &self.spelling_db.spelling_rules;
        let mut i: usize = 0;
        while i < rules.len()
            invariant
                self.wf(),
                *rules == self.spelling_db.spelling_rules,
                i <= rules@.len(),
                forall|k: int| 0 <= k < i ==> (#[trigger] self.rules()[k]).sound(),
            decreases rules@.len() - i,
        {
            assert(self.rules()[i as int] == rules@[i as int]@);
            if !rules[i].is_sound() {
                return false;
            }
            i = i + 1;
        }
        assert(all_sound(self.rules()));
        true
    }

    /// The case rules are those of a list that are not switched off, and their
    /// automaton is there where it can be built.
    pub open spec fn cased(&self, v: Seq<CaseModel>) -> bool {
        &&& case_models(self.case_rules@) == switched_on(v, v.len() as int)
        &&& self.case_ac is Some == bytewise_builds(
            case_texts(case_models(self.case_rules@)),
            true,
            true,
        )
    }

    /// The rules that were compiled.
    pub open spec fn rules(&self) -> Seq<RuleModel> {
        self.spelling_db.models()
    }

    /// Compiles the rules.
    pub fn new(spelling_rules: Vec<SpellingRule>, case_rules: Vec<CaseRule>) -> (r: Self)
        ensures
            r.wf(),
            all_sound(rule_models(spelling_rules@)) ==> r.searchable(),
            r.given@ == rule_models(spelling_rules@),
            r.rules() == prepared(
                rule_models(spelling_rules@),
                ProfileFilter {
                    exclude_variant: false,
                    exclude_ai_filler: false,
                    exclude_translationese: false,
                    exclude_spelling: false,
                },
            ),
            r.spelling_db.built(),
            r.guards.gathered(rule_models(spelling_rules@)),
            r.cased(case_models(case_rules@)),
            forall|t: RuleType| !#[trigger] r.build_filter.excludes(t),
    {
        Self::new_filtered(spelling_rules, case_rules, &ProfileFilter::none())
    }

    /// Compiles the rules but for those of types that are left out. A scan
    /// cannot bring those back.
    pub fn new_filtered(
        spelling_rules: Vec<SpellingRule>,
        case_rules: Vec<CaseRule>,
        filter: &ProfileFilter,
    ) -> (r: Self)
        ensures
            r.wf(),
            all_sound(rule_models(spelling_rules@)) ==> r.searchable(),
            r.given@ == rule_models(spelling_rules@),
            r.rules() == prepared(rule_models(spelling_rules@), *filter),
            r.spelling_db.built(),
            r.guards.gathered(rule_models(spelling_rules@)),
            r.cased(case_models(case_rules@)),
            r.build_filter == *filter,
    {
        let ghost all = rule_models(spelling_rules@);
        let guards = GuardRules::build(&spelling_rules);
        let spelling_db = compile_spelling_rules_filtered(spelling_rules, filter);
        let mut case_rules = case_rules;
        drop_disabled(&mut case_rules);
        let case_ac = build_case_automaton(&case_rules);
        Scanner {
            spelling_db,
            case_ac,
            case_rules,
            build_filter: *filter,
            guards,
            given: Ghost(all),
        }
    }

    /// The rules that were compiled.
    pub fn spelling_rules(&self) -> (r: &Vec<SpellingRule>)
        ensures
            rule_models(r@) == self.rules(),
    {
        &self.spelling_db.spelling_rules
    }

    /// The charwise automaton, where it could be built.
    pub fn ac_charwise(&self) -> (r: Option<&CharwiseDoubleArrayAhoCorasick<usize>>)
        ensures
            r is Some == self.spelling_db.automata.ac_charwise is Some,
            r matches Some(ac) ==> *ac == self.spelling_db.automata.ac_charwise->0,
    {
        self.spelling_db.automata.ac_charwise.as_ref()
    }

    /// The phrases of a detector, where it has any.
    pub fn guard(&self, name: &str) -> (r: Option<&StructuralGuard>)
        requires
            self.wf(),
        ensures
            r is Some == self.guards.has(name@),
            r matches Some(g) ==> g.wf() && g.said().len() > 0 && guarded(
                self.given@,
                name@,
                self.given@.len() as int,
                g.said(),
            ),
    {
        self.guards.get(name, Ghost(self.given@))
    }

    /// Does without the charwise automaton, where the bytewise one can be
    /// built; else the scanner stays as it is. Both find the same matches, and
    /// nothing but the automata changes.
    pub fn force_bytewise(&mut self)
        requires
            old(self).wf(),
        ensures
            final(self).wf(),
            old(self).searchable() ==> final(self).searchable(),
            final(self).rules() == old(self).rules(),
            final(self).spelling_db == (CompiledSpellingDb {
                automata: final(self).spelling_db.automata,
                ..old(self).spelling_db
            }),
            final(self).guards == old(self).guards,
            final(self).given == old(self).given,
            final(self).case_rules == old(self).case_rules,
            final(self).case_ac == old(self).case_ac,
            final(self).build_filter == old(self).build_filter,
            if old(self).spelling_db.automata.ac_bytewise is None && bytewise_builds(
                patterns(old(self).rules()),
                true,
                false,
            ) {
                &&& final(self).spelling_db.automata.ac_charwise is None
                &&& final(self).spelling_db.automata.ac_bytewise is Some
                &&& final(self).spelling_db.automata.absorber_strings
                    == old(self).spelling_db.automata.absorber_strings
            } else {
                *final(self) == *old(self)
            },
    {
        let ghost before = self.spelling_db;
        self.spelling_db.automata.use_bytewise(&self.spelling_db.spelling_rules);
        proof {
            let v = before.models();
            assert forall|i: int| 0 <= i < v.len() implies #[trigger] self.spelling_db.compiled(
                i,
            ) by {
                assert(before.compiled(i));
            }
        }
    }

    /// The profile asks for no type of rules that was left out.
    pub open spec fn within_build(&self, cfg: ProfileConfig) -> bool {
        &&& !(self.build_filter.exclude_variant && cfg.variant_normalization)
        &&& !(self.build_filter.exclude_ai_filler && cfg.ai_filler_detection)
        &&& !(self.build_filter.exclude_translationese && cfg.translationese_detection)
    }

    /// Whether the profile asks for no type of rules that was left out. Where
    /// it does, the scan finds nothing of that type.
    pub fn config_within_build(&self, cfg: &ProfileConfig) -> (r: bool)
        ensures
            r == self.within_build(*cfg),
    {
        !(self.build_filter.exclude_variant && cfg.variant_normalization)
            && !(self.build_filter.exclude_ai_filler && cfg.ai_filler_detection) && !(
        self.build_filter.exclude_translationese && cfg.translationese_detection)
    }

    /// How many rules the profile consults.
    pub fn count_active_spelling_rules(&self, cfg: &ProfileConfig) -> (r: usize)
        ensures
            r == active_rules(*cfg, self.rules()),
    {
        let ghost v = self.rules();
        if !cfg.spelling {
            return 0;
        }
        let n: usize = self.spelling_db.spelling_rules.len();
        let mut count: usize = 0;
        let mut i: usize = 0;
        while i < n
            invariant
                v == self.rules(),
                n == v.len(),
                i <= n,
                count <= i,
                count == count_where(0, i as int, rule_consulted(*cfg, v)),
            decreases n - i,
        {
            let rule = &self.spelling_db.spelling_rules[i];
            assert(v[i as int] == rule@);
            let on: bool = match rule.rule_type {
                RuleType::Variant => cfg.variant_normalization,
                RuleType::AiFiller => cfg.ai_filler_detection,
                RuleType::Translationese => cfg.translationese_detection,
                _ => true,
            };
            if on {
                count = count + 1;
            }
            i = i + 1;
        }
        count
    }

    /// The passes over the text itself, up to the findings that are kept.
    fn scan_text(
        &self,
        em: &mut Emitter<'_>,
        cfg: &ProfileConfig,
        stance: &PoliticalStance,
        script: ChineseType,
        straddles: &Vec<bool>,
        lexical: LexicalExtras,
        clue_buf: &mut Vec<(usize, u16)>,
        Ghost(facts): Ghost<&DocumentFacts>,
    ) -> (r: Ghost<Course>)
        requires
            self.searchable(),
            old(em).wf(),
            old(em).out().len() == 0,
            facts.fits(old(em).chars()),
            facts.script == script,
            facts.straddles == *straddles,
            facts.lexical == lexical,
        ensures
            final(em).wf(),
            final(em).text == old(em).text,
            final(em).excluded == old(em).excluded,
            final(em).out() == r@.survivors,
            lexical_course(
                &self.spelling_db,
                old(em).chars(),
                old(em).ex(),
                *cfg,
                *stance,
                facts,
                r@,
            ),
            all_well_founded(
                &self.spelling_db,
                old(em).chars(),
                *cfg,
                *stance,
                script,
                r@.survivors,
            ),
    {
        let ghost t = em.chars();
        let ghost ex = em.ex();
        let hits: Vec<Hit> = if cfg.spelling {
            spelling_hits(&self.spelling_db, em.text.source())
        } else {
            Vec::new()
        };
        run_lexical_passes(
            &self.spelling_db,
            em,
            script,
            cfg,
            stance,
            clue_buf,
            &hits,
            straddles.as_slice(),
            lexical,
        );
        let ghost found = em.out();
        proof {
            assert(found =~= lexical_findings(
                t,
                ex,
                *cfg,
                spelling_findings(
                    &self.spelling_db,
                    t,
                    ex,
                    *cfg,
                    *stance,
                    script,
                    hits@,
                    straddles@,
                ),
                &lexical,
            ));
        }
        sort_by_span(&mut em.issues);
        let ghost spanned = em.out();
        resolve_overlaps(&mut em.issues);
        let ghost survivors = em.out();
        let ghost course = Course {
            hits: hits@,
            spanned,
            survivors,
            bracketed: Seq::empty(),
        };
        proof {
            lemma_survivors_founded(&self.spelling_db, t, ex, *cfg, *stance, facts, course);
        }
        Ghost(course)
    }

    /// Fills in the texts of the findings that are kept, and counts the rules
    /// that they come from.
    fn fill(
        &self,
        em: &mut Emitter<'_>,
        cfg: &ProfileConfig,
        Ghost(stance): Ghost<PoliticalStance>,
        Ghost(script): Ghost<ChineseType>,
    ) -> (matched: usize)
        requires
            self.searchable(),
            old(em).wf(),
            all_well_founded(
                &self.spelling_db,
                old(em).chars(),
                *cfg,
                stance,
                script,
                old(em).out(),
            ),
        ensures
            final(em).wf(),
            final(em).text == old(em).text,
            final(em).excluded == old(em).excluded,
            final(em).out() == filled(
                &self.spelling_db,
                old(em).chars(),
                old(em).ex(),
                *cfg,
                old(em).out(),
            ),
            matched == rules_speaking(old(em).out(), self.rules().len() as int),
    {
        let ghost db = &self.spelling_db;
        let ghost t = em.chars();
        let ghost survivors = em.out();
        proof {
            assert forall|k: int| 0 <= k < em.issues@.len() implies ((
            #[trigger] em.issues@[k]).spelling_rule_idx matches Some(i) ==> i
                < self.rules().len()) by {
                assert(survivors[k] == em.issues@[k]@);
                assert(well_founded(db, t, *cfg, stance, script, survivors[k]));
            }
            assert forall|k: int| 0 <= k < em.issues@.len() implies inflatable(
                db,
                t,
                (#[trigger] em.issues@[k])@,
            ) by {
                assert(survivors[k] == em.issues@[k]@);
                assert(well_founded(db, t, *cfg, stance, script, survivors[k]));
            }
        }
        let n: usize = self.spelling_db.spelling_rules.len();
        let matched: usize = count_speaking(&em.issues, n);
        if cfg.offset_only {
            inflate_spelling_issues_compact(
                &self.spelling_db,
                &em.text,
                em.excluded.as_slice(),
                &mut em.issues,
            );
        } else {
            inflate_spelling_issues(
                &self.spelling_db,
                &em.text,
                em.excluded.as_slice(),
                &mut em.issues,
            );
        }
        assert(em.out() =~= filled(db, t, em.ex(), *cfg, survivors));
        matched
    }

    /// Scans a text of the kind: the passes over the text itself, which of
    /// their findings are kept, the structural passes, the brackets, and the
    /// order of the report.
    #[verifier::spinoff_prover]
    #[verifier::rlimit(40)]
    pub fn scan_with_config_into_content_type(
        &self,
        text: &str,
        excluded: Vec<ByteRange>,
        cfg: &ProfileConfig,
        stance: &PoliticalStance,
        content_type: ContentType,
        facts: DocumentFacts,
        scratch: &mut ScratchSpace,
    ) -> (r: ScanOutput)
        requires
            self.searchable(),
            facts.fits(text@),
        ensures
            scanned(
                &self.spelling_db,
                text@,
                excluded@,
                *cfg,
                *stance,
                content_type,
                &facts,
                &r,
            ),
            final(scratch).issues@.len() == 0,
    {
        let ghost given = &facts;
        scratch.clear();
        let rules_checked: usize = self.count_active_spelling_rules(cfg);
        let mut em = Emitter::new(text, excluded);
        if em.text.len() == 0 {
            return ScanOutput {
                issues: Vec::new(),
                detected_script: ChineseType::Unknown,
                coverage: Some(CoverageReport { rules_checked, rules_matched: 0 }),
                oral_density: None,
                quality_flags: Vec::new(),
                mentions: Vec::new(),
            };
        }
        std::mem::swap(&mut em.issues, &mut scratch.issues);
        assert(em.out() =~= Seq::empty());
        let DocumentFacts { script, straddles, bounds, lexical, structural } = facts;
        let course = self.scan_text(
            &mut em,
            cfg,
            stance,
            script,
            &straddles,
            lexical,
            &mut scratch.clue_index,
            Ghost(given),
        );
        let rules_matched: usize = self.fill(&mut em, cfg, Ghost(*stance), Ghost(script));
        let (mentions, rest) = settle(&mut em, cfg, content_type, &bounds, structural);
        let (oral, flags) = signals_of(&em.text, &em.issues);
        let issues = em.into_issues();
        let r = ScanOutput {
            issues,
            detected_script: script,
            coverage: Some(CoverageReport { rules_checked, rules_matched }),
            oral_density: oral,
            quality_flags: flags,
            mentions,
        };
        proof {
            let c = Course {
                bracketed: rest@,
                ..course@
            };
            assert(lexical_course(
                &self.spelling_db,
                text@,
                excluded@,
                *cfg,
                *stance,
                given,
                c,
            ));
            assert(reports(
                &self.spelling_db,
                text@,
                excluded@,
                *cfg,
                *stance,
                content_type,
                given,
                c,
                &r,
            ));
        }
        r
    }

    /// Scans plain text, with buffers that are used again.
    pub fn scan_with_config_into(
        &self,
        text: &str,
        excluded: Vec<ByteRange>,
        cfg: &ProfileConfig,
        stance: &PoliticalStance,
        facts: DocumentFacts,
        scratch: &mut ScratchSpace,
    ) -> (r: ScanOutput)
        requires
            self.searchable(),
            facts.fits(text@),
        ensures
            scanned(
                &self.spelling_db,
                text@,
                excluded@,
                *cfg,
                *stance,
                ContentType::Plain,
                &facts,
                &r,
            ),
            final(scratch).issues@.len() == 0,
    {
        self.scan_with_config_into_content_type(
            text,
            excluded,
            cfg,
            stance,
            ContentType::Plain,
            facts,
            scratch,
        )
    }

    /// Scans plain text.
    pub fn scan_with_config(
        &self,
        text: &str,
        excluded: Vec<ByteRange>,
        cfg: &ProfileConfig,
        stance: &PoliticalStance,
        facts: DocumentFacts,
    ) -> (r: ScanOutput)
        requires
            self.searchable(),
            facts.fits(text@),
        ensures
            scanned(
                &self.spelling_db,
                text@,
                excluded@,
                *cfg,
                *stance,
                ContentType::Plain,
                &facts,
                &r,
            ),
    {
        let mut scratch = ScratchSpace::new();
        self.scan_with_config_into(text, excluded, cfg, stance, facts, &mut scratch)
    }

    /// Scans a document of the kind with what it excludes by itself and by its
    /// profile.
    pub fn scan_for_content_type_with_config(
        &self,
        text: &str,
        ranges: &DocumentRanges,
        content_type: ContentType,
        cfg: &ProfileConfig,
        stance: &PoliticalStance,
        facts: DocumentFacts,
        regions: &MarkdownRegions,
    ) -> (r: ScanOutput)
        requires
            self.searchable(),
            facts.fits(text@),
        ensures
            exists|ex: Seq<ByteRange>|
                #![trigger separate(ex)]
                separate(ex) && excludes(text@, ranges, content_type, *cfg, Seq::empty(), ex)
                    && document_scanned(
                    &self.spelling_db,
                    text@,
                    ex,
                    *cfg,
                    *stance,
                    content_type,
                    &facts,
                    regions,
                    &r,
                ),
    {
        let none: Vec<ByteRange> = Vec::new();
        assert(none@ =~= Seq::empty());
        self.scan_for_content_type_with_extra_excluded(
            text,
            ranges,
            none.as_slice(),
            content_type,
            cfg,
            stance,
            facts,
            regions,
        )
    }

    /// As [`Scanner::scan_for_content_type_with_config`], with ranges that the
    /// caller knows not to be prose. They need not be in order; one that is
    /// empty, the wrong way round or behind the end of the text counts for
    /// nothing.
    pub fn scan_for_content_type_with_extra_excluded(
        &self,
        text: &str,
        ranges: &DocumentRanges,
        extra_excluded: &[ByteRange],
        content_type: ContentType,
        cfg: &ProfileConfig,
        stance: &PoliticalStance,
        facts: DocumentFacts,
        regions: &MarkdownRegions,
    ) -> (r: ScanOutput)
        requires
            self.searchable(),
            facts.fits(text@),
        ensures
            exists|ex: Seq<ByteRange>|
                #![trigger separate(ex)]
                separate(ex) && excludes(
                    text@,
                    ranges,
                    content_type,
                    *cfg,
                    extra_excluded@,
                    ex,
                ) && document_scanned(
                    &self.spelling_db,
                    text@,
                    ex,
                    *cfg,
                    *stance,
                    content_type,
                    &facts,
                    regions,
                    &r,
                ),
    {
        let own = build_exclusions_for_content_type_with_config(ranges, content_type, cfg);
        proof {
            lemma_byte_len_is_encoded_len(text@);
        }
        let len: usize = text.as_bytes().len();
        let excluded = with_caller_ranges(own, extra_excluded, len);
        assert(excludes(text@, ranges, content_type, *cfg, extra_excluded@, excluded@));
        assert(separate(excluded@));
        self.scan_with_prebuilt_excluded_config(
            text,
            excluded,
            content_type,
            cfg,
            stance,
            facts,
            regions,
        )
    }

    /// Scans a document of the kind with the ranges that it excludes given.
    pub fn scan_with_prebuilt_excluded_config(
        &self,
        text: &str,
        excluded: Vec<ByteRange>,
        content_type: ContentType,
        cfg: &ProfileConfig,
        stance: &PoliticalStance,
        facts: DocumentFacts,
        regions: &MarkdownRegions,
    ) -> (r: ScanOutput)
        requires
            self.searchable(),
            facts.fits(text@),
        ensures
            document_scanned(
                &self.spelling_db,
                text@,
                excluded@,
                *cfg,
                *stance,
                content_type,
                &facts,
                regions,
                &r,
            ),
    {
        let mut scratch = ScratchSpace::new();
        let mut r = self.scan_with_config_into_content_type(
            text,
            excluded,
            cfg,
            stance,
            content_type,
            facts,
            &mut scratch,
        );
        let ghost before = r;
        place_findings(&mut r.issues, cfg, content_type, regions);
        assert(same_but_issues(&before, &r));
        r
    }

    /// Scans the composed form of a document, and reports on the document as it
    /// stands. Ranges that were built for the document beforehand hold where
    /// composing it changed nothing and the caller knows of no others; else they
    /// are built for the composed form, for which `ranges` gives what there is
    /// to exclude.
    pub fn scan_nfc_with_content_type(
        &self,
        original: &str,
        norm: &Normalized,
        prebuilt: Option<Vec<ByteRange>>,
        caller_excluded: &[ByteRange],
        ranges: &DocumentRanges,
        content_type: ContentType,
        cfg: &ProfileConfig,
        stance: &PoliticalStance,
        facts: DocumentFacts,
        regions: &MarkdownRegions,
    ) -> (r: ScanOutput)
        requires
            self.searchable(),
            norm.wf(original@),
            facts.fits(norm.text@),
        ensures
            exists|ex: Seq<ByteRange>, mid: ScanOutput|
                #![trigger nfc_excludes(
                    original@,
                    norm,
                    prebuilt,
                    caller_excluded@,
                    ranges,
                    content_type,
                    *cfg,
                    ex,
                ), same_but_issues(&mid, &r)]
                {
                    &&& nfc_excludes(
                        original@,
                        norm,
                        prebuilt,
                        caller_excluded@,
                        ranges,
                        content_type,
                        *cfg,
                        ex,
                    )
                    &&& scanned(
                        &self.spelling_db,
                        norm.text@,
                        ex,
                        *cfg,
                        *stance,
                        content_type,
                        &facts,
                        &mid,
                    )
                    &&& same_but_issues(&mid, &r)
                    &&& placed(
                        traced_back(norm, original@, models(mid.issues@)),
                        *cfg,
                        content_type,
                        regions,
                        models(r.issues@),
                    )
                },
    {
        let excluded = nfc_exclusions(
            original,
            norm,
            prebuilt,
            caller_excluded,
            ranges,
            content_type,
            cfg,
        );
        let mut scratch = ScratchSpace::new();
        let mut r = self.scan_with_config_into_content_type(
            norm.text.as_str(),
            excluded,
            cfg,
            stance,
            content_type,
            facts,
            &mut scratch,
        );
        let ghost mid = r;
        let text = Text::new(original);
        trace_back(norm, &text, &mut r.issues);
        place_findings(&mut r.issues, cfg, content_type, regions);
        assert(same_but_issues(&mid, &r));
        r
    }

    /// What the passes over the text itself find, neither put in order nor
    /// settled.
    pub fn bench_collect_raw_issues(
        &self,
        text: &str,
        excluded: Vec<ByteRange>,
        cfg: &ProfileConfig,
        stance: &PoliticalStance,
        script: ChineseType,
        extras: LexicalExtras,
    ) -> (r: Vec<Issue>)
        requires
            self.searchable(),
        ensures
            exists|hits: Seq<Hit>| #[trigger]
                spelling_matches(&self.spelling_db, text@, hits) && models(r@)
                    == raw_findings(
                    text@,
                    excluded@,
                    *cfg,
                    spelling_findings(
                        &self.spelling_db,
                        text@,
                        excluded@,
                        *cfg,
                        *stance,
                        script,
                        hits,
                        Seq::empty(),
                    ),
                    &extras,
                ),
    {
        let ghost t = text@;
        let ghost ex = excluded@;
        let ghost given = &extras;
        let mut em = Emitter::new(text, excluded);
        let hits = spelling_hits(&self.spelling_db, text);
        let straddles: Vec<bool> = Vec::new();
        assert(straddles@ =~= Seq::empty());
        let mut clue_buf: Vec<(usize, u16)> = Vec::new();
        let ghost spelled = spelling_findings(
            &self.spelling_db,
            t,
            ex,
            *cfg,
            *stance,
            script,
            hits@,
            Seq::empty(),
        );
        if cfg.spelling {
            scan_spelling(
                &self.spelling_db,
                &mut em,
                script,
                cfg,
                stance,
                &mut clue_buf,
                &hits,
                straddles.as_slice(),
            );
        }
        assert(em.out() =~= if_on(cfg.spelling, spelled));
        run_raw_marks(&mut em, cfg, extras);
        assert(em.out() =~= raw_findings(t, ex, *cfg, spelled, given));
        em.into_issues()
    }

    /// How many findings the rules alone make, before any is settled.
    pub fn bench_spelling_only_raw(
        &self,
        text: &str,
        excluded: Vec<ByteRange>,
        cfg: &ProfileConfig,
        stance: &PoliticalStance,
        script: ChineseType,
    ) -> (r: usize)
        requires
            self.searchable(),
        ensures
            exists|hits: Seq<Hit>| #[trigger]
                spelling_matches(&self.spelling_db, text@, hits) && r == spelling_findings(
                    &self.spelling_db,
                    text@,
                    excluded@,
                    *cfg,
                    *stance,
                    script,
                    hits,
                    Seq::empty(),
                ).len(),
    {
        let mut em = Emitter::new(text, excluded);
        let mut clue_buf: Vec<(usize, u16)> = Vec::new();
        let hits = spelling_hits(&self.spelling_db, text);
        let straddles: Vec<bool> = Vec::new();
        assert(straddles@ =~= Seq::empty());
        scan_spelling(
            &self.spelling_db,
            &mut em,
            script,
            cfg,
            stance,
            &mut clue_buf,
            &hits,
            straddles.as_slice(),
        );
        em.issues.len()
    }

    /// Puts the findings in order and resolves their overlaps.
    pub fn bench_sort_and_overlap(issues: &mut Vec<Issue>)
        ensures
            exists|spanned: Seq<IssueModel>| #[trigger]
                by_span(models(old(issues)@), spanned) && resolved(spanned, models(final(issues)@)),
    {
        sort_by_span(issues);
        let ghost spanned = models(issues@);
        resolve_overlaps(issues);
        assert(by_span(models(old(issues)@), spanned));
    }

    /// Fills in the texts of the spelling findings.
    pub fn bench_inflate(&self, text: &Text<'_>, issues: &mut Vec<Issue>)
        requires
            self.searchable(),
            text.wf(),
            forall|i: int|
                0 <= i < old(issues)@.len() ==> inflatable(
                    &self.spelling_db,
                    text@,
                    (#[trigger] old(issues)@[i])@,
                ),
        ensures
            models(final(issues)@) == Seq::new(
                old(issues)@.len(),
                |i: int|
                    inflated_by(
                        &self.spelling_db,
                        text@,
                        Seq::empty(),
                        false,
                        old(issues)@[i]@,
                    ),
            ),
    {
        let none: Vec<ByteRange> = Vec::new();
        assert(none@ =~= Seq::empty());
        inflate_spelling_issues(&self.spelling_db, text, none.as_slice(), issues);
    }
}

proof fn lemma_lexical_determined(
    db: &CompiledSpellingDb,
    t: Seq<char>,
    ex: Seq<ByteRange>,
    cfg: ProfileConfig,
    stance: PoliticalStance,
    facts: &DocumentFacts,
    c: Course,
    d: Course,
)
    requires
        db.searchable(),
        lexical_course(db, t, ex, cfg, stance, facts, c),
        lexical_course(db, t, ex, cfg, stance, facts, d),
    ensures
        c.survivors == d.survivors,
{
    if cfg.spelling {
        law_spelling_matches_are_determined(db, t, c.hits, d.hits);
    } else {
        assert(c.hits =~= d.hits);
    }
    let found = lexical_findings(
        t,
        ex,
        cfg,
        spelling_findings(db, t, ex, cfg, stance, facts.script, c.hits, facts.straddles@),
        &facts.lexical,
    );
    law_listing_is_determined(found, |m: IssueModel| span_rank(m), c.spanned, d.spanned);
    law_resolution_is_determined(c.spanned, c.survivors, d.survivors);
}

proof fn lemma_runs_agree(
    db: &CompiledSpellingDb,
    t: Seq<char>,
    ex: Seq<ByteRange>,
    cfg: ProfileConfig,
    stance: PoliticalStance,
    ct: ContentType,
    facts: &DocumentFacts,
    c: Course,
    d: Course,
    x: Seq<IssueModel>,
    y: Seq<IssueModel>,
)
    requires
        db.searchable(),
        runs(db, t, ex, cfg, stance, ct, facts, c, x),
        runs(db, t, ex, cfg, stance, ct, facts, d, y),
    ensures
        c.survivors == d.survivors,
        x == y,
{
    lemma_lexical_determined(db, t, ex, cfg, stance, facts, c, d);
    let made = structural_result(
        t,
        ex,
        cfg,
        ct,
        facts.bounds.sentences@,
        facts.bounds.paragraphs@,
        &facts.structural,
        filled(db, t, ex, cfg, c.survivors),
    );
    law_brackets_are_determined(t, made, c.bracketed, d.bracketed);
    law_listing_is_determined(
        c.bracketed + hierarchy_findings(t, ex),
        |m: IssueModel| report_rank(m),
        x,
        y,
    );
}

/// A scan says the same of a document each time, and whichever automaton finds
/// the phrases.
pub proof fn law_scan_is_determined(
    db: &CompiledSpellingDb,
    t: Seq<char>,
    ex: Seq<ByteRange>,
    cfg: ProfileConfig,
    stance: PoliticalStance,
    ct: ContentType,
    facts: &DocumentFacts,
    a: &ScanOutput,
    b: &ScanOutput,
)
    requires
        db.searchable(),
        scanned(db, t, ex, cfg, stance, ct, facts, a),
        scanned(db, t, ex, cfg, stance, ct, facts, b),
    ensures
        models(a.issues@) == models(b.issues@),
        a.detected_script == b.detected_script,
        a.coverage == b.coverage,
        a.oral_density == b.oral_density,
        strings(a.quality_flags@) == strings(b.quality_flags@),
        a.mentions@ == b.mentions@,
{
    if t.len() == 0 {
        assert(models(a.issues@) =~= models(b.issues@));
        assert(strings(a.quality_flags@) =~= strings(b.quality_flags@));
        assert(a.mentions@ =~= b.mentions@);
    } else {
        let c = choose|c: Course| #[trigger] reports(db, t, ex, cfg, stance, ct, facts, c, a);
        let d = choose|d: Course| #[trigger] reports(db, t, ex, cfg, stance, ct, facts, d, b);
        lemma_runs_agree(
            db,
            t,
            ex,
            cfg,
            stance,
            ct,
            facts,
            c,
            d,
            models(a.issues@),
            models(b.issues@),
        );
        assert(same_cover(a.mentions@, b.mentions@)) by {
            assert forall|x: int| #[trigger] covers(a.mentions@, x) == covers(b.mentions@, x) by {
                assert(named_byte(db, t, ex, cfg, ct, facts, c, x) == named_byte(
                    db,
                    t,
                    ex,
                    cfg,
                    ct,
                    facts,
                    d,
                    x,
                ));
            }
        }
        law_merged_form_is_determined(a.mentions@, b.mentions@);
    }
}

proof fn lemma_fewer(n: int, f: spec_fn(int) -> bool, g: spec_fn(int) -> bool)
    requires
        forall|i: int| 0 <= i < n && #[trigger] f(i) ==> g(i),
    ensures
        count_where(0, n, f) <= count_where(0, n, g),
    decreases n,
{
    if n > 0 {
        lemma_fewer(n - 1, f, g);
        assert(f(n - 1) ==> g(n - 1));
    }
}

proof fn lemma_none_counted(n: int, f: spec_fn(int) -> bool)
    requires
        forall|i: int| 0 <= i < n ==> !#[trigger] f(i),
    ensures
        count_where(0, n, f) == 0,
    decreases n,
{
    if n > 0 {
        lemma_none_counted(n - 1, f);
        assert(!f(n - 1));
    }
}

proof fn lemma_speaking_are_consulted(
    db: &CompiledSpellingDb,
    t: Seq<char>,
    ex: Seq<ByteRange>,
    cfg: ProfileConfig,
    stance: PoliticalStance,
    facts: &DocumentFacts,
    c: Course,
)
    requires
        db.searchable(),
        facts.fits(t),
        lexical_course(db, t, ex, cfg, stance, facts, c),
    ensures
        rules_speaking(c.survivors, db.models().len() as int) <= active_rules(cfg, db.models()),
        active_rules(cfg, db.models()) <= db.models().len(),
{
    let v = db.models();
    let n = v.len() as int;
    lemma_survivors_founded(db, t, ex, cfg, stance, facts, c);
    let f = rule_speaks(c.survivors);
    let g = rule_consulted(cfg, v);
    lemma_count_where_bound(0, n, f);
    lemma_count_where_bound(0, n, g);
    assert forall|i: int| 0 <= i < n && #[trigger] f(i) implies g(i) && cfg.spelling by {
        let k = choose|k: int|
            0 <= k < c.survivors.len() && (#[trigger] c.survivors[k]).spelling_rule_idx
                == Some(i);
        assert(well_founded(db, t, cfg, stance, facts.script, c.survivors[k]));
    }
    if cfg.spelling {
        lemma_fewer(n, f, g);
    } else {
        lemma_none_counted(n, f);
    }
}

/// No more rules make a finding than were consulted.
#[verifier::spinoff_prover]
#[verifier::rlimit(40)]
pub proof fn law_coverage_is_a_share(
    db: &CompiledSpellingDb,
    t: Seq<char>,
    ex: Seq<ByteRange>,
    cfg: ProfileConfig,
    stance: PoliticalStance,
    ct: ContentType,
    facts: &DocumentFacts,
    r: &ScanOutput,
)
    requires
        db.searchable(),
        facts.fits(t),
        scanned(db, t, ex, cfg, stance, ct, facts, r),
    ensures
        r.coverage is Some,
        r.coverage->0.rules_matched <= r.coverage->0.rules_checked,
{
    if t.len() > 0 {
        let c = choose|c: Course| #[trigger] reports(db, t, ex, cfg, stance, ct, facts, c, r);
        lemma_speaking_are_consulted(db, t, ex, cfg, stance, facts, c);
        assert(db.models().len() == db.spelling_rules.len());
    }
}

/// A scanner that leaves out what a profile has switched off can be asked for
/// that profile, and leaves out no rule that the profile would hear.
pub proof fn law_a_profile_misses_nothing_it_hears(
    scanner: &Scanner,
    cfg: ProfileConfig,
    stance: PoliticalStance,
    zh_type: ChineseType,
    m: RuleModel,
)
    requires
        scanner.build_filter.exclude_variant ==> !cfg.variant_normalization,
        scanner.build_filter.exclude_ai_filler ==> !cfg.ai_filler_detection,
        scanner.build_filter.exclude_translationese ==> !cfg.translationese_detection,
        scanner.build_filter.exclude_spelling ==> !cfg.spelling,
    ensures
        scanner.within_build(cfg),
        scanner.build_filter.excludes(m.rule_type) ==> !heard(cfg, stance, zh_type, m),
{
}

} // verus!
