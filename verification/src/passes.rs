//! The passes over a document, in their order.
use vstd::prelude::*;

use crate::automaton::Hit;
use crate::bounds::{Bound, BoundaryIndex, Paragraph};
use crate::content::ContentType;
use crate::database::CompiledSpellingDb;
use crate::emit::{ByteRange, Emitter};
use crate::grammar::ai::{
    invisible_rule, phase2_findings, scan_ai_structural, scan_ai_structural_phase2,
    scan_ai_zero_width, structural_findings, Invisible,
};
use crate::grammar::ai_phrase::{
    ai_grammar_findings, density_findings, scan_ai_density, scan_ai_grammar,
};
use crate::grammar::calque::{lexical_findings as calque_findings, scan_translationese_lexical};
use crate::grammar::rhythm::{rhythm_findings, scan_rhythm};
use crate::grammar::translationese::{
    indexed_findings, scan_translationese_indexed, scan_translationese_syntactic,
    syntactic_findings,
};
use crate::issue::{models, Issue, IssueModel, Register};
use crate::keep::kept;
use crate::marks::{
    commas, curly_issues, dunhao_rule, range_rule, scan_cn_curly_quotes, scan_dunhao,
    scan_range_indicators,
};
use crate::mentions::{drop_mentioned_style_findings, mention_byte, used};
use crate::phases::{deduplicated, dedup_translationese_phase_duplicates};
use crate::profile::ProfileConfig;
use crate::punctuation::{punctuation_rule, scan_punctuation, whole_plan};
use crate::quotes::QuoteKind;
use crate::ranges::{covers, separate};
use crate::register::{register_under, resolve_register};
use crate::rules::{ChineseType, PoliticalStance};
use crate::spacing::{scan_spacing, spacing_rule};
use crate::spelling::{scan_spelling, spelling_matches, spelling_rule};
use crate::walk::each;

verus! {

/// What a pass finds, where it runs.
pub open spec fn if_on(b: bool, found: Seq<IssueModel>) -> Seq<IssueModel> {
    if b {
        found
    } else {
        Seq::empty()
    }
}

/// What detectors outside this library found in the text itself.
pub struct LexicalExtras {
    /// Terms in the wrong case.
    pub casing: Vec<Issue>,
    /// Dots in place of an ellipsis.
    pub ellipsis: Vec<Issue>,
    /// Words said twice.
    pub repetition: Vec<Issue>,
    /// Acronyms with spaces in them.
    pub acronyms: Vec<Issue>,
}

impl LexicalExtras {
    pub fn none() -> (r: Self)
        ensures
            models(r.casing@).len() == 0,
            models(r.ellipsis@).len() == 0,
            models(r.repetition@).len() == 0,
            models(r.acronyms@).len() == 0,
    {
        LexicalExtras {
            casing: Vec::new(),
            ellipsis: Vec::new(),
            repetition: Vec::new(),
            acronyms: Vec::new(),
        }
    }
}

pub open spec fn spelling_findings(
    db: &CompiledSpellingDb,
    t: Seq<char>,
    ex: Seq<ByteRange>,
    cfg: ProfileConfig,
    stance: PoliticalStance,
    zh_type: ChineseType,
    hits: Seq<Hit>,
    straddles: Seq<bool>,
) -> Seq<IssueModel> {
    each(
        hits.len() as int,
        spelling_rule(db, t, ex, cfg, stance, zh_type, hits, straddles),
    )
}

pub open spec fn punctuation_findings(t: Seq<char>, ex: Seq<ByteRange>, cfg: ProfileConfig) -> Seq<
    IssueModel,
> {
    each(
        t.len() as int,
        punctuation_rule(
            t,
            ex,
            cfg.colon_enforcement,
            whole_plan(t, ex, QuoteKind::AsciiDouble),
        ),
    )
}

pub open spec fn dunhao_findings(t: Seq<char>, ex: Seq<ByteRange>) -> Seq<IssueModel> {
    let p = commas(t, ex, t.len() as int);
    each(p.len() as int, dunhao_rule(t, p))
}

pub open spec fn range_findings(t: Seq<char>, ex: Seq<ByteRange>, cfg: ProfileConfig) -> Seq<
    IssueModel,
> {
    each(t.len() as int, range_rule(t, ex, cfg.range_en_dash))
}

pub open spec fn curly_findings(t: Seq<char>, ex: Seq<ByteRange>) -> Seq<IssueModel> {
    curly_issues(
        t,
        whole_plan(t, ex, QuoteKind::CurlyDouble),
        whole_plan(t, ex, QuoteKind::CurlySingle),
        0,
        0,
    )
}

pub open spec fn spacing_findings(t: Seq<char>, ex: Seq<ByteRange>) -> Seq<IssueModel> {
    each(t.len() as int, spacing_rule(t, ex))
}

/// What the passes over punctuation find, one after another.
pub open spec fn mark_findings(
    t: Seq<char>,
    ex: Seq<ByteRange>,
    cfg: ProfileConfig,
    ellipsis: Seq<IssueModel>,
) -> Seq<IssueModel> {
    if_on(cfg.basic_punctuation, punctuation_findings(t, ex, cfg)) + if_on(
        cfg.dunhao_detection,
        dunhao_findings(t, ex),
    ) + if_on(cfg.range_normalization, range_findings(t, ex, cfg)) + if_on(
        cfg.ellipsis_normalization,
        ellipsis,
    ) + if_on(cfg.basic_punctuation, curly_findings(t, ex)) + if_on(
        cfg.basic_punctuation,
        spacing_findings(t, ex),
    )
}

/// The pass over half-width marks, where it is on.
fn punctuate(em: &mut Emitter<'_>, cfg: &ProfileConfig)
    requires
        old(em).wf(),
    ensures
        final(em).wf(),
        final(em).extends(old(em), if_on(cfg.basic_punctuation, punctuation_findings(old(em).chars(), old(em).ex(), *cfg))),
{
    let ghost start = *em;
    if cfg.basic_punctuation {
        scan_punctuation(em, cfg);
    } else {
        assert(em.out() =~= start.out() + Seq::<IssueModel>::empty());
    }
}

/// The pass over commas in lists, where it is on.
fn divide_lists(em: &mut Emitter<'_>, cfg: &ProfileConfig)
    requires
        old(em).wf(),
    ensures
        final(em).wf(),
        final(em).extends(old(em), if_on(cfg.dunhao_detection, dunhao_findings(old(em).chars(), old(em).ex()))),
{
    let ghost start = *em;
    if cfg.dunhao_detection {
        scan_dunhao(em);
    } else {
        assert(em.out() =~= start.out() + Seq::<IssueModel>::empty());
    }
}

/// The pass over marks of ranges, where it is on.
fn mark_ranges(em: &mut Emitter<'_>, cfg: &ProfileConfig)
    requires
        old(em).wf(),
    ensures
        final(em).wf(),
        final(em).extends(old(em), if_on(cfg.range_normalization, range_findings(old(em).chars(), old(em).ex(), *cfg))),
{
    let ghost start = *em;
    if cfg.range_normalization {
        scan_range_indicators(em, cfg);
    } else {
        assert(em.out() =~= start.out() + Seq::<IssueModel>::empty());
    }
}

/// The pass over curly quotation marks, where it is on.
fn uncurl(em: &mut Emitter<'_>, cfg: &ProfileConfig)
    requires
        old(em).wf(),
    ensures
        final(em).wf(),
        final(em).extends(old(em), if_on(cfg.basic_punctuation, curly_findings(old(em).chars(), old(em).ex()))),
{
    let ghost start = *em;
    if cfg.basic_punctuation {
        scan_cn_curly_quotes(em);
    } else {
        assert(em.out() =~= start.out() + Seq::<IssueModel>::empty());
    }
}

/// The pass over spacing, where it is on.
fn space(em: &mut Emitter<'_>, cfg: &ProfileConfig)
    requires
        old(em).wf(),
    ensures
        final(em).wf(),
        final(em).extends(old(em), if_on(cfg.basic_punctuation, spacing_findings(old(em).chars(), old(em).ex()))),
{
    let ghost start = *em;
    if cfg.basic_punctuation {
        scan_spacing(em);
    } else {
        assert(em.out() =~= start.out() + Seq::<IssueModel>::empty());
    }
}

/// Takes over what another detector found, where its switch is on.
fn take_when(em: &mut Emitter<'_>, on: bool, found: Vec<Issue>)
    requires
        old(em).wf(),
    ensures
        final(em).wf(),
        final(em).extends(old(em), if_on(on, models(found@))),
{
    let ghost start = *em;
    if on {
        em.take_over(found);
    } else {
        assert(em.out() =~= start.out() + Seq::<IssueModel>::empty());
    }
}

/// Two steps make one.
proof fn lemma_steps(a: Seq<IssueModel>, x: Seq<IssueModel>, y: Seq<IssueModel>)
    ensures
        a + x + y == a + (x + y),
{
    assert(a + x + y =~= a + (x + y));
}

/// The passes over punctuation.
fn run_mark_passes(em: &mut Emitter<'_>, cfg: &ProfileConfig, ellipsis: Vec<Issue>)
    requires
        old(em).wf(),
    ensures
        final(em).wf(),
        final(em).extends(
            old(em),
            mark_findings(old(em).chars(), old(em).ex(), *cfg, models(ellipsis@)),
        ),
{
    let ghost start = *em;
    let ghost t = em.chars();
    let ghost ex = em.ex();
    let ghost dots = models(ellipsis@);
    let ghost a = if_on(cfg.basic_punctuation, punctuation_findings(t, ex, *cfg));
    let ghost b = if_on(cfg.dunhao_detection, dunhao_findings(t, ex));
    let ghost c = if_on(cfg.range_normalization, range_findings(t, ex, *cfg));
    let ghost d = if_on(cfg.ellipsis_normalization, dots);
    let ghost e = if_on(cfg.basic_punctuation, curly_findings(t, ex));
    let ghost f = if_on(cfg.basic_punctuation, spacing_findings(t, ex));
    punctuate(em, cfg);
    divide_lists(em, cfg);
    mark_ranges(em, cfg);
    take_when(em, cfg.ellipsis_normalization, ellipsis);
    uncurl(em, cfg);
    space(em, cfg);
    proof {
        let s = start.out();
        assert(em.out() == s + a + b + c + d + e + f);
        lemma_steps(s, a, b);
        lemma_steps(s, a + b, c);
        lemma_steps(s, a + b + c, d);
        lemma_steps(s, a + b + c + d, e);
        lemma_steps(s, a + b + c + d + e, f);
    }
}

/// What the passes over the text itself find, one after another, `spelled`
/// being what the rules find.
pub open spec fn lexical_findings(
    t: Seq<char>,
    ex: Seq<ByteRange>,
    cfg: ProfileConfig,
    spelled: Seq<IssueModel>,
    extras: &LexicalExtras,
) -> Seq<IssueModel> {
    if_on(cfg.spelling, spelled) + if_on(cfg.casing, models(extras.casing@)) + mark_findings(
        t,
        ex,
        cfg,
        models(extras.ellipsis@),
    ) + models(extras.repetition@) + models(extras.acronyms@)
}

/// The passes over the text itself, before it is settled which of the findings
/// that overlap are kept.
#[verifier::spinoff_prover]
#[verifier::rlimit(40)]
pub fn run_lexical_passes(
    db: &CompiledSpellingDb,
    em: &mut Emitter<'_>,
    zh_type: ChineseType,
    cfg: &ProfileConfig,
    stance: &PoliticalStance,
    clue_buf: &mut Vec<(usize, u16)>,
    hits: &Vec<Hit>,
    straddles: &[bool],
    extras: LexicalExtras,
)
    requires
        db.searchable(),
        old(em).wf(),
        cfg.spelling ==> spelling_matches(db, old(em).chars(), hits@),
    ensures
        final(em).wf(),
        final(em).extends(
            old(em),
            lexical_findings(
                old(em).chars(),
                old(em).ex(),
                *cfg,
                spelling_findings(
                    db,
                    old(em).chars(),
                    old(em).ex(),
                    *cfg,
                    *stance,
                    zh_type,
                    hits@,
                    straddles@,
                ),
                &extras,
            ),
        ),
{
    let ghost start = *em;
    let ghost t = em.chars();
    let ghost ex = em.ex();
    let ghost all = extras;
    if cfg.spelling {
        scan_spelling(db, em, zh_type, cfg, stance, clue_buf, hits, straddles);
    }
    if cfg.casing {
        em.take_over(extras.casing);
    }
    run_mark_passes(em, cfg, extras.ellipsis);
    em.take_over(extras.repetition);
    em.take_over(extras.acronyms);
    assert(em.out() =~= start.out() + lexical_findings(
        t,
        ex,
        *cfg,
        spelling_findings(db, t, ex, *cfg, *stance, zh_type, hits@, straddles@),
        &all,
    ));
}

/// What the passes that a benchmark runs find, one after another.
pub open spec fn raw_findings(
    t: Seq<char>,
    ex: Seq<ByteRange>,
    cfg: ProfileConfig,
    spelled: Seq<IssueModel>,
    extras: &LexicalExtras,
) -> Seq<IssueModel> {
    if_on(cfg.spelling, spelled) + if_on(cfg.casing, models(extras.casing@)) + if_on(
        cfg.basic_punctuation,
        punctuation_findings(t, ex, cfg),
    ) + if_on(cfg.basic_punctuation, curly_findings(t, ex)) + if_on(
        cfg.basic_punctuation,
        spacing_findings(t, ex),
    ) + if_on(cfg.ellipsis_normalization, models(extras.ellipsis@))
}

/// The passes that a benchmark runs behind the rules.
pub(crate) fn run_raw_marks(em: &mut Emitter<'_>, cfg: &ProfileConfig, extras: LexicalExtras)
    requires
        old(em).wf(),
    ensures
        final(em).wf(),
        final(em).text == old(em).text,
        final(em).excluded == old(em).excluded,
        final(em).out() == old(em).out() + if_on(cfg.casing, models(extras.casing@)) + if_on(
            cfg.basic_punctuation,
            punctuation_findings(old(em).chars(), old(em).ex(), *cfg),
        ) + if_on(cfg.basic_punctuation, curly_findings(old(em).chars(), old(em).ex())) + if_on(
            cfg.basic_punctuation,
            spacing_findings(old(em).chars(), old(em).ex()),
        ) + if_on(cfg.ellipsis_normalization, models(extras.ellipsis@)),
{
    take_when(em, cfg.casing, extras.casing);
    punctuate(em, cfg);
    uncurl(em, cfg);
    space(em, cfg);
    take_when(em, cfg.ellipsis_normalization, extras.ellipsis);
}

/// What the structural passes are told from outside this library.
pub struct StructuralExtras {
    /// Findings on grammar.
    pub grammar: Vec<Issue>,
    /// Attributions without a source.
    pub attribution: Vec<Issue>,
    /// Invisible characters that have no business where they stand.
    pub invisible: Vec<Invisible>,
    /// The characters that are invisible.
    pub invisible_chars: Vec<char>,
    /// Byte offsets at which blocks of a Markdown document open a section.
    pub section_blocks: Vec<usize>,
    /// How the visible prose reads.
    pub detected_register: Register,
}

impl StructuralExtras {
    /// Every invisible character is one of the `n` of the text.
    pub open spec fn fits(&self, n: int) -> bool {
        forall|k: int| 0 <= k < self.invisible@.len() ==> (#[trigger] self.invisible@[k]).pos < n
    }

    pub fn none() -> (r: Self)
        ensures
            r.grammar@.len() == 0,
            r.attribution@.len() == 0,
            r.invisible@.len() == 0,
            r.invisible_chars@.len() == 0,
            r.section_blocks@.len() == 0,
            r.detected_register is Casual,
    {
        StructuralExtras {
            grammar: Vec::new(),
            attribution: Vec::new(),
            invisible: Vec::new(),
            invisible_chars: Vec::new(),
            section_blocks: Vec::new(),
            detected_register: Register::Casual,
        }
    }
}

/// Some machine-style stage is on.
pub open spec fn any_ai(cfg: ProfileConfig) -> bool {
    cfg.ai_filler_detection || cfg.ai_semantic_safety || cfg.ai_density_detection
        || cfg.ai_structural_patterns
}

/// What the machine-style detectors find before those that read sentences.
pub open spec fn ai_findings(
    t: Seq<char>,
    ex: Seq<ByteRange>,
    cfg: ProfileConfig,
    extras: &StructuralExtras,
) -> Seq<IssueModel> {
    if_on(
        cfg.ai_semantic_safety,
        ai_grammar_findings(t, ex) + models(extras.attribution@),
    ) + if_on(
        cfg.ai_structural_patterns,
        structural_findings(t, ex, cfg.ai_threshold_percent as int),
    ) + if_on(
        any_ai(cfg),
        each(extras.invisible@.len() as int, invisible_rule(t, ex, extras.invisible@)),
    ) + if_on(
        cfg.ai_density_detection,
        density_findings(t, ex, cfg.ai_threshold_percent as int),
    )
}

/// The blocks that open a section, which only Markdown tells.
pub open spec fn section_blocks(ct: ContentType, blocks: Seq<usize>) -> Option<Seq<usize>> {
    if ct.markdown() {
        Some(blocks)
    } else {
        None
    }
}

/// The findings `before` and those of the machine-style detectors.
pub open spec fn ai_filtered(
    t: Seq<char>,
    ex: Seq<ByteRange>,
    cfg: ProfileConfig,
    ct: ContentType,
    sentences: Seq<Bound>,
    paragraphs: Seq<Paragraph>,
    extras: &StructuralExtras,
    before: Seq<IssueModel>,
) -> Seq<IssueModel> {
    let found = before + ai_findings(t, ex, cfg, extras);
    if cfg.ai_structural_patterns {
        phase2_findings(
            t,
            ex,
            sentences,
            paragraphs,
            section_blocks(ct, extras.section_blocks@),
            found,
        )
    } else {
        found
    }
}

/// The machine-style detectors, each behind its own switch of the profile.
fn run_ai_filter(
    em: &mut Emitter<'_>,
    cfg: &ProfileConfig,
    content_type: ContentType,
    idx: &BoundaryIndex,
    attribution: Vec<Issue>,
    invisible: &Vec<Invisible>,
    blocks: &Vec<usize>,
    Ghost(extras): Ghost<&StructuralExtras>,
)
    requires
        old(em).wf(),
        idx.fits(old(em).chars().len() as int),
        extras.fits(old(em).chars().len() as int),
        extras.attribution == attribution,
        extras.invisible == *invisible,
        extras.section_blocks == *blocks,
    ensures
        final(em).wf(),
        final(em).text == old(em).text,
        final(em).excluded == old(em).excluded,
        final(em).out() == ai_filtered(
            old(em).chars(),
            old(em).ex(),
            *cfg,
            content_type,
            idx.sentences@,
            idx.paragraphs@,
            extras,
            old(em).out(),
        ),
{
    let ghost start = *em;
    let ghost t = em.chars();
    let ghost ex = em.ex();
    if cfg.ai_semantic_safety {
        scan_ai_grammar(em);
        em.take_over(attribution);
    }
    if cfg.ai_structural_patterns {
        scan_ai_structural(em, cfg.ai_threshold_percent);
    }
    if cfg.ai_filler_detection || cfg.ai_semantic_safety || cfg.ai_density_detection
        || cfg.ai_structural_patterns {
        scan_ai_zero_width(em, invisible);
    }
    if cfg.ai_density_detection {
        scan_ai_density(em, cfg.ai_threshold_percent);
    }
    assert(em.out() =~= start.out() + ai_findings(t, ex, *cfg, extras));
    if cfg.ai_structural_patterns {
        if content_type.is_markdown() {
            scan_ai_structural_phase2(em, idx, Some(blocks.as_slice()));
        } else {
            scan_ai_structural_phase2(em, idx, None);
        }
    }
}

/// What is left of the findings once those that name a phrase are taken out.
pub open spec fn unmentioned(t: Seq<char>, invisible: Seq<char>, v: Seq<IssueModel>) -> Seq<
    IssueModel,
> {
    kept(v, used(t, invisible, v), v.len() as int)
}

/// The findings `before` and those of the translationese detectors, without
/// those that two passes make of one pattern.
pub open spec fn translated(
    t: Seq<char>,
    ex: Seq<ByteRange>,
    cfg: ProfileConfig,
    sentences: Seq<Bound>,
    paragraphs: Seq<Paragraph>,
    register: Register,
    before: Seq<IssueModel>,
) -> Seq<IssueModel> {
    if cfg.translationese_detection {
        deduplicated(
            before + syntactic_findings(t, ex, sentences, paragraphs) + indexed_findings(
                t,
                ex,
                sentences,
                paragraphs,
                cfg.translationese_domain,
                cfg.rhythm,
                register,
            ) + calque_findings(t, ex, register),
        )
    } else {
        before
    }
}

/// The findings of which the structural passes tell which name a phrase.
pub open spec fn styled_findings(
    t: Seq<char>,
    ex: Seq<ByteRange>,
    cfg: ProfileConfig,
    ct: ContentType,
    sentences: Seq<Bound>,
    paragraphs: Seq<Paragraph>,
    extras: &StructuralExtras,
    before: Seq<IssueModel>,
) -> Seq<IssueModel> {
    ai_filtered(
        t,
        ex,
        cfg,
        ct,
        sentences, paragraphs,
        extras,
        before + if_on(cfg.grammar_checks, models(extras.grammar@)),
    )
}

/// What the structural passes make of the findings `before`.
pub open spec fn structural_result(
    t: Seq<char>,
    ex: Seq<ByteRange>,
    cfg: ProfileConfig,
    ct: ContentType,
    sentences: Seq<Bound>,
    paragraphs: Seq<Paragraph>,
    extras: &StructuralExtras,
    before: Seq<IssueModel>,
) -> Seq<IssueModel> {
    let register = register_under(cfg.register, extras.detected_register);
    let styled = styled_findings(t, ex, cfg, ct, sentences, paragraphs, extras, before);
    let plain = unmentioned(t, extras.invisible_chars@, styled);
    translated(t, ex, cfg, sentences, paragraphs, register, plain) + if_on(
        cfg.rhythm,
        rhythm_findings(t, ex, sentences, paragraphs),
    )
}

/// The passes on grammar, machine style and translationese. They run once it
/// is settled which of the findings on the text itself are kept, since their
/// broad spans would swallow those. Gives the bytes of the phrases that are
/// named rather than used.
pub fn run_structural_passes(
    em: &mut Emitter<'_>,
    cfg: &ProfileConfig,
    content_type: ContentType,
    idx: &BoundaryIndex,
    extras: StructuralExtras,
) -> (r: Vec<ByteRange>)
    requires
        old(em).wf(),
        idx.fits(old(em).chars().len() as int),
        extras.fits(old(em).chars().len() as int),
    ensures
        final(em).wf(),
        final(em).text == old(em).text,
        final(em).excluded == old(em).excluded,
        final(em).out() == structural_result(
            old(em).chars(),
            old(em).ex(),
            *cfg,
            content_type,
            idx.sentences@,
            idx.paragraphs@,
            &extras,
            old(em).out(),
        ),
        separate(r@),
        forall|b: int| #[trigger]
            covers(r@, b) == mention_byte(
                old(em).chars(),
                extras.invisible_chars@,
                styled_findings(
                    old(em).chars(),
                    old(em).ex(),
                    *cfg,
                    content_type,
                    idx.sentences@,
            idx.paragraphs@,
                    &extras,
                    old(em).out(),
                ),
                b,
            ),
{
    let ghost start = *em;
    let ghost t = em.chars();
    let ghost ex = em.ex();
    let ghost all = &extras;
    let register = resolve_register(cfg.register, extras.detected_register);
    let StructuralExtras {
        grammar,
        attribution,
        invisible,
        invisible_chars,
        section_blocks: blocks,
        detected_register: _,
    } = extras;
    if cfg.grammar_checks {
        em.take_over(grammar);
    }
    assert(em.out() =~= start.out() + if_on(cfg.grammar_checks, models(all.grammar@)));
    run_ai_filter(em, cfg, content_type, idx, attribution, &invisible, &blocks, Ghost(all));
    let mentions = drop_mentioned_style_findings(
        &em.text,
        &mut em.issues,
        invisible_chars.as_slice(),
    );
    let ghost plain = em.out();
    if cfg.translationese_detection {
        scan_translationese_syntactic(em, idx);
        scan_translationese_indexed(em, idx, cfg.translationese_domain, cfg.rhythm, register);
        scan_translationese_lexical(em, register);
        assert(em.out() =~= plain + syntactic_findings(t, ex, idx.sentences@, idx.paragraphs@)
            + indexed_findings(
            t,
            ex,
            idx.sentences@,
            idx.paragraphs@,
            cfg.translationese_domain,
            cfg.rhythm,
            register,
        ) + calque_findings(t, ex, register));
        dedup_translationese_phase_duplicates(&mut em.issues);
    }
    let ghost done = em.out();
    if cfg.rhythm {
        scan_rhythm(em, idx);
    }
    assert(em.out() =~= done + if_on(
        cfg.rhythm,
        rhythm_findings(t, ex, idx.sentences@, idx.paragraphs@),
    ));
    mentions
}

} // verus!
