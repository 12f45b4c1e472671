//! The machine-style passes.
use vstd::prelude::*;

use crate::bounds::{Bound, BoundaryIndex, Paragraph};
use crate::emit::{ai_issue, joined, span_excluded, ByteRange, Emitter};
use crate::grammar::ai_list::{mechanical_lists, scan_ai_mechanical_bullets};
use crate::grammar::ai_sentence::{
    bold_findings, despite_rule, emdash_rule, metaphor_rule, parallel_rule, promoted, range_rule,
    scan_ai_abstract_line_metaphor, scan_ai_emdash_overuse, scan_ai_excessive_bold,
    scan_ai_false_ranges, scan_ai_formulaic_despite, scan_ai_hedging_density,
    scan_ai_negative_parallel, scan_ai_tricolon, tricolon_rule,
};
use crate::grammar::ai_slogan::{
    scan_ai_repeated_parallel_slogan, scan_ai_rhetorical_self_qa, self_qa_rule, slogans,
};
use crate::grammar::ai_structure::{
    binary_contrast, dash_overuse, formulaic_headings, list_density, paragraph_endings,
    scan_ai_binary_contrast, scan_ai_dash_overuse, scan_ai_formulaic_headings, scan_ai_list_density,
    scan_ai_paragraph_endings,
};
use crate::grammar::closer::{blocks_of, ending_rule, scan_ai_formulaic_section_endings};
use crate::issue::{strings, IssueModel, Severity};
use crate::walk::{each, if_so};

verus! {

/// What the detectors of the document's structure report, one after another:
/// binary contrasts, paragraph endings, dashes, headings and lists.
pub open spec fn structural_findings(t: Seq<char>, ex: Seq<ByteRange>, percent: int) -> Seq<
    IssueModel,
> {
    binary_contrast(t, ex, percent) + paragraph_endings(t, ex) + dash_overuse(t, ex)
        + formulaic_headings(t, ex) + list_density(t, ex, percent)
}

/// Five detectors of the document's structure: contrasts of two halves,
/// paragraphs that end alike, too many dashes, formulaic headings and too many
/// lists.
pub fn scan_ai_structural(em: &mut Emitter<'_>, percent: u32)
    requires
        old(em).wf(),
    ensures
        final(em).wf(),
        final(em).extends(
            old(em),
            structural_findings(old(em).chars(), old(em).ex(), percent as int),
        ),
{
    let ghost start = *em;
    scan_ai_binary_contrast(em, percent);
    scan_ai_paragraph_endings(em);
    scan_ai_dash_overuse(em);
    scan_ai_formulaic_headings(em);
    scan_ai_list_density(em, percent);
    assert(em.out() =~= start.out() + structural_findings(
        start.chars(),
        start.ex(),
        percent as int,
    ));
}

/// What the detectors of figures and marks report, one after another.
pub open spec fn figure_findings(
    t: Seq<char>,
    ex: Seq<ByteRange>,
    sentences: Seq<Bound>,
    paragraphs: Seq<Paragraph>,
) -> Seq<IssueModel> {
    let s = sentences.len() as int;
    each(s, tricolon_rule(t, ex, sentences)) + each(s, parallel_rule(t, ex, sentences))
        + bold_findings(t, ex, sentences, paragraphs) + each(
        paragraphs.len() as int,
        emdash_rule(t, ex, paragraphs),
    ) + each(s, despite_rule(t, ex, sentences)) + each(s, range_rule(t, ex, sentences))
}

/// What the detectors of how paragraphs are built report, one after another.
pub open spec fn paragraph_findings(
    t: Seq<char>,
    ex: Seq<ByteRange>,
    sentences: Seq<Bound>,
    paragraphs: Seq<Paragraph>,
    blocks: Option<Seq<usize>>,
) -> Seq<IssueModel> {
    let p = paragraphs.len() as int;
    each(p, ending_rule(t, ex, blocks, sentences, paragraphs)) + mechanical_lists(t, ex) + slogans(
        t,
        ex,
        sentences,
        paragraphs,
        p,
    ).1 + each(p, self_qa_rule(t, ex, sentences, paragraphs)) + each(
        p,
        metaphor_rule(t, ex, paragraphs),
    )
}

/// What the detectors that read sentences and paragraphs report.
pub open spec fn indexed_findings(
    t: Seq<char>,
    ex: Seq<ByteRange>,
    sentences: Seq<Bound>,
    paragraphs: Seq<Paragraph>,
    blocks: Option<Seq<usize>>,
) -> Seq<IssueModel> {
    figure_findings(t, ex, sentences, paragraphs) + paragraph_findings(
        t,
        ex,
        sentences,
        paragraphs,
        blocks,
    )
}

fn scan_figures(em: &mut Emitter<'_>, idx: &BoundaryIndex)
    requires
        old(em).wf(),
        idx.fits(old(em).chars().len() as int),
    ensures
        final(em).wf(),
        final(em).extends(
            old(em),
            figure_findings(old(em).chars(), old(em).ex(), idx.sentences@, idx.paragraphs@),
        ),
{
    let ghost start = *em;
    scan_ai_tricolon(em, idx);
    scan_ai_negative_parallel(em, idx);
    scan_ai_excessive_bold(em, idx);
    scan_ai_emdash_overuse(em, idx);
    scan_ai_formulaic_despite(em, idx);
    scan_ai_false_ranges(em, idx);
    assert(em.out() =~= start.out() + figure_findings(
        start.chars(),
        start.ex(),
        idx.sentences@,
        idx.paragraphs@,
    ));
}

fn scan_paragraphs(em: &mut Emitter<'_>, idx: &BoundaryIndex, blocks: Option<&[usize]>)
    requires
        old(em).wf(),
        idx.fits(old(em).chars().len() as int),
    ensures
        final(em).wf(),
        final(em).extends(
            old(em),
            paragraph_findings(
                old(em).chars(),
                old(em).ex(),
                idx.sentences@,
                idx.paragraphs@,
                blocks_of(blocks),
            ),
        ),
{
    let ghost start = *em;
    scan_ai_formulaic_section_endings(em, idx, blocks);
    scan_ai_mechanical_bullets(em);
    scan_ai_repeated_parallel_slogan(em, idx);
    scan_ai_rhetorical_self_qa(em, idx);
    scan_ai_abstract_line_metaphor(em, idx);
    assert(em.out() =~= start.out() + paragraph_findings(
        start.chars(),
        start.ex(),
        idx.sentences@,
        idx.paragraphs@,
        blocks_of(blocks),
    ));
}

/// The findings so far and those of the detectors that read sentences and
/// paragraphs, graver where they stand in a paragraph that hedges too much.
pub open spec fn phase2_findings(
    t: Seq<char>,
    ex: Seq<ByteRange>,
    sentences: Seq<Bound>,
    paragraphs: Seq<Paragraph>,
    blocks: Option<Seq<usize>>,
    before: Seq<IssueModel>,
) -> Seq<IssueModel> {
    let all = before + indexed_findings(t, ex, sentences, paragraphs, blocks);
    Seq::new(
        all.len(),
        |i: int| promoted(t, ex, paragraphs, paragraphs.len() as int, all[i]),
    )
}

/// The detectors that read sentences and paragraphs. Where it is known at
/// which byte offsets blocks open a section, `blocks` holds them.
pub fn scan_ai_structural_phase2(
    em: &mut Emitter<'_>,
    idx: &BoundaryIndex,
    blocks: Option<&[usize]>,
)
    requires
        old(em).wf(),
        idx.fits(old(em).chars().len() as int),
    ensures
        final(em).wf(),
        final(em).text == old(em).text,
        final(em).excluded == old(em).excluded,
        final(em).out() == phase2_findings(
            old(em).chars(),
            old(em).ex(),
            idx.sentences@,
            idx.paragraphs@,
            blocks_of(blocks),
            old(em).out(),
        ),
{
    let ghost start = *em;
    scan_figures(em, idx);
    scan_paragraphs(em, idx, blocks);
    assert(em.out() =~= start.out() + indexed_findings(
        start.chars(),
        start.ex(),
        idx.sentences@,
        idx.paragraphs@,
        blocks_of(blocks),
    ));
    scan_ai_hedging_density(em, idx);
}

/// An invisible character, by its position, and what it is called.
pub struct Invisible {
    pub pos: usize,
    pub label: String,
}

/// The invisible characters outside the excluded ranges, each to be deleted.
pub open spec fn invisible_rule(t: Seq<char>, ex: Seq<ByteRange>, found: Seq<Invisible>) -> spec_fn(
    int,
) -> Seq<IssueModel> {
    |k: int|
        {
            let p = found[k].pos as int;
            if_so(
                !span_excluded(t, ex, p, p + 1),
                ai_issue(
                    t,
                    p,
                    p + 1,
                    seq![Seq::empty()],
                    Severity::Info,
                    None,
                    "AI token: 隱形字元 "@ + found[k].label@
                        + "，疑似 LLM 分詞器或複製貼上殘留。"@,
                ),
            )
        }
}

/// Reports the invisible characters that were found in the text.
pub fn scan_ai_zero_width(em: &mut Emitter<'_>, found: &Vec<Invisible>)
    requires
        old(em).wf(),
        forall|k: int| 0 <= k < found@.len() ==> (#[trigger] found@[k]).pos < old(em).chars().len(),
    ensures
        final(em).wf(),
        final(em).extends(
            old(em),
            each(found@.len() as int, invisible_rule(old(em).chars(), old(em).ex(), found@)),
        ),
{
    let ghost start = *em;
    let ghost f = invisible_rule(em.chars(), em.ex(), found@);
    let _n: usize = em.text.len();
    let mut k: usize = 0;
    assert(em.out() =~= start.out() + each(0, f));
    while k < found.len()
        invariant
            em.wf(),
            em.chars().len() <= usize::MAX,
            k <= found@.len(),
            f == invisible_rule(start.chars(), start.ex(), found@),
            forall|j: int|
                0 <= j < found@.len() ==> (#[trigger] found@[j]).pos < start.chars().len(),
            em.extends(&start, each(k as int, f)),
        decreases found@.len() - k,
    {
        let p: usize = found[k].pos;
        if !em.excluded_span(p, p + 1) {
            let empty: Vec<String> = vec![String::new()];
            assert(strings(empty@) =~= seq![Seq::<char>::empty()]);
            em.report_ai(
                p,
                p + 1,
                empty,
                Severity::Info,
                None,
                joined(
                    "AI token: 隱形字元 ",
                    found[k].label.as_str(),
                    "，疑似 LLM 分詞器或複製貼上殘留。",
                ),
            );
        }
        assert(em.out() =~= start.out() + (each(k as int, f) + f(k as int)));
        k = k + 1;
    }
}

} // verus!
