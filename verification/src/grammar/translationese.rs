//! The translationese passes that read sentences and paragraphs.
use vstd::prelude::*;

use crate::bounds::{Bound, BoundaryIndex, Paragraph};
use crate::emit::{ByteRange, Emitter};
use crate::grammar::indexed::{
    bounded_rule, chain_rule, scan_zy1b_yi_zhi_density, scan_zy2b_sentence_bounded_connectives,
    scan_zy3b_nominalization_chain, yi_zhi_rule, Domain,
};
use crate::grammar::premodifier::{gate_of, premodifier_rule, scan_zy5_long_premodifier};
use crate::grammar::syntactic::{
    abstract_rule, copula_rule, de_chain_rule, displaced_rule, passive_rule, pronoun_rule,
    rewrite_rule, scan_trans_abstract_subject, scan_trans_adverbial_particle_mixup,
    scan_trans_adverbial_particle_redundant, scan_trans_copula_classifier,
    scan_trans_displaced_conditional, scan_trans_excessive_de_chain, scan_trans_passive_density,
    scan_trans_pronoun_overuse, scan_trans_tense_marker, tense_rule, ADVERBS, CONFUSIONS,
};
use crate::issue::{IssueModel, Register, Severity};
use crate::walk::each;

verus! {

/// What the syntactic detectors report, one detector after another.
pub open spec fn syntactic_findings(
    t: Seq<char>,
    ex: Seq<ByteRange>,
    sentences: Seq<Bound>,
    paragraphs: Seq<Paragraph>,
) -> Seq<IssueModel> {
    let s = sentences.len() as int;
    let p = paragraphs.len() as int;
    each(p, passive_rule(t, ex, paragraphs)) + each(s, abstract_rule(t, ex, sentences)) + each(
        s,
        displaced_rule(t, ex, sentences),
    ) + each(p, pronoun_rule(t, ex, sentences, paragraphs)) + each(
        s,
        copula_rule(t, ex, sentences),
    ) + each(
        CONFUSIONS@.len() as int,
        rewrite_rule(
            t,
            ex,
            CONFUSIONS@,
            Severity::Warning,
            "翻譯腔：的/地混淆 — 副詞修飾動詞應用「地」"@,
        ),
    ) + each(s, de_chain_rule(t, ex, sentences)) + each(
        ADVERBS@.len() as int,
        rewrite_rule(
            t,
            ex,
            ADVERBS@,
            Severity::Info,
            "翻譯腔：雙音節副詞+「地」冗餘，可省略「地」"@,
        ),
    ) + each(s, tense_rule(t, ex, sentences))
}

/// The syntactic detectors.
pub fn scan_translationese_syntactic(em: &mut Emitter<'_>, idx: &BoundaryIndex)
    requires
        old(em).wf(),
        idx.fits(old(em).chars().len() as int),
    ensures
        final(em).wf(),
        final(em).extends(
            old(em),
            syntactic_findings(old(em).chars(), old(em).ex(), idx.sentences@, idx.paragraphs@),
        ),
{
    let ghost start = *em;
    scan_trans_passive_density(em, idx);
    scan_trans_abstract_subject(em, idx);
    scan_trans_displaced_conditional(em, idx);
    scan_trans_pronoun_overuse(em, idx);
    scan_trans_copula_classifier(em, idx);
    scan_trans_adverbial_particle_mixup(em);
    scan_trans_excessive_de_chain(em, idx);
    scan_trans_adverbial_particle_redundant(em);
    scan_trans_tense_marker(em, idx);
    assert(em.out() =~= start.out() + syntactic_findings(
        start.chars(),
        start.ex(),
        idx.sentences@,
        idx.paragraphs@,
    ));
}

/// What the indexed detectors report. A formal document mandates paired
/// connectives, so there they are left out.
pub open spec fn indexed_findings(
    t: Seq<char>,
    ex: Seq<ByteRange>,
    sentences: Seq<Bound>,
    paragraphs: Seq<Paragraph>,
    domain: Domain,
    rhythm: bool,
    register: Register,
) -> Seq<IssueModel> {
    let s = sentences.len() as int;
    each(paragraphs.len() as int, yi_zhi_rule(t, ex, paragraphs, domain)) + (if register
        == Register::Formal {
        Seq::empty()
    } else {
        each(s, bounded_rule(t, ex, sentences))
    }) + each(s, chain_rule(t, ex, sentences, domain.chain_min as int)) + each(
        s,
        premodifier_rule(t, ex, sentences, gate_of(domain, rhythm)),
    )
}

/// The calque detectors that read sentences and paragraphs.
pub fn scan_translationese_indexed(
    em: &mut Emitter<'_>,
    idx: &BoundaryIndex,
    domain: Domain,
    rhythm: bool,
    register: Register,
)
    requires
        old(em).wf(),
        idx.fits(old(em).chars().len() as int),
    ensures
        final(em).wf(),
        final(em).extends(
            old(em),
            indexed_findings(
                old(em).chars(),
                old(em).ex(),
                idx.sentences@,
                idx.paragraphs@,
                domain,
                rhythm,
                register,
            ),
        ),
{
    let ghost start = *em;
    scan_zy1b_yi_zhi_density(em, idx, domain);
    if register != Register::Formal {
        scan_zy2b_sentence_bounded_connectives(em, idx);
    }
    scan_zy3b_nominalization_chain(em, idx, domain);
    scan_zy5_long_premodifier(em, idx, domain, rhythm);
    assert(em.out() =~= start.out() + indexed_findings(
        start.chars(),
        start.ex(),
        idx.sentences@,
        idx.paragraphs@,
        domain,
        rhythm,
        register,
    ));
}

} // verus!
