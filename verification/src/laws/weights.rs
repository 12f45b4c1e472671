//! How much findings weigh.
use vstd::prelude::*;

use crate::bounds::{Bound, Paragraph};
use crate::emit::ByteRange;
use crate::grammar::ai::figure_findings;
use crate::grammar::ai_phrase::{
    ai_grammar_findings, copula_avoidance_rule, copula_step, density_findings, density_rule,
    didactic_rule, didactic_step, exaggeration_rule, exaggeration_step, passive_rewrite_rule,
    passive_step, yiweizhe_step, COPULA_AVOIDANCE_PATTERNS, DIDACTIC_PATTERNS, LEAD_VERBS,
    PASSIVE_REWRITE_PATTERNS,
};
use crate::grammar::ai_sentence::{
    bold_paragraph_rule, bold_sentence_rule, despite_rule, emdash_rule, parallel_openers,
    parallel_rule, range_rule, tricolon_rule,
};
use crate::grammar::calque::{
    connective_findings, connective_rule, connective_step, friend_findings, friend_rule,
    superlative_rule, superlative_step, CONNECTIVES, SUPERLATIVES,
};
use crate::grammar::rhythm::{
    long_sentence_rule, monotony_findings, monotony_rule, monotony_runs, no_run, rhythm_findings,
    run_finding, Run,
};
use crate::grammar::syntactic::{
    abstract_rule, copula_rule, displaced_rule, passive_rule, tense_rule,
};
use crate::issue::{IssueModel, Register, Severity};
use crate::marks::{commas, curly_issues, dunhao_rule};
use crate::punctuation::{punctuation_at, punctuation_rule};
use crate::quotes::QuoteMark;
use crate::spacing::{spacing_at, spacing_rule};
use crate::walk::{all_are, each, lemma_each_are, lemma_sum_are, lemma_walk_are, walk};

verus! {

/// The finding has the weight.
pub open spec fn weighs(s: Severity) -> spec_fn(IssueModel) -> bool {
    |m: IssueModel| m.severity == s
}

/// What the detectors of figures find are remarks.
pub proof fn law_figures_are_remarks(
    t: Seq<char>,
    ex: Seq<ByteRange>,
    sentences: Seq<Bound>,
    paragraphs: Seq<Paragraph>,
)
    ensures
        all_are(figure_findings(t, ex, sentences, paragraphs), weighs(Severity::Info)),
{
    let w = weighs(Severity::Info);
    let (s, p) = (sentences.len() as int, paragraphs.len() as int);
    let a = each(s, tricolon_rule(t, ex, sentences));
    let b = each(s, parallel_rule(t, ex, sentences));
    let c1 = each(s, bold_sentence_rule(t, ex, sentences));
    let c2 = each(p, bold_paragraph_rule(t, ex, paragraphs));
    let d = each(p, emdash_rule(t, ex, paragraphs));
    let e = each(s, despite_rule(t, ex, sentences));
    let f = each(s, range_rule(t, ex, sentences));
    lemma_each_are(s, tricolon_rule(t, ex, sentences), w);
    let g = parallel_rule(t, ex, sentences);
    assert forall|k: int| 0 <= k < s implies all_are(#[trigger] g(k), w) by {
        let h = parallel_openers(t, ex, sentences[k].start as int, sentences[k].end as int);
        lemma_each_are(3, h, w);
        assert(g(k) == each(3, h));
    }
    lemma_each_are(s, g, w);
    lemma_each_are(s, bold_sentence_rule(t, ex, sentences), w);
    lemma_each_are(p, bold_paragraph_rule(t, ex, paragraphs), w);
    lemma_each_are(p, emdash_rule(t, ex, paragraphs), w);
    lemma_each_are(s, despite_rule(t, ex, sentences), w);
    lemma_each_are(s, range_rule(t, ex, sentences), w);
    lemma_sum_are(c1, c2, w);
    lemma_sum_are(a, b, w);
    lemma_sum_are(a + b, c1 + c2, w);
    lemma_sum_are(a + b + (c1 + c2), d, w);
    lemma_sum_are(a + b + (c1 + c2) + d, e, w);
    lemma_sum_are(a + b + (c1 + c2) + d + e, f, w);
}

/// What the detectors of phrases find are remarks, and too dense a phrase is a
/// warning.
pub proof fn law_phrases_are_remarks(t: Seq<char>, ex: Seq<ByteRange>, percent: int)
    ensures
        all_are(ai_grammar_findings(t, ex), weighs(Severity::Info)),
        all_are(density_findings(t, ex, percent), weighs(Severity::Warning)),
{
    let w = weighs(Severity::Info);
    let n = t.len() as int;
    let a = walk(t, "意味著"@, 0, n, yiweizhe_step(t, ex));
    lemma_walk_are(t, "意味著"@, 0, n, yiweizhe_step(t, ex), w);
    let f = copula_avoidance_rule(t, ex);
    let x = COPULA_AVOIDANCE_PATTERNS@.len() as int;
    assert forall|k: int| 0 <= k < x implies all_are(#[trigger] f(k), w) by {
        let entry = COPULA_AVOIDANCE_PATTERNS@[k];
        lemma_walk_are(t, entry.0@, 0, n, copula_step(t, ex, entry), w);
    }
    lemma_each_are(x, f, w);
    let g = passive_rewrite_rule(t, ex);
    let y = PASSIVE_REWRITE_PATTERNS@.len() as int;
    assert forall|k: int| 0 <= k < y implies all_are(#[trigger] g(k), w) by {
        let entry = PASSIVE_REWRITE_PATTERNS@[k];
        lemma_walk_are(t, entry.0@, 0, n, passive_step(t, ex, entry), w);
    }
    lemma_each_are(y, g, w);
    let h = didactic_rule(t, ex);
    let z = DIDACTIC_PATTERNS@.len() as int;
    assert forall|k: int| 0 <= k < z implies all_are(#[trigger] h(k), w) by {
        lemma_walk_are(t, DIDACTIC_PATTERNS@[k]@, 0, n, didactic_step(t, ex, 4), w);
    }
    lemma_each_are(z, h, w);
    let e = exaggeration_rule(t, ex);
    let v = LEAD_VERBS@.len() as int;
    assert forall|k: int| 0 <= k < v implies all_are(#[trigger] e(k), w) by {
        lemma_walk_are(t, LEAD_VERBS@[k]@, 0, n, exaggeration_step(t, ex), w);
    }
    lemma_each_are(v, e, w);
    lemma_sum_are(a, each(x, f), w);
    lemma_sum_are(a + each(x, f), each(y, g), w);
    lemma_sum_are(a + each(x, f) + each(y, g), each(z, h), w);
    lemma_sum_are(a + each(x, f) + each(y, g) + each(z, h), each(v, e), w);
    lemma_each_are(10, density_rule(t, ex, percent), weighs(Severity::Warning));
}

/// What the lexical detectors of translationese find are remarks.
pub proof fn law_calques_are_remarks(t: Seq<char>, ex: Seq<ByteRange>, register: Register)
    ensures
        all_are(each(2, superlative_rule(t, ex)), weighs(Severity::Info)),
        all_are(connective_findings(t, ex, register), weighs(Severity::Info)),
        all_are(friend_findings(t, ex), weighs(Severity::Info)),
{
    let w = weighs(Severity::Info);
    let n = t.len() as int;
    let f = superlative_rule(t, ex);
    assert forall|k: int| 0 <= k < 2 implies all_are(#[trigger] f(k), w) by {
        let x = SUPERLATIVES@[k]@;
        lemma_walk_are(t, x, 0, n, superlative_step(t, ex, x), w);
    }
    lemma_each_are(2, f, w);
    let g = connective_rule(t, ex);
    assert forall|k: int| 0 <= k < 4 implies all_are(#[trigger] g(k), w) by {
        let entry = CONNECTIVES@[k];
        lemma_walk_are(t, entry.0@, 0, n, connective_step(t, ex, entry), w);
    }
    lemma_each_are(4, g, w);
    let hits = crate::grammar::calque::all_friend_hits(t, ex, 8);
    lemma_each_are(hits.len() as int, friend_rule(t, ex, hits), w);
}

/// Of what the build of a sentence shows, too many passives are a warning; abstract
/// subjects, late conditions, swollen copulas and idle tenses are remarks.
pub proof fn law_syntax_by_weight(
    t: Seq<char>,
    ex: Seq<ByteRange>,
    sentences: Seq<Bound>,
    paragraphs: Seq<Paragraph>,
)
    ensures
        all_are(
            each(paragraphs.len() as int, passive_rule(t, ex, paragraphs)),
            weighs(Severity::Warning),
        ),
        all_are(
            each(sentences.len() as int, abstract_rule(t, ex, sentences)),
            weighs(Severity::Info),
        ),
        all_are(
            each(sentences.len() as int, displaced_rule(t, ex, sentences)),
            weighs(Severity::Info),
        ),
        all_are(
            each(sentences.len() as int, copula_rule(t, ex, sentences)),
            weighs(Severity::Info),
        ),
        all_are(
            each(sentences.len() as int, tense_rule(t, ex, sentences)),
            weighs(Severity::Info),
        ),
{
    let (s, p) = (sentences.len() as int, paragraphs.len() as int);
    let w = weighs(Severity::Info);
    lemma_each_are(p, passive_rule(t, ex, paragraphs), weighs(Severity::Warning));
    lemma_each_are(s, abstract_rule(t, ex, sentences), w);
    lemma_each_are(s, displaced_rule(t, ex, sentences), w);
    lemma_each_are(s, copula_rule(t, ex, sentences), w);
    lemma_each_are(s, tense_rule(t, ex, sentences), w);
}

/// What the rhythm axis finds are remarks.
pub proof fn law_rhythm_makes_remarks(
    t: Seq<char>,
    ex: Seq<ByteRange>,
    sentences: Seq<Bound>,
    paragraphs: Seq<Paragraph>,
)
    ensures
        all_are(rhythm_findings(t, ex, sentences, paragraphs), weighs(Severity::Info)),
{
    let w = weighs(Severity::Info);
    let (s, p) = (sentences.len() as int, paragraphs.len() as int);
    lemma_each_are(s, long_sentence_rule(t, ex, sentences), w);
    let f = monotony_rule(t, ex, sentences, paragraphs);
    assert forall|k: int| 0 <= k < p implies all_are(#[trigger] f(k), w) by {
        let (a, b) = (paragraphs[k].first as int, paragraphs[k].last as int);
        lemma_runs_are(t, ex, sentences, a, a, b, no_run());
        assert(f(k) == monotony_findings(t, ex, sentences, a, b));
    }
    lemma_each_are(p, f, w);
    lemma_sum_are(each(s, long_sentence_rule(t, ex, sentences)), each(p, f), w);
}

proof fn lemma_runs_are(
    t: Seq<char>,
    ex: Seq<ByteRange>,
    sentences: Seq<Bound>,
    first: int,
    k: int,
    last: int,
    r: Run,
)
    ensures
        all_are(
            monotony_runs(t, ex, sentences, first, k, last, r),
            weighs(Severity::Info),
        ),
    decreases last - k,
{
    let w = weighs(Severity::Info);
    assert(all_are(run_finding(t, r), w));
    if k < last {
        let (from, to) = (sentences[k].start as int, sentences[k].end as int);
        let particle = crate::grammar::rhythm::ending_particle(t, from, to);
        let none = Run { particle: None, len: 0, ..r };
        let longer = Run { len: r.len + 1, ..r };
        let fresh = Run {
            particle,
            start: crate::lines::skip_white(t, from, to),
            limit: to,
            len: if particle is Some {
                1
            } else {
                0
            },
        };
        lemma_runs_are(t, ex, sentences, first, k + 1, last, none);
        lemma_runs_are(t, ex, sentences, first, k + 1, last, longer);
        lemma_runs_are(t, ex, sentences, first, k + 1, last, fresh);
        lemma_sum_are(
            run_finding(t, r),
            monotony_runs(t, ex, sentences, first, k + 1, last, none),
            w,
        );
        lemma_sum_are(
            run_finding(t, r),
            monotony_runs(t, ex, sentences, first, k + 1, last, fresh),
            w,
        );
    }
}

/// Half-width marks that are to be full-width, and curly quotation marks, are
/// warnings; commas of a list are remarks; what is wrong with spaces is a remark,
/// and with marks and digits a warning.
pub proof fn law_marks_by_weight(
    t: Seq<char>,
    ex: Seq<ByteRange>,
    colons: bool,
    plan: Seq<QuoteMark>,
    singles: Seq<QuoteMark>,
)
    ensures
        all_are(
            each(t.len() as int, punctuation_rule(t, ex, colons, plan)),
            weighs(Severity::Warning),
        ),
        all_are(curly_issues(t, plan, singles, 0, 0), weighs(Severity::Warning)),
        all_are(
            each(
                commas(t, ex, t.len() as int).len() as int,
                dunhao_rule(t, commas(t, ex, t.len() as int)),
            ),
            weighs(Severity::Info),
        ),
        all_are(
            each(t.len() as int, spacing_rule(t, ex)),
            |m: IssueModel|
                m.severity == Severity::Warning || m.severity == Severity::Info && (m.length == 0
                    ==> m.suggestions == seq![" "@]),
        ),
{
    let n = t.len() as int;
    let f = punctuation_rule(t, ex, colons, plan);
    assert forall|k: int| 0 <= k < n implies all_are(
        #[trigger] f(k),
        weighs(Severity::Warning),
    ) by {
        assert(f(k) == punctuation_at(t, ex, colons, plan, k));
    }
    lemma_each_are(n, f, weighs(Severity::Warning));
    lemma_curly_are(t, plan, singles, 0, 0);
    let p = commas(t, ex, n);
    lemma_each_are(p.len() as int, dunhao_rule(t, p), weighs(Severity::Info));
    let w = |m: IssueModel|
        m.severity == Severity::Warning || m.severity == Severity::Info && (m.length == 0
            ==> m.suggestions == seq![" "@]);
    let g = spacing_rule(t, ex);
    assert forall|k: int| 0 <= k < n implies all_are(#[trigger] g(k), w) by {
        assert(g(k) == spacing_at(t, ex, k));
        if k + 1 < n {
            crate::spacing::lemma_past_blanks(t, k + 1);
            crate::spacing::lemma_past_blanks(t, k + 2);
            crate::text::lemma_byte_pos_monotone(
                t,
                k,
                crate::spacing::past_blanks(t, k + 1),
            );
            crate::text::lemma_byte_pos_monotone(
                t,
                k + 1,
                crate::spacing::past_blanks(t, k + 2),
            );
        }
    }
    lemma_each_are(n, g, w);
}

proof fn lemma_curly_are(
    t: Seq<char>,
    doubles: Seq<QuoteMark>,
    singles: Seq<QuoteMark>,
    i: int,
    j: int,
)
    ensures
        all_are(curly_issues(t, doubles, singles, i, j), weighs(Severity::Warning)),
    decreases doubles.len() - i + singles.len() - j,
{
    let w = weighs(Severity::Warning);
    if 0 <= i <= doubles.len() && 0 <= j <= singles.len() {
        if i < doubles.len() && (j == singles.len() || doubles[i].pos <= singles[j].pos) {
            lemma_curly_are(t, doubles, singles, i + 1, j);
            lemma_sum_are(
                seq![crate::marks::curly_issue(t, doubles[i], true)],
                curly_issues(t, doubles, singles, i + 1, j),
                w,
            );
        } else if j < singles.len() {
            lemma_curly_are(t, doubles, singles, i, j + 1);
            lemma_sum_are(
                seq![crate::marks::curly_issue(t, singles[j], false)],
                curly_issues(t, doubles, singles, i, j + 1),
                w,
            );
        }
    }
}

} // verus!
