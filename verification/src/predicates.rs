//! Rules compiled to chains of predicates, and what a chain decides of a
//! match.
use vstd::prelude::*;

use crate::clues::{
    all_hold, by_offset, check_positional_clues, clue_models, ids_of, lookup_clues_in_window,
    rising, window_clues, ClueModel, PositionalClue,
};
use crate::emit::{is_excluded, span_excluded, ByteRange};
use crate::issue::{plain_issue, strings, Issue, IssueModel, Severity};
use crate::profile::ProfileConfig;
use crate::rules::{ChineseType, PoliticalStance, RuleModel, RuleType, SpellingRule};
use crate::text::{byte_pos, contains_in, find_in, lemma_byte_pos_monotone, occurs_at, Text};
use crate::window::{context_span, context_window};

verus! {

/// The rule's own phrase stands in one of its replacements.
pub const FILTER_HAS_SUPERSTRING: u8 = 1;

/// The rule has exceptions.
pub const FILTER_HAS_EXCEPTIONS: u8 = 2;

/// The rule asks for clues.
pub const FILTER_HAS_POS_CLUES: u8 = 4;

/// The rule has clues that speak against it.
pub const FILTER_HAS_NEG_CLUES: u8 = 8;

/// The rule has clues tied to a side.
pub const FILTER_HAS_POSITIONAL: u8 = 16;

/// The rule deletes its phrase.
pub const FILTER_IS_DELETION: u8 = 32;

/// How many of a rule's clues must stand near a match.
pub const MIN_SCAN_CLUE_MATCHES: u32 = 1;

/// A condition on a match, or a change of its span.
#[derive(Debug)]
pub enum MatchPredicate {
    /// Variants are on, and the document is not in Simplified Chinese.
    RequireVariantConfig,
    /// Filler phrases are on.
    RequireAiFillerDetection,
    /// Translationese is on.
    RequireTranslationeseDetection,
    /// The stance lets the rule speak.
    RequireStanceAllow,
    /// No excluded range overlaps the match.
    RejectIfExcluded,
    /// The match does not stand within one of the rule's own replacements.
    /// Each comes with the places where the phrase stands in it.
    RejectIfSuperstring { forms: Vec<(String, Vec<usize>)> },
    /// The match does not cut a word.
    RejectIfWordBoundaryStraddles,
    /// The match does not stand within an exception. Each comes with the
    /// places where the phrase stands in it.
    RejectIfInExceptionPhrase { exceptions: Vec<(String, Vec<usize>)> },
    /// Enough clues stand near the match, and none that speaks against it.
    CheckClues { pos_ids: Vec<u16>, neg_ids: Vec<u16>, min_pos_matches: u32 },
    /// Every clue that is tied to a side holds.
    RequirePositionalClues { clues: Vec<PositionalClue> },
    /// The match takes in a full-width comma or colon right behind it.
    MayExtendDeletionSpan,
}

/// A predicate, over mathematical values.
#[verifier::ext_equal]
pub ghost enum PredicateModel {
    VariantConfig,
    AiFillerDetection,
    TranslationeseDetection,
    StanceAllow,
    NotExcluded,
    NotInReplacement(Seq<(Seq<char>, Seq<int>)>),
    NotInException(Seq<(Seq<char>, Seq<int>)>),
    NotStraddling,
    Clues(Seq<u16>, Seq<u16>, int),
    Positional(Seq<ClueModel>),
    ExtendDeletion,
}

/// Forms with the places where the phrase stands in them.
pub open spec fn forms_of(v: Seq<(String, Vec<usize>)>) -> Seq<(Seq<char>, Seq<int>)> {
    Seq::new(v.len(), |i: int| (v[i].0@, places_of(v[i].1@)))
}

pub open spec fn places_of(v: Seq<usize>) -> Seq<int> {
    Seq::new(v.len(), |i: int| v[i] as int)
}

impl View for MatchPredicate {
    type V = PredicateModel;

    open spec fn view(&self) -> PredicateModel {
        match self {
            MatchPredicate::RequireVariantConfig => PredicateModel::VariantConfig,
            MatchPredicate::RequireAiFillerDetection => PredicateModel::AiFillerDetection,
            MatchPredicate::RequireTranslationeseDetection =>
                PredicateModel::TranslationeseDetection,
            MatchPredicate::RequireStanceAllow => PredicateModel::StanceAllow,
            MatchPredicate::RejectIfExcluded => PredicateModel::NotExcluded,
            MatchPredicate::RejectIfSuperstring { forms } => PredicateModel::NotInReplacement(
                forms_of(forms@),
            ),
            MatchPredicate::RejectIfWordBoundaryStraddles => PredicateModel::NotStraddling,
            MatchPredicate::RejectIfInExceptionPhrase { exceptions } =>
                PredicateModel::NotInException(forms_of(exceptions@)),
            MatchPredicate::CheckClues { pos_ids, neg_ids, min_pos_matches } =>
                PredicateModel::Clues(pos_ids@, neg_ids@, *min_pos_matches as int),
            MatchPredicate::RequirePositionalClues { clues } => PredicateModel::Positional(
                clue_models(clues@),
            ),
            MatchPredicate::MayExtendDeletionSpan => PredicateModel::ExtendDeletion,
        }
    }
}

/// The predicates of a chain, each by what it says.
pub open spec fn predicate_models(v: Seq<MatchPredicate>) -> Seq<PredicateModel> {
    Seq::new(v.len(), |i: int| v[i]@)
}

/// A rule ready for matches.
#[derive(Debug)]
pub struct CompiledRule {
    /// The rule's place in the list of rules.
    pub rule_idx: usize,
    /// What a match must pass, from left to right.
    pub predicates: Vec<MatchPredicate>,
    pub rule_type: RuleType,
    /// The severity of the rule's findings.
    pub severity: Severity,
}

/// A match and what surrounds it.
pub struct MatchContext<'a> {
    pub text: &'a Text<'a>,
    pub excluded: &'a [ByteRange],
    pub cfg: &'a ProfileConfig,
    pub stance: &'a PoliticalStance,
    pub zh_type: ChineseType,
    /// First character of the match.
    pub start: usize,
    /// End of the match.
    pub end: usize,
    /// Where the clues of the document stand, in order.
    pub clue_index: &'a [(usize, u16)],
    /// Whether the match cuts a word.
    pub straddles: bool,
}

/// A match and what surrounds it, over mathematical values.
pub ghost struct ContextModel {
    pub t: Seq<char>,
    pub ex: Seq<ByteRange>,
    pub cfg: ProfileConfig,
    pub stance: PoliticalStance,
    pub zh_type: ChineseType,
    pub start: int,
    pub end: int,
    pub index: Seq<(usize, u16)>,
    pub straddles: bool,
}

impl<'a> View for MatchContext<'a> {
    type V = ContextModel;

    open spec fn view(&self) -> ContextModel {
        ContextModel {
            t: self.text@,
            ex: self.excluded@,
            cfg: *self.cfg,
            stance: *self.stance,
            zh_type: self.zh_type,
            start: self.start as int,
            end: self.end as int,
            index: self.clue_index@,
            straddles: self.straddles,
        }
    }
}

impl<'a> MatchContext<'a> {
    pub open spec fn wf(&self) -> bool {
        &&& self.text.wf()
        &&& self.start <= self.end <= self.text@.len()
        &&& by_offset(self.clue_index@)
    }
}

/// Some form stands in the text so that it covers the match at `start`.
pub open spec fn covered(t: Seq<char>, start: int, forms: Seq<(Seq<char>, Seq<int>)>) -> bool {
    exists|k: int, m: int|
        0 <= k < forms.len() && 0 <= m < forms[k].1.len() && #[trigger] occurs_at(
            t,
            forms[k].0,
            start - forms[k].1[m],
        )
}

/// Enough clues stand near the match, and none that speaks against it.
pub open spec fn clues_pass(
    ctx: ContextModel,
    pos: Seq<u16>,
    neg: Seq<u16>,
    least: int,
    end: int,
) -> bool {
    let t = ctx.t;
    let (a, b) = context_span(t, ctx.ex, ctx.start, end);
    let (found, against) = window_clues(
        ctx.index,
        byte_pos(t, a),
        byte_pos(t, b),
        pos,
        neg,
    );
    (pos.len() == 0 || found >= least) && !against
}

/// The match, as far as `end`, passes the predicate.
pub open spec fn passes(
    from: Seq<char>,
    ctx: ContextModel,
    p: PredicateModel,
    end: int,
) -> bool {
    let t = ctx.t;
    let ex = ctx.ex;
    match p {
        PredicateModel::VariantConfig => ctx.cfg.variant_normalization && !(
        ctx.zh_type is Simplified),
        PredicateModel::AiFillerDetection => ctx.cfg.ai_filler_detection,
        PredicateModel::TranslationeseDetection => ctx.cfg.translationese_detection,
        PredicateModel::StanceAllow => ctx.stance.allows(from),
        PredicateModel::NotExcluded => !span_excluded(t, ex, ctx.start, end),
        PredicateModel::NotInReplacement(forms) => !covered(t, ctx.start, forms),
        PredicateModel::NotInException(forms) => !covered(t, ctx.start, forms),
        PredicateModel::NotStraddling => !ctx.straddles,
        PredicateModel::Clues(pos, neg, least) => clues_pass(ctx, pos, neg, least, end),
        PredicateModel::Positional(clues) => all_hold(t, ex, ctx.start, end, clues),
        PredicateModel::ExtendDeletion => true,
    }
}

/// End of a deletion: behind a full-width comma or colon at `end`, unless that
/// is excluded.
pub open spec fn extended_end(t: Seq<char>, ex: Seq<ByteRange>, end: int) -> int {
    if 0 <= end < t.len() && (t[end] == '，' || t[end] == '：') && !span_excluded(
        t,
        ex,
        end,
        end + 1,
    ) {
        end + 1
    } else {
        end
    }
}

/// End of the match after the predicates from `k` on, where it passes them.
pub open spec fn chain(
    from: Seq<char>,
    ctx: ContextModel,
    preds: Seq<PredicateModel>,
    k: int,
    end: int,
) -> Option<int>
    decreases preds.len() - k,
{
    if k >= preds.len() || k < 0 {
        Some(end)
    } else if !passes(from, ctx, preds[k], end) {
        None
    } else {
        chain(
            from,
            ctx,
            preds,
            k + 1,
            if preds[k] is ExtendDeletion {
                extended_end(ctx.t, ctx.ex, end)
            } else {
                end
            },
        )
    }
}

/// The finding that a match makes, its texts to be filled in later.
pub open spec fn deferred(
    t: Seq<char>,
    start: int,
    end: int,
    rule_type: RuleType,
    severity: Severity,
    rule_idx: int,
) -> IssueModel {
    IssueModel {
        spelling_rule_idx: Some(rule_idx),
        ..plain_issue(
            byte_pos(t, start),
            byte_pos(t, end) - byte_pos(t, start),
            Seq::empty(),
            Seq::empty(),
            rule_type.family(),
            severity,
        )
    }
}

/// Lists of clue numbers rise.
pub open spec fn sound_ids(preds: Seq<PredicateModel>) -> bool {
    forall|k: int|
        0 <= k < preds.len() ==> match #[trigger] preds[k] {
            PredicateModel::Clues(pos, neg, _) => rising(pos) && rising(neg),
            _ => true,
        }
}

fn covered_by_form(text: &Text<'_>, start: usize, forms: &Vec<(String, Vec<usize>)>) -> (r: bool)
    requires
        text.wf(),
        start <= text@.len(),
    ensures
        r == covered(text@, start as int, forms_of(forms@)),
{
    let n: usize = text.len();
    let ghost fs = forms_of(forms@);
    let mut k: usize = 0;
    while k < forms.len()
        invariant
            text.wf(),
            n == text@.len(),
            start <= n,
            fs == forms_of(forms@),
            k <= forms@.len(),
            forall|a: int, b: int|
                0 <= a < k && 0 <= b < fs[a].1.len() ==> !#[trigger] occurs_at(
                    text@,
                    fs[a].0,
                    start - fs[a].1[b],
                ),
        decreases forms@.len() - k,
    {
        let width: usize = forms[k].0.as_str().unicode_len();
        let mut m: usize = 0;
        assert(fs[k as int] == (forms@[k as int].0@, places_of(forms@[k as int].1@)));
        while m < forms[k].1.len()
            invariant
                text.wf(),
                n == text@.len(),
                start <= n,
                fs == forms_of(forms@),
                k < forms@.len(),
                width == forms@[k as int].0@.len(),
                fs[k as int] == (forms@[k as int].0@, places_of(forms@[k as int].1@)),
                m <= forms@[k as int].1@.len(),
                forall|a: int, b: int|
                    0 <= a < k && 0 <= b < fs[a].1.len() ==> !#[trigger] occurs_at(
                        text@,
                        fs[a].0,
                        start - fs[a].1[b],
                    ),
                forall|b: int|
                    0 <= b < m ==> !#[trigger] occurs_at(
                        text@,
                        fs[k as int].0,
                        start - fs[k as int].1[b],
                    ),
            decreases forms@[k as int].1@.len() - m,
        {
            let offset: usize = forms[k].1[m];
            assert(fs[k as int].1[m as int] == offset);
            if offset <= start && width <= n - (start - offset) && text.at(
                forms[k].0.as_str(),
                start - offset,
            ) {
                assert(occurs_at(text@, fs[k as int].0, start - fs[k as int].1[m as int]));
                return true;
            }
            m = m + 1;
        }
        k = k + 1;
    }
    false
}

fn extended_deletion_span(ctx: &MatchContext<'_>, end: usize) -> (r: usize)
    requires
        ctx.wf(),
        end <= ctx.text@.len(),
    ensures
        r == extended_end(ctx.text@, ctx.excluded@, end as int),
        end <= r <= ctx.text@.len(),
{
    let n: usize = ctx.text.len();
    if end < n {
        let c = ctx.text.ch(end);
        if (c == '，' || c == '：') && !is_excluded(
            ctx.text.byte(end),
            ctx.text.byte(end + 1),
            ctx.excluded,
        ) {
            return end + 1;
        }
    }
    end
}

fn check_clues(
    ctx: &MatchContext<'_>,
    pos: &Vec<u16>,
    neg: &Vec<u16>,
    least: u32,
    end: usize,
) -> (r: bool)
    requires
        ctx.wf(),
        ctx.start <= end <= ctx.text@.len(),
        rising(pos@),
        rising(neg@),
    ensures
        r == clues_pass(ctx@, pos@, neg@, least as int, end as int),
{
    let (a, b) = context_window(ctx.text, ctx.start, end, ctx.excluded);
    let (found, against) = lookup_clues_in_window(
        ctx.clue_index,
        ctx.text.byte(a),
        ctx.text.byte(b),
        Some(pos.as_slice()),
        Some(neg.as_slice()),
    );
    (pos.len() == 0 || found >= least as usize) && !against
}

fn check_predicate(from: &str, ctx: &MatchContext<'_>, p: &MatchPredicate, end: usize) -> (r: bool)
    requires
        ctx.wf(),
        ctx.start <= end <= ctx.text@.len(),
        p@ matches PredicateModel::Clues(pos, neg, _) ==> rising(pos) && rising(neg),
    ensures
        r == passes(from@, ctx@, p@, end as int),
{
    match p {
        MatchPredicate::RequireVariantConfig => {
            let simplified: bool = match ctx.zh_type {
                ChineseType::Simplified => true,
                _ => false,
            };
            ctx.cfg.variant_normalization && !simplified
        },
        MatchPredicate::RequireAiFillerDetection => ctx.cfg.ai_filler_detection,
        MatchPredicate::RequireTranslationeseDetection => ctx.cfg.translationese_detection,
        MatchPredicate::RequireStanceAllow => ctx.stance.allows_rule(from),
        MatchPredicate::RejectIfExcluded => !is_excluded(
            ctx.text.byte(ctx.start),
            ctx.text.byte(end),
            ctx.excluded,
        ),
        MatchPredicate::RejectIfSuperstring { forms } => !covered_by_form(
            ctx.text,
            ctx.start,
            forms,
        ),
        MatchPredicate::RejectIfWordBoundaryStraddles => !ctx.straddles,
        MatchPredicate::RejectIfInExceptionPhrase { exceptions } => !covered_by_form(
            ctx.text,
            ctx.start,
            exceptions,
        ),
        MatchPredicate::CheckClues { pos_ids, neg_ids, min_pos_matches } => check_clues(
            ctx,
            pos_ids,
            neg_ids,
            *min_pos_matches,
            end,
        ),
        MatchPredicate::RequirePositionalClues { clues } => check_positional_clues(
            ctx.text,
            ctx.start,
            end,
            ctx.excluded,
            clues,
        ),
        MatchPredicate::MayExtendDeletionSpan => true,
    }
}

/// Takes a match through the chain of a rule whose phrase is `from`. The
/// finding where it passes, none where it does not.
pub fn eval_predicates(from: &str, rule: &CompiledRule, ctx: &MatchContext<'_>) -> (r: Option<
    Issue,
>)
    requires
        ctx.wf(),
        sound_ids(predicate_models(rule.predicates@)),
    ensures
        match (r, chain(
            from@,
            ctx@,
            predicate_models(rule.predicates@),
            0,
            ctx.end as int,
        )) {
            (Some(issue), Some(end)) => issue@ == deferred(
                ctx.text@,
                ctx.start as int,
                end,
                rule.rule_type,
                rule.severity,
                rule.rule_idx as int,
            ),
            (None, None) => true,
            _ => false,
        },
{
    let ghost ps = predicate_models(rule.predicates@);
    let mut end: usize = ctx.end;
    let mut k: usize = 0;
    while k < rule.predicates.len()
        invariant
            ctx.wf(),
            ps == predicate_models(rule.predicates@),
            sound_ids(ps),
            k <= rule.predicates@.len(),
            ctx.start <= end <= ctx.text@.len(),
            chain(from@, ctx@, ps, k as int, end as int) == chain(
                from@,
                ctx@,
                ps,
                0,
                ctx.end as int,
            ),
        decreases rule.predicates@.len() - k,
    {
        assert(ps[k as int] == rule.predicates@[k as int]@);
        if !check_predicate(from, ctx, &rule.predicates[k], end) {
            return None;
        }
        let extends: bool = match &rule.predicates[k] {
            MatchPredicate::MayExtendDeletionSpan => true,
            _ => false,
        };
        if extends {
            end = extended_deletion_span(ctx, end);
        }
        k = k + 1;
    }
    proof {
        lemma_byte_pos_monotone(ctx.text@, ctx.start as int, end as int);
    }
    let start: usize = ctx.text.byte(ctx.start);
    Some(
        Issue::deferred_spelling(
            start,
            ctx.text.byte(end) - start,
            rule.rule_type.issue_type(),
            rule.severity,
            rule.rule_idx,
        ),
    )
}

/// Where the needle stands within `from..to` of `h`, one occurrence after
/// another. An empty one stands before every character and at the end.
pub open spec fn occurrences(h: Seq<char>, needle: Seq<char>, from: int, to: int) -> Seq<int>
    decreases to - from,
{
    match find_in(h, needle, from, to) {
        None => Seq::empty(),
        Some(p) => {
            let next = if needle.len() == 0 {
                p + 1
            } else {
                p + needle.len()
            };
            if from < next <= to {
                seq![p] + occurrences(h, needle, next, to)
            } else {
                seq![p]
            }
        },
    }
}

/// A form with the places where the phrase stands in it.
pub open spec fn placed(form: Seq<char>, from: Seq<char>) -> (Seq<char>, Seq<int>) {
    (form, occurrences(form, from, 0, form.len() as int))
}

/// Those of the first `n` forms in which the phrase stands.
pub open spec fn superstrings(to: Seq<Seq<char>>, from: Seq<char>, n: int) -> Seq<
    (Seq<char>, Seq<int>),
>
    decreases n,
{
    if n <= 0 {
        Seq::empty()
    } else if contains_in(to[n - 1], from, 0, to[n - 1].len() as int) {
        superstrings(to, from, n - 1).push(placed(to[n - 1], from))
    } else {
        superstrings(to, from, n - 1)
    }
}

/// Every form with the places where the phrase stands in it.
pub open spec fn all_placed(v: Seq<Seq<char>>, from: Seq<char>) -> Seq<(Seq<char>, Seq<int>)> {
    Seq::new(v.len(), |i: int| placed(v[i], from))
}

pub open spec fn one(p: PredicateModel) -> Seq<PredicateModel> {
    seq![p]
}

/// What a rule of this type must have switched on.
pub open spec fn gate_part(rule_type: RuleType) -> Seq<PredicateModel> {
    match rule_type {
        RuleType::Variant => one(PredicateModel::VariantConfig),
        RuleType::AiFiller => one(PredicateModel::AiFillerDetection),
        RuleType::Translationese => one(PredicateModel::TranslationeseDetection),
        RuleType::PoliticalColoring => one(PredicateModel::StanceAllow),
        _ => Seq::empty(),
    }
}

pub open spec fn superstring_part(m: RuleModel, flags: u8) -> Seq<PredicateModel> {
    let forms = superstrings(m.to, m.from, m.to.len() as int);
    if flags & FILTER_HAS_SUPERSTRING != 0 && forms.len() > 0 {
        one(PredicateModel::NotInReplacement(forms))
    } else {
        Seq::empty()
    }
}

pub open spec fn clue_part(pos: Seq<u16>, neg: Seq<u16>) -> Seq<PredicateModel> {
    if pos.len() > 0 || neg.len() > 0 {
        one(
            PredicateModel::Clues(
                pos,
                neg,
                if pos.len() == 0 {
                    0
                } else {
                    MIN_SCAN_CLUE_MATCHES as int
                },
            ),
        )
    } else {
        Seq::empty()
    }
}

pub open spec fn exception_part(m: RuleModel, flags: u8) -> Seq<PredicateModel> {
    match m.exceptions {
        Some(v) => if flags & FILTER_HAS_EXCEPTIONS != 0 && v.len() > 0 {
            one(PredicateModel::NotInException(all_placed(v, m.from)))
        } else {
            Seq::empty()
        },
        None => Seq::empty(),
    }
}

pub open spec fn positional_part(clues: Seq<ClueModel>) -> Seq<PredicateModel> {
    if clues.len() > 0 {
        one(PredicateModel::Positional(clues))
    } else {
        Seq::empty()
    }
}

pub open spec fn deletion_part(flags: u8) -> Seq<PredicateModel> {
    if flags & FILTER_IS_DELETION != 0 {
        one(PredicateModel::ExtendDeletion)
    } else {
        Seq::empty()
    }
}

/// The chain of a rule: what is cheap to test comes first, and the change of
/// the span last.
pub open spec fn chain_of(
    m: RuleModel,
    flags: u8,
    pos: Seq<u16>,
    neg: Seq<u16>,
    clues: Seq<ClueModel>,
) -> Seq<PredicateModel> {
    gate_part(m.rule_type) + one(PredicateModel::NotExcluded) + superstring_part(m, flags)
        + clue_part(pos, neg) + one(PredicateModel::NotStraddling) + exception_part(m, flags)
        + positional_part(clues) + deletion_part(flags)
}

fn find_places(form: &str, from: &str) -> (r: Vec<usize>)
    ensures
        places_of(r@) == occurrences(form@, from@, 0, form@.len() as int),
{
    let text = Text::new(form);
    let n: usize = text.len();
    let width: usize = from.unicode_len();
    let step: usize = if width == 0 {
        1
    } else {
        width
    };
    let mut r: Vec<usize> = Vec::new();
    let mut at: usize = 0;
    let mut more: bool = true;
    assert(places_of(r@) =~= Seq::empty());
    while more
        invariant
            text.wf(),
            text@ == form@,
            n == form@.len(),
            step == (if from@.len() == 0 {
                1nat
            } else {
                from@.len()
            }),
            at <= n,
            places_of(r@) + (if more {
                occurrences(form@, from@, at as int, n as int)
            } else {
                Seq::empty()
            }) =~= occurrences(form@, from@, 0, n as int),
        decreases
                n - at + (if more {
                    1int
                } else {
                    0int
                }),
    {
        match text.find(from, at, n) {
            Some(p) => {
                let ghost before = places_of(r@);
                r.push(p);
                assert(places_of(r@) =~= before.push(p as int));
                if step <= n - p {
                    at = p + step;
                } else {
                    more = false;
                }
            },
            None => {
                more = false;
            },
        }
    }
    r
}

fn place_superstrings(rule: &SpellingRule) -> (r: Vec<(String, Vec<usize>)>)
    ensures
        forms_of(r@) == superstrings(rule@.to, rule@.from, rule@.to.len() as int),
{
    let mut r: Vec<(String, Vec<usize>)> = Vec::new();
    let mut i: usize = 0;
    assert(forms_of(r@) =~= Seq::empty());
    while i < rule.to.len()
        invariant
            i <= rule.to@.len(),
            forms_of(r@) == superstrings(rule@.to, rule@.from, i as int),
        decreases rule.to@.len() - i,
    {
        let ghost before = forms_of(r@);
        assert(rule@.to[i as int] == rule.to@[i as int]@);
        let form = Text::new(rule.to[i].as_str());
        let n: usize = form.len();
        if form.find(rule.from.as_str(), 0, n).is_some() {
            r.push((rule.to[i].clone(), find_places(rule.to[i].as_str(), rule.from.as_str())));
            assert(forms_of(r@) =~= before.push(placed(rule@.to[i as int], rule@.from)));
        }
        i = i + 1;
    }
    r
}

fn place_all(v: &Vec<String>, from: &str) -> (r: Vec<(String, Vec<usize>)>)
    ensures
        forms_of(r@) == all_placed(strings(v@), from@),
{
    let mut r: Vec<(String, Vec<usize>)> = Vec::new();
    let mut i: usize = 0;
    while i < v.len()
        invariant
            i <= v@.len(),
            r@.len() == i,
            forall|k: int|
                0 <= k < i ==> forms_of(r@)[k] == #[trigger] all_placed(strings(v@), from@)[k],
        decreases v@.len() - i,
    {
        let ghost before = forms_of(r@);
        r.push((v[i].clone(), find_places(v[i].as_str(), from)));
        assert(forms_of(r@) =~= before.push(placed(strings(v@)[i as int], from@)));
        i = i + 1;
    }
    assert(forms_of(r@) =~= all_placed(strings(v@), from@));
    r
}

fn copy_ids(o: Option<&[u16]>) -> (r: Vec<u16>)
    ensures
        r@ == ids_of(o),
{
    let mut r: Vec<u16> = Vec::new();
    if let Some(v) = o {
        let mut i: usize = 0;
        while i < v.len()
            invariant
                i <= v@.len(),
                r@ =~= v@.take(i as int),
            decreases v@.len() - i,
        {
            r.push(v[i]);
            i = i + 1;
        }
        assert(v@.take(v@.len() as int) =~= v@);
    }
    r
}

pub open spec fn clues_of(o: Option<&Vec<PositionalClue>>) -> Seq<ClueModel> {
    match o {
        Some(v) => clue_models(v@),
        None => Seq::empty(),
    }
}

fn copy_clues(o: Option<&Vec<PositionalClue>>) -> (r: Vec<PositionalClue>)
    ensures
        clue_models(r@) == clues_of(o),
{
    let mut r: Vec<PositionalClue> = Vec::new();
    if let Some(v) = o {
        let mut i: usize = 0;
        while i < v.len()
            invariant
                i <= v@.len(),
                r@.len() == i,
                forall|k: int| 0 <= k < i ==> (#[trigger] r@[k])@ == v@[k]@,
            decreases v@.len() - i,
        {
            r.push(v[i].copy());
            i = i + 1;
        }
    }
    assert(clue_models(r@) =~= clues_of(o));
    r
}

fn push_predicate(preds: &mut Vec<MatchPredicate>, p: MatchPredicate)
    ensures
        predicate_models(final(preds)@) == predicate_models(old(preds)@) + one(p@),
{
    let ghost before = predicate_models(preds@);
    preds.push(p);
    assert(predicate_models(preds@) =~= before + one(p@));
}

fn gate(rule_type: RuleType) -> (r: Option<MatchPredicate>)
    ensures
        match r {
            Some(p) => gate_part(rule_type) == one(p@),
            None => gate_part(rule_type) == Seq::<PredicateModel>::empty(),
        },
{
    match rule_type {
        RuleType::Variant => Some(MatchPredicate::RequireVariantConfig),
        RuleType::AiFiller => Some(MatchPredicate::RequireAiFillerDetection),
        RuleType::Translationese => Some(MatchPredicate::RequireTranslationeseDetection),
        RuleType::PoliticalColoring => Some(MatchPredicate::RequireStanceAllow),
        _ => None,
    }
}

/// Compiles the chain of one rule.
pub fn compile_rule_predicates(
    rule: &SpellingRule,
    flags: u8,
    pos_clue_ids: Option<&[u16]>,
    neg_clue_ids: Option<&[u16]>,
    positional_clues: Option<&Vec<PositionalClue>>,
) -> (r: Vec<MatchPredicate>)
    ensures
        predicate_models(r@) == chain_of(
            rule@,
            flags,
            ids_of(pos_clue_ids),
            ids_of(neg_clue_ids),
            clues_of(positional_clues),
        ),
{
    let ghost m = rule@;
    let mut preds: Vec<MatchPredicate> = Vec::new();
    assert(predicate_models(preds@) =~= Seq::empty());
    if let Some(p) = gate(rule.rule_type) {
        push_predicate(&mut preds, p);
    }
    assert(predicate_models(preds@) =~= gate_part(m.rule_type));
    push_predicate(&mut preds, MatchPredicate::RejectIfExcluded);
    let ghost so_far = gate_part(m.rule_type) + one(PredicateModel::NotExcluded);
    if flags & FILTER_HAS_SUPERSTRING != 0 {
        let forms = place_superstrings(rule);
        assert(forms_of(forms@).len() == forms@.len());
        if forms.len() > 0 {
            push_predicate(&mut preds, MatchPredicate::RejectIfSuperstring { forms });
        }
    }
    assert(predicate_models(preds@) =~= so_far + superstring_part(m, flags));
    let pos = copy_ids(pos_clue_ids);
    let neg = copy_ids(neg_clue_ids);
    let ghost so_far = so_far + superstring_part(m, flags);
    let ghost (pos_ids, neg_ids) = (pos@, neg@);
    if pos.len() > 0 || neg.len() > 0 {
        let least: u32 = if pos.len() == 0 {
            0
        } else {
            MIN_SCAN_CLUE_MATCHES
        };
        push_predicate(
            &mut preds,
            MatchPredicate::CheckClues { pos_ids: pos, neg_ids: neg, min_pos_matches: least },
        );
    }
    assert(predicate_models(preds@) =~= so_far + clue_part(pos_ids, neg_ids));
    push_predicate(&mut preds, MatchPredicate::RejectIfWordBoundaryStraddles);
    let ghost so_far = so_far + clue_part(pos_ids, neg_ids) + one(PredicateModel::NotStraddling);
    if flags & FILTER_HAS_EXCEPTIONS != 0 {
        if let Some(v) = &rule.exceptions {
            if v.len() > 0 {
                push_predicate(
                    &mut preds,
                    MatchPredicate::RejectIfInExceptionPhrase {
                        exceptions: place_all(v, rule.from.as_str()),
                    },
                );
            }
        }
    }
    assert(predicate_models(preds@) =~= so_far + exception_part(m, flags));
    let ghost so_far = so_far + exception_part(m, flags);
    let clues = copy_clues(positional_clues);
    let ghost said = clues_of(positional_clues);
    assert(clue_models(clues@).len() == clues@.len());
    if clues.len() > 0 {
        push_predicate(&mut preds, MatchPredicate::RequirePositionalClues { clues });
    }
    assert(predicate_models(preds@) =~= so_far + positional_part(said));
    let ghost so_far = so_far + positional_part(said);
    if flags & FILTER_IS_DELETION != 0 {
        push_predicate(&mut preds, MatchPredicate::MayExtendDeletionSpan);
    }
    assert(predicate_models(preds@) =~= so_far + deletion_part(flags));
    preds
}

/// The match passes what the rule asks of it.
pub open spec fn rule_passes(
    m: RuleModel,
    flags: u8,
    pos: Seq<u16>,
    neg: Seq<u16>,
    clues: Seq<ClueModel>,
    ctx: ContextModel,
) -> bool {
    let t = ctx.t;
    let ex = ctx.ex;
    let (s, e) = (ctx.start, ctx.end);
    &&& m.rule_type is Variant ==> ctx.cfg.variant_normalization && !(ctx.zh_type is Simplified)
    &&& m.rule_type is AiFiller ==> ctx.cfg.ai_filler_detection
    &&& m.rule_type is Translationese ==> ctx.cfg.translationese_detection
    &&& m.rule_type is PoliticalColoring ==> ctx.stance.allows(m.from)
    &&& !span_excluded(t, ex, s, e)
    &&& flags & FILTER_HAS_SUPERSTRING != 0 ==> !covered(
        t,
        s,
        superstrings(m.to, m.from, m.to.len() as int),
    )
    &&& clues_pass(
        ctx,
        pos,
        neg,
        if pos.len() == 0 {
            0
        } else {
            MIN_SCAN_CLUE_MATCHES as int
        },
        e,
    )
    &&& !ctx.straddles
    &&& flags & FILTER_HAS_EXCEPTIONS != 0 ==> (m.exceptions matches Some(v) ==> !covered(
        t,
        s,
        all_placed(v, m.from),
    ))
    &&& all_hold(t, ex, s, e, clues)
}

proof fn lemma_chain_shift(
    from: Seq<char>,
    ctx: ContextModel,
    p: Seq<PredicateModel>,
    q: Seq<PredicateModel>,
    k: int,
    end: int,
)
    requires
        0 <= k <= q.len(),
    ensures
        chain(from, ctx, p + q, p.len() + k, end) == chain(from, ctx, q, k, end),
    decreases q.len() - k,
{
    if k < q.len() {
        assert((p + q)[p.len() + k] == q[k]);
        lemma_chain_shift(
            from,
            ctx,
            p,
            q,
            k + 1,
            if q[k] is ExtendDeletion {
                extended_end(ctx.t, ctx.ex, end)
            } else {
                end
            },
        );
    }
}

proof fn lemma_chain_append(
    from: Seq<char>,
    ctx: ContextModel,
    p: Seq<PredicateModel>,
    q: Seq<PredicateModel>,
    k: int,
    end: int,
)
    requires
        0 <= k <= p.len(),
    ensures
        chain(from, ctx, p + q, k, end) == (match chain(from, ctx, p, k, end) {
            Some(e) => chain(from, ctx, q, 0, e),
            None => None,
        }),
    decreases p.len() - k,
{
    if k < p.len() {
        assert((p + q)[k] == p[k]);
        lemma_chain_append(
            from,
            ctx,
            p,
            q,
            k + 1,
            if p[k] is ExtendDeletion {
                extended_end(ctx.t, ctx.ex, end)
            } else {
                end
            },
        );
    } else {
        lemma_chain_shift(from, ctx, p, q, 0, end);
    }
}

/// A part of a chain that holds no change of the span, and at most one
/// predicate.
proof fn lemma_chain_part(
    from: Seq<char>,
    ctx: ContextModel,
    p: Seq<PredicateModel>,
    part: Seq<PredicateModel>,
    end: int,
)
    requires
        part.len() <= 1,
        part.len() == 1 ==> !(part[0] is ExtendDeletion),
        chain(from, ctx, p, 0, end) is Some ==> chain(from, ctx, p, 0, end) == Some(end),
    ensures
        chain(from, ctx, p + part, 0, end) == (if chain(from, ctx, p, 0, end) is Some && (part.len()
            == 0 || passes(from, ctx, part[0], end)) {
            Some(end)
        } else {
            None
        }),
{
    lemma_chain_append(from, ctx, p, part, 0, end);
    reveal_with_fuel(chain, 3);
}

/// A compiled chain lets a match pass exactly where the rule does, and takes
/// in a mark behind it exactly where the rule deletes its phrase.
pub proof fn law_chain_decides(
    m: RuleModel,
    flags: u8,
    pos: Seq<u16>,
    neg: Seq<u16>,
    clues: Seq<ClueModel>,
    ctx: ContextModel,
)
    ensures
        chain(m.from, ctx, chain_of(m, flags, pos, neg, clues), 0, ctx.end) == (if rule_passes(
            m,
            flags,
            pos,
            neg,
            clues,
            ctx,
        ) {
            Some(
                if flags & FILTER_IS_DELETION != 0 {
                    extended_end(ctx.t, ctx.ex, ctx.end)
                } else {
                    ctx.end
                },
            )
        } else {
            None
        }),
{
    let e = ctx.end;
    let from = m.from;
    let p0 = Seq::<PredicateModel>::empty();
    let p1 = p0 + gate_part(m.rule_type);
    let p2 = p1 + one(PredicateModel::NotExcluded);
    let p3 = p2 + superstring_part(m, flags);
    let p4 = p3 + clue_part(pos, neg);
    let p5 = p4 + one(PredicateModel::NotStraddling);
    let p6 = p5 + exception_part(m, flags);
    let p7 = p6 + positional_part(clues);
    assert(p1 =~= gate_part(m.rule_type));
    lemma_chain_part(from, ctx, p0, gate_part(m.rule_type), e);
    lemma_chain_part(from, ctx, p1, one(PredicateModel::NotExcluded), e);
    lemma_chain_part(from, ctx, p2, superstring_part(m, flags), e);
    lemma_chain_part(from, ctx, p3, clue_part(pos, neg), e);
    lemma_chain_part(from, ctx, p4, one(PredicateModel::NotStraddling), e);
    lemma_chain_part(from, ctx, p5, exception_part(m, flags), e);
    lemma_chain_part(from, ctx, p6, positional_part(clues), e);
    lemma_chain_append(from, ctx, p7, deletion_part(flags), 0, e);
    reveal_with_fuel(chain, 3);
    lemma_no_clues(ctx, e);
    if pos.len() == 0 && neg.len() == 0 {
        assert(pos =~= Seq::empty());
        assert(neg =~= Seq::empty());
    }
    assert(chain_of(m, flags, pos, neg, clues) == p7 + deletion_part(flags));
}

/// Without clues to look for, none is missed and none speaks against.
proof fn lemma_no_clues(ctx: ContextModel, end: int)
    ensures
        clues_pass(ctx, Seq::empty(), Seq::empty(), 0, end),
{
    let t = ctx.t;
    let (a, b) = context_span(t, ctx.ex, ctx.start, end);
    let v = ctx.index;
    let lo = crate::clues::first_from(v, byte_pos(t, a), v.len() as int);
    let hi = crate::clues::first_from(v, byte_pos(t, b), v.len() as int);
    lemma_none_listed(v, lo, hi);
}

proof fn lemma_none_listed(v: Seq<(usize, u16)>, from: int, to: int)
    ensures
        crate::clues::first_listed(v, Seq::empty(), from, to) >= to,
    decreases to - from,
{
    if from < to {
        lemma_none_listed(v, from + 1, to);
    }
}

/// Place of a kind of predicate in a chain.
pub open spec fn place_of(p: PredicateModel) -> int {
    match p {
        PredicateModel::VariantConfig => 0,
        PredicateModel::AiFillerDetection => 0,
        PredicateModel::TranslationeseDetection => 0,
        PredicateModel::StanceAllow => 0,
        PredicateModel::NotExcluded => 1,
        PredicateModel::NotInReplacement(_) => 2,
        PredicateModel::Clues(_, _, _) => 3,
        PredicateModel::NotStraddling => 4,
        PredicateModel::NotInException(_) => 5,
        PredicateModel::Positional(_) => 6,
        PredicateModel::ExtendDeletion => 7,
    }
}

/// The kinds stand in their places, each once, and none from place `r` on.
spec fn placed_below(ps: Seq<PredicateModel>, r: int) -> bool {
    &&& forall|i: int| 0 <= i < ps.len() ==> place_of(#[trigger] ps[i]) < r
    &&& forall|i: int, j: int|
        0 <= i < j < ps.len() ==> place_of(#[trigger] ps[i]) < place_of(#[trigger] ps[j])
}

proof fn lemma_placed_part(ps: Seq<PredicateModel>, part: Seq<PredicateModel>, r: int)
    requires
        placed_below(ps, r),
        part.len() <= 1,
        part.len() == 1 ==> place_of(part[0]) == r,
    ensures
        placed_below(ps + part, r + 1),
{
    let all = ps + part;
    assert forall|i: int| 0 <= i < all.len() implies place_of(#[trigger] all[i]) < r + 1 by {
        if i < ps.len() {
            assert(all[i] == ps[i]);
        } else {
            assert(all[i] == part[0]);
        }
    }
    assert forall|i: int, j: int| 0 <= i < j < all.len() implies place_of(#[trigger] all[i])
        < place_of(#[trigger] all[j]) by {
        assert(all[i] == ps[i]);
        if j < ps.len() {
            assert(all[j] == ps[j]);
        } else {
            assert(all[j] == part[0]);
        }
    }
}

/// Each kind of predicate stands in a chain once at most, and the kinds keep
/// their order. The tests for excluded text and for cut words are in every
/// chain.
pub proof fn law_chain_holds_each_kind_once(
    m: RuleModel,
    flags: u8,
    pos: Seq<u16>,
    neg: Seq<u16>,
    clues: Seq<ClueModel>,
    i: int,
    j: int,
)
    ensures
        ({
            let c = chain_of(m, flags, pos, neg, clues);
            &&& 0 <= i < j < c.len() ==> place_of(c[i]) < place_of(c[j])
            &&& c.contains(PredicateModel::NotExcluded)
            &&& c.contains(PredicateModel::NotStraddling)
        }),
{
    let p0 = Seq::<PredicateModel>::empty();
    let p1 = p0 + gate_part(m.rule_type);
    let p2 = p1 + one(PredicateModel::NotExcluded);
    let p3 = p2 + superstring_part(m, flags);
    let p4 = p3 + clue_part(pos, neg);
    let p5 = p4 + one(PredicateModel::NotStraddling);
    let p6 = p5 + exception_part(m, flags);
    let p7 = p6 + positional_part(clues);
    let c = p7 + deletion_part(flags);
    lemma_placed_part(p0, gate_part(m.rule_type), 0);
    lemma_placed_part(p1, one(PredicateModel::NotExcluded), 1);
    lemma_placed_part(p2, superstring_part(m, flags), 2);
    lemma_placed_part(p3, clue_part(pos, neg), 3);
    lemma_placed_part(p4, one(PredicateModel::NotStraddling), 4);
    lemma_placed_part(p5, exception_part(m, flags), 5);
    lemma_placed_part(p6, positional_part(clues), 6);
    lemma_placed_part(p7, deletion_part(flags), 7);
    assert(p1 =~= gate_part(m.rule_type));
    assert(c == chain_of(m, flags, pos, neg, clues));
    assert(c[p1.len() as int] == PredicateModel::NotExcluded);
    assert(c[p4.len() as int] == PredicateModel::NotStraddling);
}

} // verus!
