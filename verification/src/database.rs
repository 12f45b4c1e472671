//! The compiled rules of the lexical pass.
use vstd::prelude::*;

use crate::absorb::{build_automata, lemma_patterns, patterns, Automata};
use crate::automaton::{all_distinct, all_nonempty};
use crate::clues::{clue_models, ids_of, parsed_clue, rising, ClueModel, PositionalClue};
use crate::issue::strings;
use crate::predicates::{
    chain_of, compile_rule_predicates, predicate_models, sound_ids, CompiledRule, PredicateModel,
    FILTER_HAS_EXCEPTIONS, FILTER_HAS_NEG_CLUES, FILTER_HAS_POSITIONAL, FILTER_HAS_POS_CLUES,
    FILTER_HAS_SUPERSTRING, FILTER_IS_DELETION,
};
use crate::prepare::{
    law_prepared_rules, prepare_rules, prepared, survivors, with_unique_clues, ProfileFilter,
};
use crate::rules::{
    effective_suggestions, listed_or_none, rule_models, suggestions_of, RuleModel, SpellingRule,
};
use crate::selector::{selectable, compile_context_selector, groups_of, CompiledContextSelector};
use crate::text::{contains_in, Text};
use crate::vocabulary::{build_clue_index, opt_ids, ClueVocabulary};

verus! {

/// Neither clues nor clues tied to a side, but something else to check.
pub const CLASS_SIMPLE: u8 = 0;

/// Clues, none tied to a side.
pub const CLASS_CLUED: u8 = 1;

/// Clues tied to a side.
pub const CLASS_FULL: u8 = 2;

/// Nothing to check besides exclusion and word boundaries.
pub const CLASS_TRULY_SIMPLE: u8 = 3;

/// The phrase stands in one of the rule's replacements.
pub open spec fn has_superstring(m: RuleModel) -> bool {
    exists|k: int|
        0 <= k < m.to.len() && #[trigger] contains_in(m.to[k], m.from, 0, m.to[k].len() as int)
}

pub open spec fn bit(b: bool, mask: u8) -> u8 {
    if b {
        mask
    } else {
        0
    }
}

fn mask_if(b: bool, mask: u8) -> (r: u8)
    ensures
        r == bit(b, mask),
{
    if b {
        mask
    } else {
        0
    }
}

/// What there is to check of a rule's matches, one bit each.
pub open spec fn flags_of(m: RuleModel, pos: bool, neg: bool, positional: bool) -> u8 {
    bit(has_superstring(m), FILTER_HAS_SUPERSTRING) | bit(
        listed_or_none(m.exceptions).len() > 0,
        FILTER_HAS_EXCEPTIONS,
    ) | bit(pos, FILTER_HAS_POS_CLUES) | bit(neg, FILTER_HAS_NEG_CLUES) | bit(
        positional,
        FILTER_HAS_POSITIONAL,
    ) | bit(m.deletes(), FILTER_IS_DELETION)
}

/// The bits of a rule's flags say what they stand for.
pub proof fn law_flags_match_the_rule(m: RuleModel, pos: bool, neg: bool, positional: bool)
    ensures
        ({
            let f = flags_of(m, pos, neg, positional);
            &&& (f & FILTER_HAS_SUPERSTRING != 0) == has_superstring(m)
            &&& (f & FILTER_HAS_EXCEPTIONS != 0) == (listed_or_none(m.exceptions).len() > 0)
            &&& (f & FILTER_HAS_POS_CLUES != 0) == pos
            &&& (f & FILTER_HAS_NEG_CLUES != 0) == neg
            &&& (f & FILTER_HAS_POSITIONAL != 0) == positional
            &&& (f & FILTER_IS_DELETION != 0) == m.deletes()
        }),
{
    let a = bit(has_superstring(m), FILTER_HAS_SUPERSTRING);
    let b = bit(listed_or_none(m.exceptions).len() > 0, FILTER_HAS_EXCEPTIONS);
    let c = bit(pos, FILTER_HAS_POS_CLUES);
    let d = bit(neg, FILTER_HAS_NEG_CLUES);
    let e = bit(positional, FILTER_HAS_POSITIONAL);
    let g = bit(m.deletes(), FILTER_IS_DELETION);
    let f = flags_of(m, pos, neg, positional);
    assert(f == a | b | c | d | e | g);
    assert((f & 1 != 0) == (a != 0) && (f & 2 != 0) == (b != 0) && (f & 4 != 0) == (c != 0) && (f & 8
        != 0) == (d != 0) && (f & 16 != 0) == (e != 0) && (f & 32 != 0) == (g != 0))
        by (bit_vector)
        requires
            f == a | b | c | d | e | g,
            a == 0 || a == 1u8,
            b == 0 || b == 2u8,
            c == 0 || c == 4u8,
            d == 0 || d == 8u8,
            e == 0 || e == 16u8,
            g == 0 || g == 32u8,
    ;
}

/// Which kind of rule the flags make.
pub open spec fn class_of(flags: u8) -> u8 {
    if flags & FILTER_HAS_POSITIONAL != 0 {
        CLASS_FULL
    } else if flags & (FILTER_HAS_POS_CLUES | FILTER_HAS_NEG_CLUES) != 0 {
        CLASS_CLUED
    } else if flags == 0 {
        CLASS_TRULY_SIMPLE
    } else {
        CLASS_SIMPLE
    }
}

fn rule_class(flags: u8) -> (r: u8)
    ensures
        r == class_of(flags),
{
    if flags & FILTER_HAS_POSITIONAL != 0 {
        CLASS_FULL
    } else if flags & (FILTER_HAS_POS_CLUES | FILTER_HAS_NEG_CLUES) != 0 {
        CLASS_CLUED
    } else if flags == 0 {
        CLASS_TRULY_SIMPLE
    } else {
        CLASS_SIMPLE
    }
}

/// The clues that the first `n` strings write.
pub open spec fn parsed_clues(raw: Seq<Seq<char>>, n: int) -> Seq<ClueModel>
    decreases n,
{
    if n <= 0 {
        Seq::empty()
    } else {
        match parsed_clue(raw[n - 1]) {
            Some(c) => parsed_clues(raw, n - 1).push(c),
            None => parsed_clues(raw, n - 1),
        }
    }
}

/// The clues tied to a side that a rule writes.
pub open spec fn positional_of(m: RuleModel) -> Seq<ClueModel> {
    let raw = listed_or_none(m.positional_clues);
    parsed_clues(raw, raw.len() as int)
}

/// A list of clues that may be missing, as a list.
pub open spec fn opt_clues(o: Option<Vec<PositionalClue>>) -> Seq<ClueModel> {
    match o {
        Some(v) => clue_models(v@),
        None => Seq::empty(),
    }
}

fn parse_clues(rule: &SpellingRule) -> (r: Option<Vec<PositionalClue>>)
    ensures
        opt_clues(r) == positional_of(rule@),
        r is Some == (positional_of(rule@).len() > 0),
{
    match &rule.positional_clues {
        None => None,
        Some(v) => {
            let ghost raw = strings(v@);
            let mut r: Vec<PositionalClue> = Vec::new();
            let mut i: usize = 0;
            assert(clue_models(r@) =~= Seq::empty());
            while i < v.len()
                invariant
                    raw == strings(v@),
                    i <= v@.len(),
                    clue_models(r@) == parsed_clues(raw, i as int),
                decreases v@.len() - i,
            {
                let ghost before = clue_models(r@);
                assert(raw[i as int] == v@[i as int]@);
                if let Some(c) = PositionalClue::parse(v[i].as_str()) {
                    let ghost said = c@;
                    r.push(c);
                    assert(clue_models(r@) =~= before.push(said));
                }
                i = i + 1;
            }
            assert(clue_models(r@).len() == r@.len());
            if r.len() == 0 {
                assert(clue_models(r@) =~= Seq::empty());
                None
            } else {
                Some(r)
            }
        },
    }
}

fn contains_itself(rule: &SpellingRule) -> (r: bool)
    ensures
        r == has_superstring(rule@),
{
    let ghost m = rule@;
    let mut i: usize = 0;
    while i < rule.to.len()
        invariant
            m == rule@,
            i <= rule.to@.len(),
            forall|k: int|
                0 <= k < i ==> !#[trigger] contains_in(
                    m.to[k],
                    m.from,
                    0,
                    m.to[k].len() as int,
                ),
        decreases rule.to@.len() - i,
    {
        assert(m.to[i as int] == rule.to@[i as int]@);
        let form = Text::new(rule.to[i].as_str());
        let n: usize = form.len();
        if form.find(rule.from.as_str(), 0, n).is_some() {
            assert(contains_in(m.to[i as int], m.from, 0, m.to[i as int].len() as int));
            return true;
        }
        i = i + 1;
    }
    false
}

fn filter_flags(rule: &SpellingRule, pos: bool, neg: bool, positional: bool) -> (r: u8)
    ensures
        r == flags_of(rule@, pos, neg, positional),
{
    let exceptions: bool = match &rule.exceptions {
        Some(v) => v.len() > 0,
        None => false,
    };
    mask_if(contains_itself(rule), FILTER_HAS_SUPERSTRING) | mask_if(
        exceptions,
        FILTER_HAS_EXCEPTIONS,
    ) | mask_if(pos, FILTER_HAS_POS_CLUES) | mask_if(neg, FILTER_HAS_NEG_CLUES) | mask_if(
        positional,
        FILTER_HAS_POSITIONAL,
    ) | mask_if(rule.is_deletion_rule(), FILTER_IS_DELETION)
}

/// Numbers that may be missing, as a list.
pub open spec fn ids_or_none(o: Option<Vec<u16>>) -> Seq<u16> {
    match o {
        Some(v) => v@,
        None => Seq::empty(),
    }
}

/// The compiled rules, with the automata that find their phrases and clues.
pub struct CompiledSpellingDb {
    pub automata: Automata,
    pub clues: ClueVocabulary,
    /// The rules, compiled, in the order of the patterns.
    pub rules: Vec<CompiledRule>,
    pub spelling_rules: Vec<SpellingRule>,
    /// Per rule, what it suggests.
    pub spelling_suggestions: Vec<Vec<String>>,
    /// Per rule, the replacements that clues nearby select.
    pub spelling_context_suggestions: Vec<Option<CompiledContextSelector>>,
    /// Per rule, the clues tied to a side.
    pub rule_positional_clues: Vec<Option<Vec<PositionalClue>>>,
    /// Per rule, what there is to check.
    pub rule_filter_flags: Vec<u8>,
    /// Per rule, which kind it is.
    pub rule_classes: Vec<u8>,
}

impl CompiledSpellingDb {
    /// The rules, by what they say.
    pub open spec fn models(&self) -> Seq<RuleModel> {
        rule_models(self.spelling_rules@)
    }

    /// The flags of the `i`-th rule.
    pub open spec fn flags(&self, i: int) -> u8 {
        flags_of(
            self.models()[i],
            self.clues.pos_ids@[i] is Some,
            self.clues.neg_ids@[i] is Some,
            self.rule_positional_clues@[i] is Some,
        )
    }

    /// The chain of the `i`-th rule.
    pub open spec fn chain(&self, i: int) -> Seq<PredicateModel> {
        chain_of(
            self.models()[i],
            self.flags(i),
            ids_or_none(self.clues.pos_ids@[i]),
            ids_or_none(self.clues.neg_ids@[i]),
            positional_of(self.models()[i]),
        )
    }

    /// Every automaton is there that can be built.
    pub open spec fn built(&self) -> bool {
        let v = self.models();
        &&& self.automata.built(v)
        &&& self.clues.built(v)
        &&& forall|i: int|
            0 <= i < v.len() ==> (#[trigger] self.spelling_context_suggestions@[i] is Some
                == selectable(v[i]))
    }

    /// The `i`-th rule is compiled.
    pub open spec fn compiled(&self, i: int) -> bool {
        let m = self.models()[i];
        &&& strings(self.spelling_suggestions@[i]@) == suggestions_of(m)
        &&& self.spelling_context_suggestions@[i] matches Some(s) ==> groups_of(m).len() > 0
            && s.of(groups_of(m))
        &&& groups_of(m).len() == 0 ==> self.spelling_context_suggestions@[i] is None
        &&& opt_clues(self.rule_positional_clues@[i]) == positional_of(m)
        &&& self.rule_positional_clues@[i] is Some == (positional_of(m).len() > 0)
        &&& self.rule_filter_flags@[i] == self.flags(i)
        &&& self.rule_classes@[i] == class_of(self.flags(i))
        &&& self.rules@[i].rule_idx == i
        &&& self.rules@[i].rule_type == m.rule_type
        &&& self.rules@[i].severity == m.weight()
        &&& predicate_models(self.rules@[i].predicates@) == self.chain(i)
    }

    /// The database holds its rules, each compiled, with the automata of all
    /// of them.
    pub open spec fn wf(&self) -> bool {
        let v = self.models();
        &&& self.automata.of(v)
        &&& self.clues.of(v)
        &&& self.rules@.len() == v.len()
        &&& self.spelling_suggestions@.len() == v.len()
        &&& self.spelling_context_suggestions@.len() == v.len()
        &&& self.rule_positional_clues@.len() == v.len()
        &&& self.rule_filter_flags@.len() == v.len()
        &&& self.rule_classes@.len() == v.len()
        &&& forall|i: int| 0 <= i < v.len() ==> #[trigger] self.compiled(i)
        &&& forall|i: int, j: int|
            0 <= i < j < v.len() ==> (#[trigger] v[i]).from != (#[trigger] v[j]).from
    }

    /// The database can be searched with: no phrase is empty.
    pub open spec fn searchable(&self) -> bool {
        self.wf() && all_sound(self.models())
    }
}

/// Every rule names a phrase.
pub open spec fn all_sound(v: Seq<RuleModel>) -> bool {
    forall|i: int| 0 <= i < v.len() ==> (#[trigger] v[i]).sound()
}

/// Prepared rules are as sound as the rules that they were prepared from, and
/// no two are on one phrase.
proof fn lemma_prepared_sound(v: Seq<RuleModel>, filter: ProfileFilter)
    ensures
        all_sound(v) ==> all_sound(prepared(v, filter)),
        forall|i: int, j: int|
            0 <= i < j < prepared(v, filter).len() ==> (#[trigger] prepared(v, filter)[i]).from != (
            #[trigger] prepared(v, filter)[j]).from,
{
    let p = prepared(v, filter);
    let at = crate::keep::lemma_kept_origin(v, survivors(v, filter), v.len() as int);
    if all_sound(v) {
        assert forall|i: int| 0 <= i < p.len() implies (#[trigger] p[i]).sound() by {
            let m = v[at[i]];
            assert(m.sound());
            assert(p[i] == with_unique_clues(m));
        }
    }
    assert forall|i: int, j: int| 0 <= i < j < p.len() implies (#[trigger] p[i]).from != (
    #[trigger] p[j]).from by {
        law_prepared_rules(v, filter, i, j);
    }
}

fn slice_of(o: &Option<Vec<u16>>) -> (r: Option<&[u16]>)
    ensures
        ids_of(r) == ids_or_none(*o),
{
    match o {
        Some(v) => Some(v.as_slice()),
        None => None,
    }
}

/// Compiles a set of rules: reduces it to the rules that count, numbers their
/// clues, builds the automata, and compiles each rule's chain.
pub fn compile_spelling_rules_filtered(
    spelling_rules: Vec<SpellingRule>,
    filter: &ProfileFilter,
) -> (r: CompiledSpellingDb)
    ensures
        r.models() == prepared(rule_models(spelling_rules@), *filter),
        r.wf(),
        r.built(),
        all_sound(rule_models(spelling_rules@)) ==> r.searchable(),
{
    let ghost all = rule_models(spelling_rules@);
    let spelling_rules = prepare_rules(spelling_rules, filter);
    let ghost v = rule_models(spelling_rules@);
    proof {
        lemma_prepared_sound(all, *filter);
    }
    let clues = build_clue_index(&spelling_rules);
    let automata = build_automata(&spelling_rules);
    let n: usize = spelling_rules.len();
    let mut rules: Vec<CompiledRule> = Vec::new();
    let mut spelling_suggestions: Vec<Vec<String>> = Vec::new();
    let mut spelling_context_suggestions: Vec<Option<CompiledContextSelector>> = Vec::new();
    let mut rule_positional_clues: Vec<Option<Vec<PositionalClue>>> = Vec::new();
    let mut rule_filter_flags: Vec<u8> = Vec::new();
    let mut rule_classes: Vec<u8> = Vec::new();
    let mut i: usize = 0;
    while i < n
        invariant
            n == spelling_rules@.len(),
            v == rule_models(spelling_rules@),
            clues.of(v),
            i <= n,
            forall|j: int|
                0 <= j < i ==> (#[trigger] spelling_context_suggestions@[j] is Some == selectable(
                    v[j],
                )),
            rules@.len() == i,
            spelling_suggestions@.len() == i,
            spelling_context_suggestions@.len() == i,
            rule_positional_clues@.len() == i,
            rule_filter_flags@.len() == i,
            rule_classes@.len() == i,
            forall|j: int|
                0 <= j < i ==> entry_compiled(
                    v[j],
                    clues.pos_ids@[j],
                    clues.neg_ids@[j],
                    j,
                    #[trigger] rules@[j],
                    spelling_suggestions@[j],
                    spelling_context_suggestions@[j],
                    rule_positional_clues@[j],
                    rule_filter_flags@[j],
                    rule_classes@[j],
                ),
        decreases n - i,
    {
        let rule = &spelling_rules[i];
        assert(v[i as int] == rule@);
        let suggestions = effective_suggestions(rule);
        let selector = compile_context_selector(rule);
        let positional = parse_clues(rule);
        let flags: u8 = filter_flags(
            rule,
            clues.pos_ids[i].is_some(),
            clues.neg_ids[i].is_some(),
            positional.is_some(),
        );
        let class: u8 = rule_class(flags);
        let predicates = compile_rule_predicates(
            rule,
            flags,
            slice_of(&clues.pos_ids[i]),
            slice_of(&clues.neg_ids[i]),
            positional.as_ref(),
        );
        let compiled = CompiledRule {
            rule_idx: i,
            predicates,
            rule_type: rule.rule_type,
            severity: rule.effective_severity(),
        };
        assert(entry_compiled(
            v[i as int],
            clues.pos_ids@[i as int],
            clues.neg_ids@[i as int],
            i as int,
            compiled,
            suggestions,
            selector,
            positional,
            flags,
            class,
        ));
        rules.push(compiled);
        spelling_suggestions.push(suggestions);
        spelling_context_suggestions.push(selector);
        rule_positional_clues.push(positional);
        rule_filter_flags.push(flags);
        rule_classes.push(class);
        i = i + 1;
    }
    let r = CompiledSpellingDb {
        automata,
        clues,
        rules,
        spelling_rules,
        spelling_suggestions,
        spelling_context_suggestions,
        rule_positional_clues,
        rule_filter_flags,
        rule_classes,
    };
    proof {
        assert(r.models() == v);
        assert forall|j: int| 0 <= j < v.len() implies #[trigger] r.compiled(j) by {
            assert(entry_compiled(
                v[j],
                r.clues.pos_ids@[j],
                r.clues.neg_ids@[j],
                j,
                r.rules@[j],
                r.spelling_suggestions@[j],
                r.spelling_context_suggestions@[j],
                r.rule_positional_clues@[j],
                r.rule_filter_flags@[j],
                r.rule_classes@[j],
            ));
        }
    }
    r
}

/// One rule with everything that was compiled from it.
spec fn entry_compiled(
    m: RuleModel,
    pos: Option<Vec<u16>>,
    neg: Option<Vec<u16>>,
    i: int,
    rule: CompiledRule,
    suggestions: Vec<String>,
    selector: Option<CompiledContextSelector>,
    positional: Option<Vec<PositionalClue>>,
    flags: u8,
    class: u8,
) -> bool {
    let f = flags_of(m, pos is Some, neg is Some, positional is Some);
    &&& strings(suggestions@) == suggestions_of(m)
    &&& selector matches Some(s) ==> groups_of(m).len() > 0 && s.of(groups_of(m))
    &&& groups_of(m).len() == 0 ==> selector is None
    &&& opt_clues(positional) == positional_of(m)
    &&& positional is Some == (positional_of(m).len() > 0)
    &&& flags == f
    &&& class == class_of(f)
    &&& rule.rule_idx == i
    &&& rule.rule_type == m.rule_type
    &&& rule.severity == m.weight()
    &&& predicate_models(rule.predicates@) == chain_of(
        m,
        f,
        ids_or_none(pos),
        ids_or_none(neg),
        positional_of(m),
    )
}

/// The patterns of a database to search with are not empty, and no two are the same;
/// the clue numbers of its chains rise.
pub proof fn lemma_database(db: &CompiledSpellingDb)
    requires
        db.searchable(),
    ensures
        all_nonempty(patterns(db.models())),
        all_distinct(patterns(db.models())),
        forall|i: int| 0 <= i < db.models().len() ==> sound_ids(#[trigger] db.chain(i)),
{
    let v = db.models();
    assert forall|i: int| 0 <= i < v.len() implies (#[trigger] v[i]).from.len() > 0 by {
        assert(v[i].sound());
    }
    lemma_patterns(v);
    assert forall|i: int| 0 <= i < v.len() implies sound_ids(#[trigger] db.chain(i)) by {
        let pos = ids_or_none(db.clues.pos_ids@[i]);
        let neg = ids_or_none(db.clues.neg_ids@[i]);
        assert(opt_ids(db.clues.pos_ids@[i]) is Some ==> rising(pos));
        assert(opt_ids(db.clues.neg_ids@[i]) is Some ==> rising(neg));
        assert(rising(pos) && rising(neg));
        lemma_chain_sound(v[i], db.flags(i), pos, neg, positional_of(v[i]));
    }
}

proof fn lemma_chain_sound(
    m: RuleModel,
    flags: u8,
    pos: Seq<u16>,
    neg: Seq<u16>,
    clues: Seq<ClueModel>,
)
    requires
        rising(pos),
        rising(neg),
    ensures
        sound_ids(chain_of(m, flags, pos, neg, clues)),
{
    let c = chain_of(m, flags, pos, neg, clues);
    assert forall|k: int| 0 <= k < c.len() implies match #[trigger] c[k] {
        PredicateModel::Clues(p, q, _) => rising(p) && rising(q),
        _ => true,
    } by {}
}

} // verus!
