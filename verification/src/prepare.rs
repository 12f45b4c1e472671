//! Which rules are compiled.
use vstd::prelude::*;

use crate::issue::strings;
use crate::keep::{kept, lemma_kept_origin, retain};
use crate::phrase_table::{phrases, PhraseTable};
use crate::profile::ProfileConfig;
use crate::rules::{rule_models, RuleModel, RuleType, SpellingRule};

verus! {

/// Types of rules to leave out, because the profile would never hear them.
#[derive(Clone, Copy, Debug, PartialEq, Eq, Structural)]
pub struct ProfileFilter {
    pub exclude_variant: bool,
    pub exclude_ai_filler: bool,
    pub exclude_translationese: bool,
    pub exclude_spelling: bool,
}

impl ProfileFilter {
    /// The filter leaves rules of the type out.
    pub open spec fn excludes(self, rule_type: RuleType) -> bool {
        ||| self.exclude_variant && rule_type is Variant
        ||| self.exclude_ai_filler && rule_type is AiFiller
        ||| self.exclude_translationese && rule_type is Translationese
        ||| self.exclude_spelling && rule_type.is_spelling()
    }

    /// A filter that leaves nothing out.
    pub fn none() -> (r: Self)
        ensures
            r == (ProfileFilter {
                exclude_variant: false,
                exclude_ai_filler: false,
                exclude_translationese: false,
                exclude_spelling: false,
            }),
            forall|t: RuleType| !#[trigger] r.excludes(t),
    {
        ProfileFilter {
            exclude_variant: false,
            exclude_ai_filler: false,
            exclude_translationese: false,
            exclude_spelling: false,
        }
    }

    /// Whether the filter leaves any type out.
    pub fn excludes_anything(&self) -> (r: bool)
        ensures
            r == (self.exclude_variant || self.exclude_ai_filler || self.exclude_translationese
                || self.exclude_spelling),
            r == exists|t: RuleType| #[trigger] self.excludes(t),
    {
        proof {
            if self.exclude_variant {
                assert(self.excludes(RuleType::Variant));
            }
            if self.exclude_ai_filler {
                assert(self.excludes(RuleType::AiFiller));
            }
            if self.exclude_translationese {
                assert(self.excludes(RuleType::Translationese));
            }
            if self.exclude_spelling {
                assert(self.excludes(RuleType::CrossStrait));
            }
        }
        self.exclude_variant || self.exclude_ai_filler || self.exclude_translationese
            || self.exclude_spelling
    }

    /// The filter that leaves out what the profile has switched off.
    pub fn from_config(cfg: &ProfileConfig) -> (r: Self)
        ensures
            r == (ProfileFilter {
                exclude_variant: !cfg.variant_normalization,
                exclude_ai_filler: !cfg.ai_filler_detection,
                exclude_translationese: !cfg.translationese_detection,
                exclude_spelling: !cfg.spelling,
            }),
    {
        ProfileFilter {
            exclude_variant: !cfg.variant_normalization,
            exclude_ai_filler: !cfg.ai_filler_detection,
            exclude_translationese: !cfg.translationese_detection,
            exclude_spelling: !cfg.spelling,
        }
    }

    fn drops(&self, rule_type: RuleType) -> (r: bool)
        ensures
            r == self.excludes(rule_type),
    {
        match rule_type {
            RuleType::Variant => self.exclude_variant,
            RuleType::AiFiller => self.exclude_ai_filler,
            RuleType::Translationese => self.exclude_translationese,
            _ => self.exclude_spelling,
        }
    }
}

/// No later rule on the same phrase is in force.
pub open spec fn last_word(v: Seq<RuleModel>, i: int) -> bool {
    forall|j: int| i < j < v.len() && !(#[trigger] v[j]).disabled ==> v[j].from != v[i].from
}

/// The rule is in force, and no later one on the same phrase is.
pub open spec fn wins(v: Seq<RuleModel>, i: int) -> bool {
    !v[i].disabled && last_word(v, i)
}

/// The rule is compiled: it wins, no detector owns its phrase, and the filter
/// lets its type through.
pub open spec fn survives(v: Seq<RuleModel>, filter: ProfileFilter, i: int) -> bool {
    wins(v, i) && v[i].structural_guard is None && !filter.excludes(v[i].rule_type)
}

pub open spec fn survivors(v: Seq<RuleModel>, filter: ProfileFilter) -> Seq<bool> {
    Seq::new(v.len(), |i: int| survives(v, filter, i))
}

/// The first `n` entries without repetition.
pub open spec fn unique(s: Seq<Seq<char>>, n: int) -> Seq<Seq<char>>
    decreases n,
{
    if n <= 0 {
        Seq::empty()
    } else if unique(s, n - 1).contains(s[n - 1]) {
        unique(s, n - 1)
    } else {
        unique(s, n - 1).push(s[n - 1])
    }
}

pub open spec fn unique_opt(o: Option<Seq<Seq<char>>>) -> Option<Seq<Seq<char>>> {
    match o {
        Some(s) => Some(unique(s, s.len() as int)),
        None => None,
    }
}

/// The rule with its clues listed once each.
pub open spec fn with_unique_clues(m: RuleModel) -> RuleModel {
    RuleModel {
        context_clues: unique_opt(m.context_clues),
        negative_context_clues: unique_opt(m.negative_context_clues),
        ..m
    }
}

/// The rules that are compiled.
pub open spec fn prepared(v: Seq<RuleModel>, filter: ProfileFilter) -> Seq<RuleModel> {
    let left = kept(v, survivors(v, filter), v.len() as int);
    Seq::new(left.len(), |i: int| with_unique_clues(left[i]))
}

/// Of two compiled rules none is on the phrase of the other; each is in force
/// and belongs to the lexical pass; and the filter lets its type through.
pub proof fn law_prepared_rules(v: Seq<RuleModel>, filter: ProfileFilter, a: int, b: int)
    requires
        0 <= a < b < prepared(v, filter).len(),
    ensures
        prepared(v, filter)[a].from != prepared(v, filter)[b].from,
        !prepared(v, filter)[a].disabled,
        prepared(v, filter)[a].structural_guard is None,
        !filter.excludes(prepared(v, filter)[a].rule_type),
        !prepared(v, filter)[b].disabled,
        prepared(v, filter)[b].structural_guard is None,
        !filter.excludes(prepared(v, filter)[b].rule_type),
{
    let at = lemma_kept_origin(v, survivors(v, filter), v.len() as int);
    let (i, j) = (at[a], at[b]);
    assert(survives(v, filter, i));
    assert(survives(v, filter, j));
    assert(v[j].from != v[i].from);
}

/// A rule in force whose phrase no later rule in force takes is compiled,
/// unless a detector owns it or the filter leaves it out.
pub proof fn law_winning_rules_are_compiled(v: Seq<RuleModel>, filter: ProfileFilter, i: int)
    requires
        0 <= i < v.len(),
        wins(v, i),
        v[i].structural_guard is None,
        !filter.excludes(v[i].rule_type),
    ensures
        prepared(v, filter).contains(with_unique_clues(v[i])),
{
    let left = kept(v, survivors(v, filter), v.len() as int);
    lemma_kept_has(v, survivors(v, filter), v.len() as int, i);
    let k = choose|k: int| 0 <= k < left.len() && left[k] == v[i];
    assert(prepared(v, filter)[k] == with_unique_clues(v[i]));
}

proof fn lemma_kept_has(v: Seq<RuleModel>, keep: Seq<bool>, n: int, i: int)
    requires
        0 <= i < n <= v.len(),
        keep.len() == v.len(),
        keep[i],
    ensures
        kept(v, keep, n).contains(v[i]),
    decreases n,
{
    let before = kept(v, keep, n - 1);
    if i == n - 1 {
        assert(before.push(v[i])[before.len() as int] == v[i]);
    } else {
        lemma_kept_has(v, keep, n - 1, i);
        let k = choose|k: int| 0 <= k < before.len() && before[k] == v[i];
        if keep[n - 1] {
            assert(before.push(v[n - 1])[k] == v[i]);
        }
    }
}

/// Some rule from `i` on is in force and on the phrase.
spec fn taken_from(v: Seq<RuleModel>, i: int, s: Seq<char>) -> bool {
    exists|j: int| i <= j < v.len() && !(#[trigger] v[j]).disabled && v[j].from == s
}

/// Which rules win.
pub fn winners(rules: &Vec<SpellingRule>) -> (r: Vec<bool>)
    ensures
        r@.len() == rules@.len(),
        forall|i: int| 0 <= i < r@.len() ==> #[trigger] r@[i] == wins(rule_models(rules@), i),
{
    let n: usize = rules.len();
    let ghost v = rule_models(rules@);
    let mut r: Vec<bool> = Vec::new();
    let mut k: usize = 0;
    while k < n
        invariant
            k <= n,
            r@.len() == k,
        decreases n - k,
    {
        r.push(false);
        k = k + 1;
    }
    let mut seen = PhraseTable::new();
    let mut i: usize = n;
    while i > 0
        invariant
            n == rules@.len(),
            v == rule_models(rules@),
            i <= n,
            r@.len() == n,
            forall|s: Seq<char>| #[trigger]
                phrases(seen).dom().contains(s) == taken_from(v, i as int, s),
            forall|j: int| i <= j < n ==> #[trigger] r@[j] == wins(v, j),
        decreases i,
    {
        i = i - 1;
        let ghost before = seen;
        assert(v[i as int] == rules@[i as int]@);
        if !rules[i].disabled {
            let free: bool = seen.get(rules[i].from.as_str()).is_none();
            proof {
                assert(phrases(seen).dom().contains(v[i as int].from) == taken_from(
                    v,
                    i + 1,
                    v[i as int].from,
                ));
                if !free {
                    let j = choose|j: int|
                        i + 1 <= j < v.len() && !(#[trigger] v[j]).disabled && v[j].from
                            == v[i as int].from;
                    assert(!v[j].disabled);
                } else {
                    assert forall|j: int|
                        i < j < v.len() && !(#[trigger] v[j]).disabled implies v[j].from
                        != v[i as int].from by {}
                }
                assert(free == wins(v, i as int));
            }
            r.set(i, free);
            seen.insert(rules[i].from.as_str(), i);
        } else {
            r.set(i, false);
        }
        proof {
            assert forall|s: Seq<char>| #[trigger]
                phrases(seen).dom().contains(s) == taken_from(v, i as int, s) by {
                assert(phrases(before).dom().contains(s) == taken_from(v, i + 1, s));
                if taken_from(v, i + 1, s) {
                    let j = choose|j: int|
                        i + 1 <= j < v.len() && !(#[trigger] v[j]).disabled && v[j].from == s;
                    assert(!v[j].disabled);
                }
                if taken_from(v, i as int, s) {
                    let j = choose|j: int|
                        i <= j < v.len() && !(#[trigger] v[j]).disabled && v[j].from == s;
                    assert(!v[j].disabled);
                }
                if !v[i as int].disabled && v[i as int].from == s {
                    assert(!v[i as int].disabled);
                }
            }
        }
    }
    r
}

proof fn lemma_kept_rules(v: Seq<SpellingRule>, keep: Seq<bool>, n: int)
    requires
        0 <= n <= v.len(),
    ensures
        rule_models(kept(v, keep, n)) == kept(rule_models(v), keep, n),
    decreases n,
{
    if n > 0 {
        lemma_kept_rules(v, keep, n - 1);
        if keep[n - 1] {
            assert(rule_models(kept(v, keep, n - 1).push(v[n - 1])) =~= rule_models(
                kept(v, keep, n - 1),
            ).push(rule_models(v)[n - 1]));
        }
    }
    assert(rule_models(kept(v, keep, n)) =~= kept(rule_models(v), keep, n));
}

/// A list without repetition.
fn without_repetition(v: &Vec<String>) -> (r: Vec<String>)
    ensures
        strings(r@) == unique(strings(v@), v@.len() as int),
{
    let ghost s = strings(v@);
    let mut seen = PhraseTable::new();
    let mut r: Vec<String> = Vec::new();
    let mut i: usize = 0;
    assert(strings(r@) =~= Seq::empty());
    while i < v.len()
        invariant
            s == strings(v@),
            i <= v@.len(),
            strings(r@) == unique(s, i as int),
            forall|x: Seq<char>| #[trigger]
                phrases(seen).dom().contains(x) == unique(s, i as int).contains(x),
        decreases v@.len() - i,
    {
        let ghost before = unique(s, i as int);
        let ghost table = seen;
        assert(s[i as int] == v@[i as int]@);
        if seen.get(v[i].as_str()).is_none() {
            assert(!phrases(seen).dom().contains(s[i as int]));
            r.push(v[i].clone());
            seen.insert(v[i].as_str(), i);
            proof {
                assert(strings(r@) =~= before.push(s[i as int]));
                let now = before.push(s[i as int]);
                assert forall|x: Seq<char>| #[trigger] phrases(seen).dom().contains(x)
                    == now.contains(x) by {
                    assert(phrases(table).dom().contains(x) == before.contains(x));
                    if before.contains(x) {
                        let k = choose|k: int| 0 <= k < before.len() && before[k] == x;
                        assert(now[k] == x);
                    }
                    if x == s[i as int] {
                        assert(now[before.len() as int] == x);
                    }
                    if now.contains(x) && x != s[i as int] {
                        let k = choose|k: int| 0 <= k < now.len() && now[k] == x;
                        assert(before[k] == x);
                    }
                }
            }
        } else {
            assert(phrases(seen).dom().contains(s[i as int]));
        }
        i = i + 1;
    }
    r
}

/// Lists the clues of a rule once each.
fn list_clues_once(rules: &mut Vec<SpellingRule>, i: usize)
    requires
        i < old(rules)@.len(),
    ensures
        rule_models(final(rules)@) == rule_models(old(rules)@).update(
            i as int,
            with_unique_clues(old(rules)@[i as int]@),
        ),
{
    let ghost before = rules@;
    let pos: Option<Vec<String>> = match &rules[i].context_clues {
        Some(v) => Some(without_repetition(v)),
        None => None,
    };
    let neg: Option<Vec<String>> = match &rules[i].negative_context_clues {
        Some(v) => Some(without_repetition(v)),
        None => None,
    };
    rules[i].context_clues = pos;
    rules[i].negative_context_clues = neg;
    assert(rules@[i as int]@ == with_unique_clues(before[i as int]@));
    assert(rule_models(rules@) =~= rule_models(before).update(
        i as int,
        with_unique_clues(before[i as int]@),
    ));
}

/// Reduces the rules to those that are compiled: of two on one phrase the
/// later, none that is disabled, none whose phrase a detector owns, and none
/// whose type the filter leaves out. The last rule on a phrase is settled
/// before anything but `disabled` counts.
pub fn prepare_rules(rules: Vec<SpellingRule>, filter: &ProfileFilter) -> (r: Vec<SpellingRule>)
    ensures
        rule_models(r@) == prepared(rule_models(rules@), *filter),
{
    let ghost all = rules@;
    let ghost v = rule_models(rules@);
    let mut rules = rules;
    let mut keep = winners(&rules);
    let mut i: usize = 0;
    while i < rules.len()
        invariant
            rules@ == all,
            v == rule_models(all),
            i <= all.len(),
            keep@.len() == all.len(),
            forall|j: int| 0 <= j < i ==> #[trigger] keep@[j] == survives(v, *filter, j),
            forall|j: int| i <= j < all.len() ==> #[trigger] keep@[j] == wins(v, j),
        decreases all.len() - i,
    {
        assert(v[i as int] == all[i as int]@);
        let lexical: bool = rules[i].structural_guard.is_none();
        let stays: bool = keep[i] && lexical && !filter.drops(rules[i].rule_type);
        keep.set(i, stays);
        i = i + 1;
    }
    assert(keep@ =~= survivors(v, *filter));
    proof {
        lemma_kept_rules(all, keep@, all.len() as int);
    }
    retain(&mut rules, &keep);
    let ghost left = kept(v, keep@, v.len() as int);
    assert(rule_models(rules@) == left);
    let mut k: usize = 0;
    while k < rules.len()
        invariant
            rules@.len() == left.len(),
            k <= left.len(),
            forall|j: int|
                0 <= j < k ==> rule_models(rules@)[j] == with_unique_clues(#[trigger] left[j]),
            forall|j: int| k <= j < left.len() ==> rule_models(rules@)[j] == #[trigger] left[j],
        decreases left.len() - k,
    {
        let ghost before = rule_models(rules@);
        assert(before[k as int] == rules@[k as int]@);
        assert(before[k as int] == left[k as int]);
        list_clues_once(&mut rules, k);
        assert(rule_models(rules@).len() == before.len());
        k = k + 1;
    }
    assert(rule_models(rules@) =~= prepared(v, *filter));
    rules
}

} // verus!
