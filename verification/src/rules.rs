//! The rules of the lexical pass.
use vstd::prelude::*;

use crate::issue::{opt_string, opt_strings, strings, EditorialConfidence, IssueType, Severity};
use crate::text::same;

verus! {

/// What a rule is about.
#[derive(Clone, Copy, Debug, PartialEq, Eq, Structural)]
pub enum RuleType {
    CrossStrait,
    PoliticalColoring,
    Confusable,
    Variant,
    AiFiller,
    Translationese,
}

impl RuleType {
    pub open spec fn family(self) -> IssueType {
        match self {
            RuleType::CrossStrait => IssueType::CrossStrait,
            RuleType::PoliticalColoring => IssueType::PoliticalColoring,
            RuleType::Confusable => IssueType::Confusable,
            RuleType::Variant => IssueType::Variant,
            RuleType::AiFiller => IssueType::AiStyle,
            RuleType::Translationese => IssueType::Translationese,
        }
    }

    /// The public family of the rule's findings.
    pub fn issue_type(self) -> (r: IssueType)
        ensures
            r == self.family(),
    {
        match self {
            RuleType::CrossStrait => IssueType::CrossStrait,
            RuleType::PoliticalColoring => IssueType::PoliticalColoring,
            RuleType::Confusable => IssueType::Confusable,
            RuleType::Variant => IssueType::Variant,
            RuleType::AiFiller => IssueType::AiStyle,
            RuleType::Translationese => IssueType::Translationese,
        }
    }

    pub open spec fn is_spelling(self) -> bool {
        !(self is Variant || self is AiFiller || self is Translationese)
    }

    /// Whether the rule belongs to the spelling family. Variants, fillers and
    /// translationese are families of their own.
    pub fn in_spelling_family(self) -> (r: bool)
        ensures
            r == self.is_spelling(),
    {
        match self {
            RuleType::Variant | RuleType::AiFiller | RuleType::Translationese => false,
            _ => true,
        }
    }

    pub open spec fn usual_severity(self) -> Severity {
        if self is AiFiller {
            Severity::Info
        } else {
            Severity::Warning
        }
    }

    /// The severity of a rule that sets none.
    pub fn default_severity(self) -> (r: Severity)
        ensures
            r == self.usual_severity(),
    {
        match self {
            RuleType::AiFiller => Severity::Info,
            _ => Severity::Warning,
        }
    }
}

/// The script that a document is written in.
#[derive(Clone, Copy, Debug, PartialEq, Eq, Structural)]
pub enum ChineseType {
    Simplified,
    Traditional,
    Unknown,
}

/// Replacements that clues nearby select.
#[derive(Clone, Debug)]
pub struct ContextSuggestion {
    pub clues: Vec<String>,
    pub to: Vec<String>,
}

/// A group of replacements, by the characters of its strings.
#[verifier::ext_equal]
pub ghost struct GroupModel {
    pub clues: Seq<Seq<char>>,
    pub to: Seq<Seq<char>>,
}

impl View for ContextSuggestion {
    type V = GroupModel;

    open spec fn view(&self) -> GroupModel {
        GroupModel { clues: strings(self.clues@), to: strings(self.to@) }
    }
}

/// A phrase to look for, and what is to be said where it stands.
#[derive(Clone, Debug)]
pub struct SpellingRule {
    pub from: String,
    pub to: Vec<String>,
    pub rule_type: RuleType,
    pub disabled: bool,
    pub context: Option<String>,
    pub english: Option<String>,
    pub exceptions: Option<Vec<String>>,
    pub context_clues: Option<Vec<String>>,
    pub negative_context_clues: Option<Vec<String>>,
    pub positional_clues: Option<Vec<String>>,
    pub context_suggestions: Option<Vec<ContextSuggestion>>,
    pub editorial_confidence: Option<EditorialConfidence>,
    /// The severity that the rule sets itself.
    pub severity: Option<Severity>,
    /// The detector that the phrase belongs to, where it belongs to one.
    pub structural_guard: Option<String>,
}

/// A rule, by the characters of its strings.
#[verifier::ext_equal]
pub ghost struct RuleModel {
    pub from: Seq<char>,
    pub to: Seq<Seq<char>>,
    pub rule_type: RuleType,
    pub disabled: bool,
    pub context: Option<Seq<char>>,
    pub english: Option<Seq<char>>,
    pub exceptions: Option<Seq<Seq<char>>>,
    pub context_clues: Option<Seq<Seq<char>>>,
    pub negative_context_clues: Option<Seq<Seq<char>>>,
    pub positional_clues: Option<Seq<Seq<char>>>,
    pub context_suggestions: Option<Seq<GroupModel>>,
    pub editorial_confidence: Option<EditorialConfidence>,
    pub severity: Option<Severity>,
    pub structural_guard: Option<Seq<char>>,
}

pub open spec fn groups(v: Seq<ContextSuggestion>) -> Seq<GroupModel> {
    Seq::new(v.len(), |i: int| v[i]@)
}

impl View for SpellingRule {
    type V = RuleModel;

    open spec fn view(&self) -> RuleModel {
        RuleModel {
            from: self.from@,
            to: strings(self.to@),
            rule_type: self.rule_type,
            disabled: self.disabled,
            context: opt_string(self.context),
            english: opt_string(self.english),
            exceptions: opt_strings(self.exceptions),
            context_clues: opt_strings(self.context_clues),
            negative_context_clues: opt_strings(self.negative_context_clues),
            positional_clues: opt_strings(self.positional_clues),
            context_suggestions: match self.context_suggestions {
                Some(v) => Some(groups(v@)),
                None => None,
            },
            editorial_confidence: self.editorial_confidence,
            severity: self.severity,
            structural_guard: opt_string(self.structural_guard),
        }
    }
}

/// The rules of a list, each by what it says.
pub open spec fn rule_models(v: Seq<SpellingRule>) -> Seq<RuleModel> {
    Seq::new(v.len(), |i: int| v[i]@)
}

/// A list that may be missing, as a list.
pub open spec fn listed_or_none(o: Option<Seq<Seq<char>>>) -> Seq<Seq<char>> {
    match o {
        Some(s) => s,
        None => Seq::empty(),
    }
}

impl RuleModel {
    /// The rule's only replacement is the empty one.
    pub open spec fn sentinel(self) -> bool {
        self.to.len() == 1 && self.to[0].len() == 0
    }

    /// The phrase is to be deleted.
    pub open spec fn deletes(self) -> bool {
        self.rule_type is AiFiller && self.sentinel()
    }

    pub open spec fn weight(self) -> Severity {
        match self.severity {
            Some(s) => s,
            None => self.rule_type.usual_severity(),
        }
    }

    /// The rule names a phrase.
    pub open spec fn sound(self) -> bool {
        self.from.len() > 0
    }
}

/// No entry is empty.
pub open spec fn none_empty(v: Seq<Seq<char>>) -> bool {
    forall|k: int| 0 <= k < v.len() ==> (#[trigger] v[k]).len() > 0
}

/// Those of the first `n` entries that are not empty.
pub open spec fn nonempty_of(v: Seq<Seq<char>>, n: int) -> Seq<Seq<char>>
    decreases n,
{
    if n <= 0 {
        Seq::empty()
    } else if v[n - 1].len() > 0 {
        nonempty_of(v, n - 1).push(v[n - 1])
    } else {
        nonempty_of(v, n - 1)
    }
}

/// What a rule suggests: the empty replacement where it deletes; else its
/// replacements that are not empty; else, where there is none, its English
/// term.
pub open spec fn suggestions_of(m: RuleModel) -> Seq<Seq<char>> {
    let filled = nonempty_of(m.to, m.to.len() as int);
    if m.deletes() {
        m.to
    } else if filled.len() > 0 {
        filled
    } else {
        match m.english {
            Some(e) => if e.len() > 0 {
                seq![e]
            } else {
                Seq::empty()
            },
            None => Seq::empty(),
        }
    }
}

impl SpellingRule {
    /// A rule with nothing but a phrase, its replacements and its type.
    pub fn new(from: &str, to: Vec<String>, rule_type: RuleType) -> (r: Self)
        ensures
            r@ == (RuleModel {
                from: from@,
                to: strings(to@),
                rule_type,
                disabled: false,
                context: None,
                english: None,
                exceptions: None,
                context_clues: None,
                negative_context_clues: None,
                positional_clues: None,
                context_suggestions: None,
                editorial_confidence: None,
                severity: None,
                structural_guard: None,
            }),
    {
        SpellingRule {
            from: from.to_owned(),
            to,
            rule_type,
            disabled: false,
            context: None,
            english: None,
            exceptions: None,
            context_clues: None,
            negative_context_clues: None,
            positional_clues: None,
            context_suggestions: None,
            editorial_confidence: None,
            severity: None,
            structural_guard: None,
        }
    }

    /// Whether the rule names a phrase.
    pub fn is_sound(&self) -> (r: bool)
        ensures
            r == self@.sound(),
    {
        self.from.as_str().unicode_len() > 0
    }

    /// Whether the rule's only replacement is the empty one.
    pub fn has_deletion_sentinel(&self) -> (r: bool)
        ensures
            r == self@.sentinel(),
    {
        self.to.len() == 1 && self.to[0].as_str().unicode_len() == 0
    }

    /// Whether the phrase is to be deleted.
    pub fn is_deletion_rule(&self) -> (r: bool)
        ensures
            r == self@.deletes(),
    {
        let filler: bool = match self.rule_type {
            RuleType::AiFiller => true,
            _ => false,
        };
        filler && self.has_deletion_sentinel()
    }

    /// The severity that the rule sets, else that of its type.
    pub fn effective_severity(&self) -> (r: Severity)
        ensures
            r == self@.weight(),
    {
        match self.severity {
            Some(s) => s,
            None => self.rule_type.default_severity(),
        }
    }
}

/// A list of strings, copied.
pub fn copied(v: &Vec<String>) -> (r: Vec<String>)
    ensures
        strings(r@) == strings(v@),
{
    let mut r: Vec<String> = Vec::new();
    let mut i: usize = 0;
    while i < v.len()
        invariant
            i <= v@.len(),
            r@.len() == i,
            forall|k: int| 0 <= k < i ==> (#[trigger] r@[k])@ == v@[k]@,
        decreases v@.len() - i,
    {
        r.push(v[i].clone());
        i = i + 1;
    }
    assert(strings(r@) =~= strings(v@));
    r
}

/// What a rule suggests.
pub fn effective_suggestions(rule: &SpellingRule) -> (r: Vec<String>)
    ensures
        strings(r@) == suggestions_of(rule@),
{
    if rule.is_deletion_rule() {
        return copied(&rule.to);
    }
    let mut r: Vec<String> = Vec::new();
    let mut i: usize = 0;
    assert(strings(r@) =~= Seq::empty());
    while i < rule.to.len()
        invariant
            i <= rule.to@.len(),
            strings(r@) == nonempty_of(rule@.to, i as int),
        decreases rule.to@.len() - i,
    {
        let ghost before = strings(r@);
        assert(rule@.to[i as int] == rule.to@[i as int]@);
        if rule.to[i].as_str().unicode_len() > 0 {
            r.push(rule.to[i].clone());
            assert(strings(r@) =~= before.push(rule@.to[i as int]));
        }
        i = i + 1;
    }
    if r.len() > 0 {
        return r;
    }
    if let Some(e) = &rule.english {
        if e.as_str().unicode_len() > 0 {
            r.push(e.clone());
            assert(strings(r@) =~= seq![e@]);
            return r;
        }
    }
    assert(strings(r@) =~= Seq::empty());
    r
}

/// Which politically coloured phrases a document may use.
#[derive(Clone, Debug)]
pub struct PoliticalStance {
    /// The phrases whose rules keep silent.
    pub silenced: Vec<String>,
}

impl PoliticalStance {
    pub open spec fn allows(&self, from: Seq<char>) -> bool {
        !strings(self.silenced@).contains(from)
    }

    /// Whether the rule on the phrase is to be heard.
    pub fn allows_rule(&self, from: &str) -> (r: bool)
        ensures
            r == self.allows(from@),
    {
        let mut i: usize = 0;
        while i < self.silenced.len()
            invariant
                i <= self.silenced@.len(),
                forall|k: int| 0 <= k < i ==> (#[trigger] self.silenced@[k])@ != from@,
            decreases self.silenced@.len() - i,
        {
            if same(self.silenced[i].as_str(), from) {
                assert(strings(self.silenced@)[i as int] == from@);
                return false;
            }
            i = i + 1;
        }
        proof {
            if strings(self.silenced@).contains(from@) {
                let k = choose|k: int|
                    0 <= k < self.silenced@.len() && strings(self.silenced@)[k] == from@;
                assert(self.silenced@[k]@ != from@);
            }
        }
        true
    }
}

} // verus!
