//! What a detector reports, and the enumerations that classify it.
use vstd::prelude::*;

verus! {

/// How strongly a finding is meant.
#[derive(Clone, Copy, Debug, PartialEq, Eq, Structural)]
pub enum Severity {
    Info,
    Warning,
    Error,
}

impl Severity {
    pub open spec fn rank(self) -> int {
        match self {
            Severity::Info => 0,
            Severity::Warning => 1,
            Severity::Error => 2,
        }
    }

    /// Position in the order from the mildest to the gravest.
    pub fn level(self) -> (r: u8)
        ensures
            r == self.rank(),
    {
        match self {
            Severity::Info => 0,
            Severity::Warning => 1,
            Severity::Error => 2,
        }
    }
}

/// The public family of a finding.
#[derive(Clone, Copy, Debug, PartialEq, Eq, Structural)]
pub enum IssueType {
    CrossStrait,
    PoliticalColoring,
    Confusable,
    Case,
    Punctuation,
    Variant,
    Repetition,
    Grammar,
    AiStyle,
    Translationese,
}

impl IssueType {
    pub open spec fn order(self) -> int {
        match self {
            IssueType::CrossStrait => 0,
            IssueType::PoliticalColoring => 1,
            IssueType::Confusable => 2,
            IssueType::Case => 3,
            IssueType::Punctuation => 4,
            IssueType::Variant => 5,
            IssueType::Repetition => 6,
            IssueType::Grammar => 7,
            IssueType::AiStyle => 8,
            IssueType::Translationese => 9,
        }
    }

    /// Rank by which findings at one offset are listed.
    pub fn sort_order(self) -> (r: u8)
        ensures
            r == self.order(),
    {
        match self {
            IssueType::CrossStrait => 0,
            IssueType::PoliticalColoring => 1,
            IssueType::Confusable => 2,
            IssueType::Case => 3,
            IssueType::Punctuation => 4,
            IssueType::Variant => 5,
            IssueType::Repetition => 6,
            IssueType::Grammar => 7,
            IssueType::AiStyle => 8,
            IssueType::Translationese => 9,
        }
    }

    pub open spec fn label(self) -> Seq<char> {
        match self {
            IssueType::CrossStrait => "cross_strait"@,
            IssueType::PoliticalColoring => "political_coloring"@,
            IssueType::Confusable => "confusable"@,
            IssueType::Case => "case"@,
            IssueType::Punctuation => "punctuation"@,
            IssueType::Variant => "variant"@,
            IssueType::Repetition => "repetition"@,
            IssueType::Grammar => "grammar"@,
            IssueType::AiStyle => "ai_style"@,
            IssueType::Translationese => "translationese"@,
        }
    }

    /// The name under which the family is serialised.
    pub fn name(self) -> (r: &'static str)
        ensures
            r@ == self.label(),
    {
        match self {
            IssueType::CrossStrait => "cross_strait",
            IssueType::PoliticalColoring => "political_coloring",
            IssueType::Confusable => "confusable",
            IssueType::Case => "case",
            IssueType::Punctuation => "punctuation",
            IssueType::Variant => "variant",
            IssueType::Repetition => "repetition",
            IssueType::Grammar => "grammar",
            IssueType::AiStyle => "ai_style",
            IssueType::Translationese => "translationese",
        }
    }
}

/// The pattern that a translationese finding belongs to.
#[derive(Clone, Copy, Debug, PartialEq, Eq, Structural)]
pub enum PhaseFamily {
    YiZhi,
    Connective,
    Nominalization,
    FalseFriend,
    LongPremodifier,
    RhythmLongPremodifier,
    RhythmLongSentence,
    RhythmMonotony,
}

impl PhaseFamily {
    pub open spec fn advisory(self) -> bool {
        self is RhythmLongPremodifier || self is RhythmLongSentence || self is RhythmMonotony
    }

    /// Whether the family is a matter of taste, which no score counts.
    pub fn is_advisory(self) -> (r: bool)
        ensures
            r == self.advisory(),
    {
        match self {
            PhaseFamily::RhythmLongPremodifier => true,
            PhaseFamily::RhythmLongSentence => true,
            PhaseFamily::RhythmMonotony => true,
            _ => false,
        }
    }
}

/// The pass that found it: on the bare text, or on its sentences and
/// paragraphs.
#[derive(Clone, Copy, Debug, PartialEq, Eq, Structural)]
pub enum PhasePass {
    Lexical,
    Indexed,
}

/// The structural habit that a machine-style finding names.
#[derive(Clone, Copy, Debug, PartialEq, Eq, Structural)]
pub enum StructuralFamily {
    Tricolon,
    SignificanceStamp,
    RhetoricalSelfQa,
    RepeatedSlogan,
    ParagraphEndings,
    NegativeParallel,
    MechanicalBullets,
    ListDensity,
    FourCharBulletLabels,
    FormulaicHeadings,
    FormulaicDespite,
    FormulaicClosing,
    FalseRanges,
    EraOpener,
    EmDashOveruse,
    DashOveruse,
    BoldInSentence,
    BoldInParagraph,
    BinaryContrast,
    AbstractLineMetaphor,
}

/// How formal the document is.
#[derive(Clone, Copy, Debug, PartialEq, Eq, Structural)]
pub enum Register {
    Casual,
    Formal,
}

/// How sure the rule's author is of a rewriting.
#[derive(Clone, Copy, Debug, PartialEq, Eq, Structural)]
pub enum EditorialConfidence {
    Low,
    Medium,
    High,
}

/// The table cell that a finding lies in.
#[derive(Clone, Copy, Debug, PartialEq, Eq, Structural)]
pub struct TableCell {
    pub row: usize,
    pub col: usize,
}

/// What a finding says, over mathematical values.
#[verifier::ext_equal]
pub ghost struct IssueModel {
    pub offset: int,
    pub length: int,
    pub found: Seq<char>,
    pub suggestions: Seq<Seq<char>>,
    pub rule_type: IssueType,
    pub severity: Severity,
    pub context: Option<Seq<char>>,
    pub english: Option<Seq<char>>,
    pub context_clues: Option<Seq<Seq<char>>>,
    pub spelling_rule_idx: Option<int>,
    pub phase_family: Option<(PhaseFamily, PhasePass)>,
    pub structural_family: Option<StructuralFamily>,
    pub editorial_confidence: Option<EditorialConfidence>,
    pub configured_severity: Option<Severity>,
    pub table_cell: Option<TableCell>,
}

/// A finding: a span of the text and what is to be said of it.
#[derive(Clone, Debug)]
pub struct Issue {
    pub offset: usize,
    pub length: usize,
    pub found: String,
    pub suggestions: Vec<String>,
    pub rule_type: IssueType,
    pub severity: Severity,
    pub context: Option<String>,
    pub english: Option<String>,
    pub context_clues: Option<Vec<String>>,
    pub spelling_rule_idx: Option<usize>,
    pub phase_family: Option<(PhaseFamily, PhasePass)>,
    pub structural_family: Option<StructuralFamily>,
    pub editorial_confidence: Option<EditorialConfidence>,
    pub configured_severity: Option<Severity>,
    pub table_cell: Option<TableCell>,
}

/// The strings of a list, each by its characters.
pub open spec fn strings(v: Seq<String>) -> Seq<Seq<char>> {
    Seq::new(v.len(), |i: int| v[i]@)
}

pub open spec fn opt_string(o: Option<String>) -> Option<Seq<char>> {
    match o {
        Some(s) => Some(s@),
        None => None,
    }
}

pub open spec fn opt_strings(o: Option<Vec<String>>) -> Option<Seq<Seq<char>>> {
    match o {
        Some(v) => Some(strings(v@)),
        None => None,
    }
}

pub open spec fn opt_int(o: Option<usize>) -> Option<int> {
    match o {
        Some(n) => Some(n as int),
        None => None,
    }
}

impl View for Issue {
    type V = IssueModel;

    open spec fn view(&self) -> IssueModel {
        IssueModel {
            offset: self.offset as int,
            length: self.length as int,
            found: self.found@,
            suggestions: strings(self.suggestions@),
            rule_type: self.rule_type,
            severity: self.severity,
            context: opt_string(self.context),
            english: opt_string(self.english),
            context_clues: opt_strings(self.context_clues),
            spelling_rule_idx: opt_int(self.spelling_rule_idx),
            phase_family: self.phase_family,
            structural_family: self.structural_family,
            editorial_confidence: self.editorial_confidence,
            configured_severity: self.configured_severity,
            table_cell: self.table_cell,
        }
    }
}

/// The findings of a list, each by what it says.
pub open spec fn models(v: Seq<Issue>) -> Seq<IssueModel> {
    Seq::new(v.len(), |i: int| v[i]@)
}

/// A finding with nothing said of it yet.
pub open spec fn plain_issue(
    offset: int,
    length: int,
    found: Seq<char>,
    suggestions: Seq<Seq<char>>,
    rule_type: IssueType,
    severity: Severity,
) -> IssueModel {
    IssueModel {
        offset,
        length,
        found,
        suggestions,
        rule_type,
        severity,
        context: None,
        english: None,
        context_clues: None,
        spelling_rule_idx: None,
        phase_family: None,
        structural_family: None,
        editorial_confidence: None,
        configured_severity: None,
        table_cell: None,
    }
}

impl Issue {
    pub fn new(
        offset: usize,
        length: usize,
        found: String,
        suggestions: Vec<String>,
        rule_type: IssueType,
        severity: Severity,
    ) -> (r: Self)
        ensures
            r@ == plain_issue(
                offset as int,
                length as int,
                found@,
                strings(suggestions@),
                rule_type,
                severity,
            ),
    {
        Issue {
            offset,
            length,
            found,
            suggestions,
            rule_type,
            severity,
            context: None,
            english: None,
            context_clues: None,
            spelling_rule_idx: None,
            phase_family: None,
            structural_family: None,
            editorial_confidence: None,
            configured_severity: None,
            table_cell: None,
        }
    }

    /// A spelling finding whose texts are filled in once it has survived.
    pub fn deferred_spelling(
        offset: usize,
        length: usize,
        rule_type: IssueType,
        severity: Severity,
        rule_idx: usize,
    ) -> (r: Self)
        ensures
            r@ == (IssueModel {
                spelling_rule_idx: Some(rule_idx as int),
                ..plain_issue(
                    offset as int,
                    length as int,
                    Seq::empty(),
                    Seq::empty(),
                    rule_type,
                    severity,
                )
            }),
    {
        let mut r = Issue::new(offset, length, String::new(), Vec::new(), rule_type, severity);
        proof {
            assert(r@.suggestions =~= Seq::empty());
        }
        r.spelling_rule_idx = Some(rule_idx);
        r
    }

    pub fn with_context(self, context: String) -> (r: Self)
        ensures
            r@ == (IssueModel { context: Some(context@), ..self@ }),
    {
        let mut r = self;
        r.context = Some(context);
        r
    }

    pub fn with_phase_family(self, family: PhaseFamily, pass: PhasePass) -> (r: Self)
        ensures
            r@ == (IssueModel { phase_family: Some((family, pass)), ..self@ }),
    {
        let mut r = self;
        r.phase_family = Some((family, pass));
        r
    }

    pub fn with_structural_family(self, family: StructuralFamily) -> (r: Self)
        ensures
            r@ == (IssueModel { structural_family: Some(family), ..self@ }),
    {
        let mut r = self;
        r.structural_family = Some(family);
        r
    }
}

} // verus!
