//! Filling in the texts of the spelling findings that are left.
use vstd::prelude::*;

use crate::database::CompiledSpellingDb;
use crate::emit::ByteRange;
use crate::issue::{models, opt_string, opt_strings, strings, Issue, IssueModel};
use crate::rules::{copied, suggestions_of, RuleModel};
use crate::selector::{groups_of, selected};
use crate::text::{byte_len, byte_pos, floor_pos, lemma_byte_len_is_encoded_len, Text};
use crate::window::{context_span, context_window};

verus! {

/// End of what a finding shows, in bytes: where the rule has the empty
/// replacement, only its own phrase, whatever the span took in besides.
pub open spec fn shown_end(t: Seq<char>, m: RuleModel, issue: IssueModel) -> int {
    let width = if m.sentinel() {
        byte_len(m.from)
    } else {
        issue.length
    };
    if issue.offset + width > byte_len(t) {
        byte_len(t)
    } else {
        issue.offset + width
    }
}

/// The bytes `from..to` are whole characters of the text.
pub open spec fn on_characters(t: Seq<char>, from: int, to: int) -> bool {
    &&& from <= to
    &&& byte_pos(t, floor_pos(t, from)) == from
    &&& byte_pos(t, floor_pos(t, to)) == to
}

/// What the clues near the finding select, where they select something.
pub open spec fn selection(
    t: Seq<char>,
    ex: Seq<ByteRange>,
    m: RuleModel,
    from: int,
    to: int,
) -> Option<Seq<Seq<char>>> {
    let (a, b) = context_span(t, ex, floor_pos(t, from), floor_pos(t, to));
    match selected(t.subrange(a, b), groups_of(m), 0) {
        Some(g) => Some(groups_of(m)[g].to),
        None => None,
    }
}

/// The finding with its texts. `selecting` says whether the rule's groups can
/// be looked up; `brief` leaves out the explanations.
pub open spec fn inflated(
    t: Seq<char>,
    ex: Seq<ByteRange>,
    m: RuleModel,
    selecting: bool,
    brief: bool,
    issue: IssueModel,
) -> IssueModel {
    let end = shown_end(t, m, issue);
    let chosen = if selecting {
        selection(t, ex, m, issue.offset, end)
    } else {
        None
    };
    IssueModel {
        spelling_rule_idx: None,
        found: t.subrange(floor_pos(t, issue.offset), floor_pos(t, end)),
        suggestions: match chosen {
            Some(to) => to,
            None => suggestions_of(m),
        },
        editorial_confidence: m.editorial_confidence,
        configured_severity: m.severity,
        context: if brief {
            issue.context
        } else {
            m.context
        },
        english: if brief {
            issue.english
        } else {
            m.english
        },
        context_clues: if brief {
            issue.context_clues
        } else {
            m.context_clues
        },
        ..issue
    }
}

/// The finding names a rule of the database, and what it shows is whole
/// characters of the text.
pub open spec fn inflatable(db: &CompiledSpellingDb, t: Seq<char>, issue: IssueModel) -> bool {
    issue.spelling_rule_idx matches Some(k) ==> {
        &&& 0 <= k < db.models().len()
        &&& on_characters(t, issue.offset, shown_end(t, db.models()[k], issue))
    }
}

/// The finding after inflation: one without a rule stays as it is.
pub open spec fn inflated_by(
    db: &CompiledSpellingDb,
    t: Seq<char>,
    ex: Seq<ByteRange>,
    brief: bool,
    issue: IssueModel,
) -> IssueModel {
    match issue.spelling_rule_idx {
        Some(k) => inflated(
            t,
            ex,
            db.models()[k],
            db.spelling_context_suggestions@[k] is Some,
            brief,
            issue,
        ),
        None => issue,
    }
}

/// Width of a text in bytes.
fn width_in_bytes(s: &str) -> (r: usize)
    ensures
        r == byte_len(s@),
{
    proof {
        lemma_byte_len_is_encoded_len(s@);
    }
    s.as_bytes().len()
}

fn copy_opt(o: &Option<String>) -> (r: Option<String>)
    ensures
        opt_string(r) == opt_string(*o),
{
    match o {
        Some(s) => Some(s.clone()),
        None => None,
    }
}

fn copy_opt_list(o: &Option<Vec<String>>) -> (r: Option<Vec<String>>)
    ensures
        opt_strings(r) == opt_strings(*o),
{
    match o {
        Some(v) => Some(copied(v)),
        None => None,
    }
}

/// What the clues near `a..b` select.
fn chosen_replacements(
    text: &Text<'_>,
    excluded: &[ByteRange],
    db: &CompiledSpellingDb,
    k: usize,
    a: usize,
    b: usize,
) -> (r: Option<Vec<String>>)
    requires
        text.wf(),
        db.wf(),
        k < db.models().len(),
        a <= b <= text@.len(),
    ensures
        ({
            let m = db.models()[k as int];
            let (lo, hi) = context_span(text@, excluded@, a as int, b as int);
            let found = if db.spelling_context_suggestions@[k as int] is Some {
                selected(text@.subrange(lo, hi), groups_of(m), 0)
            } else {
                None
            };
            match (r, found) {
                (Some(v), Some(g)) => strings(v@) == groups_of(m)[g].to,
                (None, None) => true,
                _ => false,
            }
        }),
{
    assert(db.compiled(k as int));
    match &db.spelling_context_suggestions[k] {
        None => None,
        Some(s) => {
            let (lo, hi) = context_window(text, a, b, excluded);
            let window = text.slice(lo, hi);
            s.select(window.as_str(), Ghost(groups_of(db.models()[k as int])))
        },
    }
}

/// The finding with its texts.
fn inflate_one(
    db: &CompiledSpellingDb,
    text: &Text<'_>,
    excluded: &[ByteRange],
    issue: &Issue,
    k: usize,
    brief: bool,
) -> (r: Issue)
    requires
        db.wf(),
        text.wf(),
        issue.spelling_rule_idx == Some(k),
        inflatable(db, text@, issue@),
    ensures
        r@ == inflated_by(db, text@, excluded@, brief, issue@),
{
    let ghost m = db.models()[k as int];
    let rule = &db.spelling_rules[k];
    assert(m == rule@);
    assert(db.compiled(k as int));
    let n: usize = text.len();
    let total: usize = text.byte(n);
    let width: usize = if rule.has_deletion_sentinel() {
        width_in_bytes(rule.from.as_str())
    } else {
        issue.length
    };
    let end: usize = if issue.offset > total || width > total - issue.offset {
        total
    } else {
        issue.offset + width
    };
    assert(end == shown_end(text@, m, issue@));
    let a: usize = text.floor(issue.offset);
    let b: usize = text.floor(end);
    proof {
        if b < a {
            crate::text::lemma_byte_pos_monotone(text@, b as int, a as int);
        }
    }
    let suggestions = match chosen_replacements(text, excluded, db, k, a, b) {
        Some(v) => v,
        None => copied(&db.spelling_suggestions[k]),
    };
    let r = Issue {
        offset: issue.offset,
        length: issue.length,
        found: text.slice(a, b),
        suggestions,
        rule_type: issue.rule_type,
        severity: issue.severity,
        context: copy_opt(
            if brief {
                &issue.context
            } else {
                &rule.context
            },
        ),
        english: copy_opt(
            if brief {
                &issue.english
            } else {
                &rule.english
            },
        ),
        context_clues: copy_opt_list(
            if brief {
                &issue.context_clues
            } else {
                &rule.context_clues
            },
        ),
        spelling_rule_idx: None,
        phase_family: issue.phase_family,
        structural_family: issue.structural_family,
        editorial_confidence: rule.editorial_confidence,
        configured_severity: rule.severity,
        table_cell: issue.table_cell,
    };
    assert(r@ =~= inflated_by(db, text@, excluded@, brief, issue@));
    r
}

/// Fills in the texts of the findings that name a rule.
fn inflate_all(
    db: &CompiledSpellingDb,
    text: &Text<'_>,
    excluded: &[ByteRange],
    issues: &mut Vec<Issue>,
    brief: bool,
)
    requires
        db.wf(),
        text.wf(),
        forall|i: int|
            0 <= i < old(issues)@.len() ==> inflatable(db, text@, (#[trigger] old(issues)@[i])@),
    ensures
        models(final(issues)@) == Seq::new(
            old(issues)@.len(),
            |i: int| inflated_by(db, text@, excluded@, brief, old(issues)@[i]@),
        ),
{
    let ghost before = issues@;
    let n: usize = issues.len();
    let mut i: usize = 0;
    while i < n
        invariant
            db.wf(),
            text.wf(),
            n == before.len(),
            issues@.len() == n,
            i <= n,
            forall|j: int| 0 <= j < n ==> inflatable(db, text@, (#[trigger] before[j])@),
            forall|j: int|
                0 <= j < i ==> (#[trigger] issues@[j])@ == inflated_by(
                    db,
                    text@,
                    excluded@,
                    brief,
                    before[j]@,
                ),
            forall|j: int| i <= j < n ==> #[trigger] issues@[j] == before[j],
        decreases n - i,
    {
        assert(issues@[i as int] == before[i as int]);
        assert(inflatable(db, text@, before[i as int]@));
        if let Some(k) = issues[i].spelling_rule_idx {
            let now = inflate_one(db, text, excluded, &issues[i], k, brief);
            issues.set(i, now);
        }
        i = i + 1;
    }
    assert(models(issues@) =~= Seq::new(
        before.len(),
        |i: int| inflated_by(db, text@, excluded@, brief, before[i]@),
    ));
}

/// Fills in the texts of the spelling findings.
pub fn inflate_spelling_issues(
    db: &CompiledSpellingDb,
    text: &Text<'_>,
    excluded: &[ByteRange],
    issues: &mut Vec<Issue>,
)
    requires
        db.wf(),
        text.wf(),
        forall|i: int|
            0 <= i < old(issues)@.len() ==> inflatable(db, text@, (#[trigger] old(issues)@[i])@),
    ensures
        models(final(issues)@) == Seq::new(
            old(issues)@.len(),
            |i: int| inflated_by(db, text@, excluded@, false, old(issues)@[i]@),
        ),
{
    inflate_all(db, text, excluded, issues, false);
}

/// Fills in the texts of the spelling findings, without explanations.
pub fn inflate_spelling_issues_compact(
    db: &CompiledSpellingDb,
    text: &Text<'_>,
    excluded: &[ByteRange],
    issues: &mut Vec<Issue>,
)
    requires
        db.wf(),
        text.wf(),
        forall|i: int|
            0 <= i < old(issues)@.len() ==> inflatable(db, text@, (#[trigger] old(issues)@[i])@),
    ensures
        models(final(issues)@) == Seq::new(
            old(issues)@.len(),
            |i: int| inflated_by(db, text@, excluded@, true, old(issues)@[i]@),
        ),
{
    inflate_all(db, text, excluded, issues, true);
}

/// A finding whose texts are filled in names no rule any more, and stands where
/// it stood.
pub proof fn law_filled_findings_name_no_rule(
    db: &CompiledSpellingDb,
    t: Seq<char>,
    ex: Seq<ByteRange>,
    brief: bool,
    issue: IssueModel,
)
    ensures
        ({
            let r = inflated_by(db, t, ex, brief, issue);
            &&& r.spelling_rule_idx is None
            &&& r.offset == issue.offset
            &&& r.length == issue.length
            &&& r.severity == issue.severity
            &&& r.rule_type == issue.rule_type
        }),
{
}

} // verus!
