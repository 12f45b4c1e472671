//! Places in a document, kinds of files, and what a report says of a text as a
//! whole.
use vstd::prelude::*;

use crate::content::{ascii_lower, ends_fold, options_for, ContentType};
use crate::emit::ByteRange;
use crate::issue::{IssueModel, Severity};
use crate::listing::{lemma_listed, report_rank};
use crate::normalize::{carried, traced_back, Normalized};
use crate::overlap::span_end;
use crate::profile::{ProfileConfig, RegisterMode};
use crate::issue::Register;
use crate::laws::reports::{in_some, placed};
use crate::ranges::{covers, holds};
use crate::regions::{boosted, inside, lies_in};
use crate::register::register_under;
use crate::rules::{suggestions_of, RuleModel};
use crate::scanner::weighed;
use crate::signals::{ascii_upper, misheard, quality_flags, some_is, spaced_acronym, stuttered};
use crate::text::{byte_pos, lemma_byte_pos_monotone, lemma_floor_bounds};

verus! {

/// A finding in a composed text goes to the bytes that its own come from, and
/// shows the characters of the original that stand there.
pub proof fn law_findings_go_where_they_come_from(
    norm: &Normalized,
    original: Seq<char>,
    v: Seq<IssueModel>,
    i: int,
    s: int,
    e: int,
)
    requires
        norm.wf(original),
        norm.positions@.len() > 0,
        0 <= i < v.len(),
        placed(v[i]),
        v[i].offset + v[i].length < norm.positions@.len(),
        0 <= s <= e <= original.len(),
        norm.positions@[v[i].offset] == byte_pos(original, s),
        norm.positions@[v[i].offset + v[i].length] == byte_pos(original, e),
    ensures
        ({
            let m = traced_back(norm, original, v)[i];
            &&& traced_back(norm, original, v).len() == v.len()
            &&& m.offset == byte_pos(original, s)
            &&& m.offset + m.length == byte_pos(original, e)
            &&& m.found == original.subrange(s, e)
            &&& m.suggestions == v[i].suggestions
            &&& m.severity == v[i].severity
            &&& m.rule_type == v[i].rule_type
        }),
{
    lemma_byte_pos_monotone(original, s, e);
    lemma_byte_pos_monotone(original, e, original.len() as int);
    lemma_floor_bounds(original, byte_pos(original, s), s, s);
    lemma_floor_bounds(original, byte_pos(original, e), e, e);
    assert(span_end(v[i]) == v[i].offset + v[i].length);
}

/// Findings in a text that was composed as it stood stay as they are.
pub proof fn law_unchanged_text_keeps_its_findings(
    norm: &Normalized,
    original: Seq<char>,
    v: Seq<IssueModel>,
)
    requires
        norm.positions@.len() == 0,
    ensures
        traced_back(norm, original, v) == v,
{
}

/// A byte of the composed text is left alone where the byte that it comes from lies
/// in one of the caller's ranges.
pub proof fn law_ranges_follow_their_bytes(
    p: Seq<usize>,
    n: int,
    ranges: Seq<ByteRange>,
    len: int,
    b: int,
)
    requires
        0 <= b < n,
        b < p.len(),
        p[b] < len,
    ensures
        carried(p, n, ranges, len, b) == in_some(ranges, p[b] as int),
{
    let x = p[b] as int;
    if in_some(ranges, x) {
        let k = choose|k: int| 0 <= k < ranges.len() && (#[trigger] ranges[k]).start <= x
            < ranges[k].end;
        assert(holds(ranges[k], x));
    }
    if covers(ranges, x) {
        let k = choose|k: int| 0 <= k < ranges.len() && #[trigger] holds(ranges[k], x);
        assert(ranges[k].start <= x < ranges[k].end);
    }
}

/// Headings weigh in Markdown alone, and where the profile lets them: there a
/// finding in a heading is in the report one step graver.
pub proof fn law_headings_weigh_where_they_may(
    v: Seq<IssueModel>,
    cfg: ProfileConfig,
    ct: ContentType,
    headings: Seq<ByteRange>,
    w: Seq<IssueModel>,
    i: int,
    k: int,
)
    requires
        weighed(v, cfg, ct, headings, w),
    ensures
        !cfg.heading_severity_boost || ct == ContentType::Plain || ct == ContentType::Yaml ==> w
            == v,
        cfg.heading_severity_boost && (ct == ContentType::Markdown || ct
            == ContentType::MarkdownScanCode) && 0 <= i < v.len() && 0 <= k < headings.len()
            && placed(v[i]) && headings[k].start <= v[i].offset && v[i].offset + v[i].length
            <= headings[k].end && v[i].configured_severity != Some(Severity::Info) ==> w.contains(
            IssueModel {
                severity: if v[i].severity == Severity::Info {
                    Severity::Warning
                } else {
                    Severity::Error
                },
                ..v[i]
            },
        ),
{
    let b = Seq::new(v.len(), |i: int| boosted(v[i], headings));
    if cfg.heading_severity_boost && ct.markdown() && 0 <= i < v.len() && 0 <= k < headings.len()
        && placed(v[i]) && headings[k].start <= v[i].offset && v[i].offset + v[i].length
        <= headings[k].end && v[i].configured_severity != Some(Severity::Info) {
        assert(lies_in(v[i], headings[k].start as int, headings[k].end as int));
        assert(inside(v[i], headings));
        let m = boosted(v[i], headings);
        assert(b[i] == m);
        assert(b.contains(m));
        if b != v {
            lemma_listed(b, |m: IssueModel| report_rank(m), w);
        } else {
            assert(w.contains(m));
        }
    }
}

/// An extension is recognised in whichever case its letters are written, behind any
/// stem, and no other ending is taken for it.
pub proof fn law_extensions_in_any_case(stem: Seq<char>, written: Seq<char>, ext: Seq<char>)
    requires
        written.len() == ext.len(),
    ensures
        (forall|i: int|
            0 <= i < ext.len() ==> (#[trigger] written[i] == ext[i] && !(0x41 <= ext[i] as int
                <= 0x5A)) || (0x61 <= ext[i] as int <= 0x7A && written[i] as int == ext[i] as int
                - 0x20)) ==> ends_fold(stem + written, ext),
        (exists|i: int|
            0 <= i < ext.len() && #[trigger] written[i] != ext[i] && !(0x41 <= written[i] as int
                <= 0x5A)) ==> !ends_fold(stem + written, ext),
{
    let name = stem + written;
    let n = name.len() - ext.len();
    if forall|i: int|
        0 <= i < ext.len() ==> (#[trigger] written[i] == ext[i] && !(0x41 <= ext[i] as int
            <= 0x5A)) || (0x61 <= ext[i] as int <= 0x7A && written[i] as int == ext[i] as int
            - 0x20) {
        assert forall|k: int| 0 <= k < ext.len() implies ascii_lower(
            #[trigger] name[name.len() - ext.len() + k],
        ) == ext[k] by {
            assert(name[n + k] == written[k]);
        }
    }
    if exists|i: int|
        0 <= i < ext.len() && #[trigger] written[i] != ext[i] && !(0x41 <= written[i] as int
            <= 0x5A) {
        let i = choose|i: int|
            0 <= i < ext.len() && #[trigger] written[i] != ext[i] && !(0x41 <= written[i] as int
                <= 0x5A);
        assert(name[name.len() - ext.len() + i] == written[i]);
    }
}

/// Code is scanned in the one kind of Markdown that asks for it, and quotations are
/// exempt where the profile says so.
pub proof fn law_options_of_a_document(ct: ContentType, cfg: ProfileConfig)
    ensures
        options_for(ct, cfg).scan_code_blocks == (ct == ContentType::MarkdownScanCode),
        options_for(ct, cfg).exempt_blockquotes == cfg.exempt_blockquotes,
{
}

/// A profile that names a register has it, and one that does not has that of the
/// document.
pub proof fn law_the_register(detected: Register)
    ensures
        register_under(RegisterMode::Auto, detected) == detected,
        register_under(RegisterMode::Casual, detected) == Register::Casual,
        register_under(RegisterMode::Formal, detected) == Register::Formal,
{
}

/// What a rule suggests without replacements: its English term, where it has one,
/// and else nothing. A filler phrase that is to be deleted suggests the empty text.
pub proof fn law_suggestions_without_replacements(m: RuleModel)
    ensures
        m.to.len() == 0 ==> suggestions_of(m) == (match m.english {
            Some(e) => if e.len() > 0 {
                seq![e]
            } else {
                Seq::empty()
            },
            None => Seq::empty(),
        }),
        m.rule_type is AiFiller && m.to == seq![Seq::<char>::empty()] ==> suggestions_of(m)
            == seq![Seq::<char>::empty()],
{
}

/// A report is flagged for what speech recognition leaves behind, for words said
/// twice and for spelled-out acronyms exactly where a finding shows it: a confusion
/// that its rule ascribes to recognition, a repetition, and a repetition that joins
/// capitals with blanks between them.
pub proof fn law_flags_go_by_findings(v: Seq<IssueModel>, i: int)
    requires
        0 <= i < v.len(),
    ensures
        spaced_capitals(v[i]) ==> quality_flags(v).contains("spaced_acronyms"@),
        v[i].rule_type is Repetition && v[i].suggestions.len() != 1 ==> quality_flags(v).contains(
            "stutter_detected"@,
        ),
        (forall|k: int|
            0 <= k < v.len() ==> !((#[trigger] v[k]).rule_type is Repetition)
                && !(v[k].rule_type is Confusable)) ==> quality_flags(v).len() == 0,
{
    let f = quality_flags(v);
    let (a, b, c) = (
        some_is(v, |m: IssueModel| misheard(m)),
        some_is(v, |m: IssueModel| stuttered(m)),
        some_is(v, |m: IssueModel| spaced_acronym(m)),
    );
    if spaced_capitals(v[i]) {
        lemma_spaced(v[i]);
        let g = |m: IssueModel| spaced_acronym(m);
        assert(g(v[i]));
        assert(c);
        assert(f[f.len() - 1] == "spaced_acronyms"@);
    }
    if v[i].rule_type is Repetition && v[i].suggestions.len() != 1 {
        let g = |m: IssueModel| stuttered(m);
        assert(g(v[i]));
        assert(b);
        let at: int = if a {
            1
        } else {
            0
        };
        assert(f[at] == "stutter_detected"@);
    }
}

/// The finding is a repetition of which the one suggestion is two or more capitals,
/// and which shows them with a blank between any two.
pub open spec fn spaced_capitals(m: IssueModel) -> bool {
    &&& m.rule_type is Repetition
    &&& m.suggestions.len() == 1
    &&& m.suggestions[0].len() >= 2
    &&& m.found.len() == 2 * m.suggestions[0].len() - 1
    &&& forall|i: int|
        0 <= i < m.found.len() ==> (if i % 2 == 1 {
            #[trigger] m.found[i] == ' '
        } else {
            m.found[i] == m.suggestions[0][i / 2]
        })
    &&& forall|i: int|
        0 <= i < m.suggestions[0].len() ==> 'A' <= #[trigger] m.suggestions[0][i] <= 'Z'
}

proof fn lemma_spaced(m: IssueModel)
    requires
        spaced_capitals(m),
    ensures
        spaced_acronym(m),
{
    let joined = m.suggestions[0];
    assert forall|i: int| 0 <= i < joined.len() implies ascii_upper(#[trigger] joined[i])
        && m.found[2 * i] == joined[i] by {
        assert((2 * i) % 2 == 0);
        assert((2 * i) / 2 == i);
        let x = m.found[2 * i];
    }
    assert forall|i: int| 0 <= i < joined.len() - 1 implies #[trigger] m.found[2 * i + 1] == ' ' by {
        assert((2 * i + 1) % 2 == 1);
    }
}

} // verus!
