//! What the place of a finding in the document changes about it.
use vstd::prelude::*;

use crate::emit::ByteRange;
use crate::inflate::on_characters;
use crate::issue::{Issue, IssueModel, Severity, TableCell};
use crate::overlap::span_end;
use crate::text::{byte_len, floor_pos, lemma_byte_pos_monotone, Text};

verus! {

/// A cell of a Markdown table.
#[derive(Clone, Copy, Debug, PartialEq, Eq, Structural)]
pub struct TableCellSpan {
    pub start: usize,
    pub end: usize,
    pub row: usize,
    pub col: usize,
}

fn end_of(issue: &Issue) -> (r: usize)
    ensures
        r == span_end(issue@),
{
    if issue.length > usize::MAX - issue.offset {
        usize::MAX
    } else {
        issue.offset + issue.length
    }
}

/// The finding lies in the bytes `start..end` whole.
pub open spec fn lies_in(m: IssueModel, start: int, end: int) -> bool {
    start <= m.offset && span_end(m) <= end
}

/// The first of the cells `from..` that the finding lies in.
pub open spec fn cell_from(m: IssueModel, cells: Seq<TableCellSpan>, from: int) -> Option<int>
    decreases cells.len() - from,
{
    if from >= cells.len() || from < 0 {
        None
    } else if lies_in(m, cells[from].start as int, cells[from].end as int) {
        Some(from)
    } else {
        cell_from(m, cells, from + 1)
    }
}

/// The finding with the cell that it lies in.
pub open spec fn annotated(m: IssueModel, cells: Seq<TableCellSpan>) -> IssueModel {
    match cell_from(m, cells, 0) {
        Some(k) => IssueModel {
            table_cell: Some(TableCell { row: cells[k].row, col: cells[k].col }),
            ..m
        },
        None => m,
    }
}

fn find_cell(issue: &Issue, cells: &[TableCellSpan]) -> (r: Option<usize>)
    ensures
        match r {
            Some(k) => k < cells@.len() && cell_from(issue@, cells@, 0) == Some(k as int),
            None => cell_from(issue@, cells@, 0) is None,
        },
{
    let end: usize = end_of(issue);
    let mut k: usize = 0;
    while k < cells.len()
        invariant
            k <= cells@.len(),
            end == span_end(issue@),
            cell_from(issue@, cells@, 0) == cell_from(issue@, cells@, k as int),
        decreases cells@.len() - k,
    {
        if issue.offset >= cells[k].start && end <= cells[k].end {
            return Some(k);
        }
        k = k + 1;
    }
    None
}

/// Notes on each finding the table cell that it lies in.
pub fn annotate_table_cells(issues: &mut Vec<Issue>, cells: &[TableCellSpan])
    ensures
        final(issues)@.len() == old(issues)@.len(),
        forall|i: int|
            0 <= i < old(issues)@.len() ==> (#[trigger] final(issues)@[i])@ == annotated(
                old(issues)@[i]@,
                cells@,
            ),
{
    let ghost before = issues@;
    let n: usize = issues.len();
    let mut i: usize = 0;
    while i < n
        invariant
            n == issues@.len(),
            n == before.len(),
            i <= n,
            forall|k: int|
                0 <= k < i ==> (#[trigger] issues@[k])@ == annotated(before[k]@, cells@),
            forall|k: int| i <= k < n ==> #[trigger] issues@[k] == before[k],
        decreases n - i,
    {
        let ghost m = before[i as int]@;
        if let Some(k) = find_cell(&issues[i], cells) {
            issues[i].table_cell = Some(TableCell { row: cells[k].row, col: cells[k].col });
        }
        assert(issues@[i as int]@ == annotated(m, cells@));
        i = i + 1;
    }
}

/// The rule's author pinned the finding to a mere remark.
pub open spec fn pinned_advisory(m: IssueModel) -> bool {
    m.configured_severity == Some(Severity::Info)
}

/// One step graver.
pub open spec fn graver(s: Severity) -> Severity {
    match s {
        Severity::Info => Severity::Warning,
        _ => Severity::Error,
    }
}

/// The finding lies in one of the ranges whole.
pub open spec fn inside(m: IssueModel, ranges: Seq<ByteRange>) -> bool {
    exists|k: int|
        0 <= k < ranges.len() && lies_in(
            m,
            (#[trigger] ranges[k]).start as int,
            ranges[k].end as int,
        )
}

/// The finding as it weighs in a heading.
pub open spec fn boosted(m: IssueModel, headings: Seq<ByteRange>) -> IssueModel {
    if inside(m, headings) && !pinned_advisory(m) {
        IssueModel { severity: graver(m.severity), ..m }
    } else {
        m
    }
}

fn is_inside(issue: &Issue, ranges: &[ByteRange]) -> (r: bool)
    ensures
        r == inside(issue@, ranges@),
{
    let end: usize = end_of(issue);
    let mut k: usize = 0;
    while k < ranges.len()
        invariant
            k <= ranges@.len(),
            end == span_end(issue@),
            forall|j: int|
                0 <= j < k ==> !lies_in(
                    issue@,
                    (#[trigger] ranges@[j]).start as int,
                    ranges@[j].end as int,
                ),
        decreases ranges@.len() - k,
    {
        if issue.offset >= ranges[k].start && end <= ranges[k].end {
            return true;
        }
        k = k + 1;
    }
    false
}

/// Makes the findings that lie in a heading graver by one step, and says
/// whether any changed. A finding that its rule pins to a remark stays one.
pub fn boost_heading_severity(issues: &mut Vec<Issue>, headings: &[ByteRange]) -> (changed: bool)
    ensures
        final(issues)@.len() == old(issues)@.len(),
        forall|i: int|
            0 <= i < old(issues)@.len() ==> (#[trigger] final(issues)@[i])@ == boosted(
                old(issues)@[i]@,
                headings@,
            ),
        changed == exists|i: int|
            0 <= i < old(issues)@.len() && boosted((#[trigger] old(issues)@[i])@, headings@)
                != old(issues)@[i]@,
{
    let ghost before = issues@;
    let n: usize = issues.len();
    let mut changed: bool = false;
    let mut i: usize = 0;
    while i < n
        invariant
            n == issues@.len(),
            n == before.len(),
            i <= n,
            forall|k: int|
                0 <= k < i ==> (#[trigger] issues@[k])@ == boosted(before[k]@, headings@),
            forall|k: int| i <= k < n ==> #[trigger] issues@[k] == before[k],
            changed == exists|k: int|
                0 <= k < i && boosted((#[trigger] before[k])@, headings@) != before[k]@,
        decreases n - i,
    {
        let ghost m = before[i as int]@;
        let pinned: bool = match issues[i].configured_severity {
            Some(Severity::Info) => true,
            _ => false,
        };
        if !pinned && is_inside(&issues[i], headings) {
            match issues[i].severity {
                Severity::Info => {
                    issues[i].severity = Severity::Warning;
                    changed = true;
                    assert(issues@[i as int]@ == boosted(m, headings@));
                    assert(boosted(before[i as int]@, headings@).severity is Warning);
                },
                Severity::Warning => {
                    issues[i].severity = Severity::Error;
                    changed = true;
                    assert(issues@[i as int]@ == boosted(m, headings@));
                    assert(boosted(before[i as int]@, headings@).severity is Error);
                },
                Severity::Error => {
                    assert(boosted(m, headings@) == m);
                },
            }
        }
        assert(issues@[i as int]@ == boosted(before[i as int]@, headings@));
        i = i + 1;
    }
    changed
}

/// A heading makes no finding milder, none graver than an error, and changes
/// nothing but the severity.
pub proof fn law_headings_only_weigh_more(m: IssueModel, headings: Seq<ByteRange>)
    ensures
        ({
            let b = boosted(m, headings);
            &&& m.severity.rank() <= b.severity.rank() <= m.severity.rank() + 1
            &&& b == IssueModel { severity: b.severity, ..m }
        }),
{
}

/// The finding on the bytes `to.0..to.1` of another text.
pub open spec fn moved(t: Seq<char>, m: IssueModel, to: (usize, usize)) -> IssueModel {
    let end = if to.0 <= to.1 {
        to.1 as int
    } else {
        to.0 as int
    };
    let shown = if end <= byte_len(t) {
        end
    } else {
        byte_len(t)
    };
    IssueModel {
        offset: to.0 as int,
        length: end - to.0,
        found: if on_characters(t, to.0 as int, shown) {
            t.subrange(floor_pos(t, to.0 as int), floor_pos(t, shown))
        } else {
            m.found
        },
        ..m
    }
}

/// Moves the findings to the places that `mapped` gives for each in the
/// original text, and shows what stands there.
pub fn remap_issues_to_original(
    issues: &mut Vec<Issue>,
    original: &Text<'_>,
    mapped: &Vec<(usize, usize)>,
)
    requires
        original.wf(),
        mapped@.len() == old(issues)@.len(),
    ensures
        final(issues)@.len() == old(issues)@.len(),
        forall|i: int|
            0 <= i < old(issues)@.len() ==> (#[trigger] final(issues)@[i])@ == moved(
                original@,
                old(issues)@[i]@,
                mapped@[i],
            ),
{
    let ghost before = issues@;
    let n: usize = issues.len();
    let total: usize = original.byte(original.len());
    let mut i: usize = 0;
    while i < n
        invariant
            original.wf(),
            total == byte_len(original@),
            n == issues@.len(),
            n == before.len(),
            n == mapped@.len(),
            i <= n,
            forall|k: int|
                0 <= k < i ==> (#[trigger] issues@[k])@ == moved(original@, before[k]@, mapped@[k]),
            forall|k: int| i <= k < n ==> #[trigger] issues@[k] == before[k],
        decreases n - i,
    {
        let (start, to) = mapped[i];
        let end: usize = if start <= to {
            to
        } else {
            start
        };
        issues[i].offset = start;
        issues[i].length = end - start;
        let shown: usize = if end <= total {
            end
        } else {
            total
        };
        if start <= shown {
            let a: usize = original.floor(start);
            let b: usize = original.floor(shown);
            if original.byte(a) == start && original.byte(b) == shown {
                proof {
                    if b < a {
                        lemma_byte_pos_monotone(original@, b as int, a as int);
                    }
                }
                if a <= b {
                    issues[i].found = original.slice(a, b);
                }
            }
        }
        assert(issues@[i as int]@ == moved(original@, before[i as int]@, mapped@[i as int]));
        i = i + 1;
    }
}

} // verus!
