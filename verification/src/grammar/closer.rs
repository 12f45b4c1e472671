//! Formulas that close a section, and stamps of significance.
use vstd::prelude::*;

use crate::automaton::any_pattern_in;
use crate::bounds::{Bound, BoundaryIndex, Paragraph};
use crate::chars::{is_whitespace, whitespace};
use crate::emit::{ai_issue, span_excluded, ByteRange, Emitter};
use crate::issue::{IssueModel, Severity, StructuralFamily};
use crate::lines::{past_white, skip_white, trim, trimmed};
use crate::text::{
    after_last, any_in, byte_pos, contains_in, find_in, lemma_find_in, listed, next_of, occurs_at,
    Text,
};
use crate::walk::{each, if_so};

verus! {

/// Characters that end a line.
pub const LINE_BREAKS: [char; 2] = ['\n', '\r'];

/// Marks that may follow a closing sentence on its line.
pub const TAIL_MARKS: [char; 13] = [
    '。',
    '！',
    '？',
    '!',
    '?',
    '…',
    '、',
    '，',
    ')',
    '）',
    '】',
    '」',
    '』',
];

/// A character that no accepted tail holds.
pub open spec fn non_tail(c: char) -> bool {
    !LINE_BREAKS@.contains(c) && c != '（' && c != '註' && !whitespace(c) && !TAIL_MARKS@.contains(c)
}

/// A character of a note.
pub open spec fn of_note(c: char) -> bool {
    c == '（' || c == '註'
}

/// Whether a character can stand in an accepted tail by itself.
pub fn may_open_closer_tail(ch: char) -> (r: bool)
    ensures
        r == (whitespace(ch) || TAIL_MARKS@.contains(ch)),
{
    is_whitespace(ch) || listed(TAIL_MARKS.as_slice(), ch)
}

/// The positions of `v` are, in order, those below `n` whose character
/// satisfies `f`.
pub open spec fn indexes_where(t: Seq<char>, v: Seq<usize>, n: int, f: spec_fn(char) -> bool) -> bool {
    &&& forall|i: int, j: int| 0 <= i < j < v.len() ==> #[trigger] v[i] < #[trigger] v[j]
    &&& forall|i: int| 0 <= i < v.len() ==> (#[trigger] v[i]) < n && f(t[v[i] as int])
    &&& forall|p: int|
        0 <= p < n && f(#[trigger] t[p]) ==> exists|i: int|
            0 <= i < v.len() && #[trigger] v[i] == p
}

pub open spec fn is_break() -> spec_fn(char) -> bool {
    |c: char| LINE_BREAKS@.contains(c)
}

pub open spec fn is_non_tail() -> spec_fn(char) -> bool {
    |c: char| non_tail(c)
}

pub open spec fn is_of_note() -> spec_fn(char) -> bool {
    |c: char| of_note(c)
}

/// Per document: where lines break, and which characters disqualify a tail.
pub struct CloserTailIndex {
    line_breaks: Vec<usize>,
    non_tail: Vec<usize>,
    annotation: Vec<usize>,
    read: Ghost<Seq<char>>,
}

proof fn lemma_index_push(t: Seq<char>, v: Seq<usize>, n: usize, f: spec_fn(char) -> bool)
    requires
        n < t.len(),
        indexes_where(t, v, n as int, f),
    ensures
        f(t[n as int]) ==> indexes_where(t, v.push(n), n + 1, f),
        !f(t[n as int]) ==> indexes_where(t, v, n + 1, f),
{
    if f(t[n as int]) {
        let w = v.push(n);
        assert forall|p: int| 0 <= p < n + 1 && f(#[trigger] t[p]) implies exists|i: int|
            0 <= i < w.len() && #[trigger] w[i] == p by {
            if p < n {
                let i = choose|i: int| 0 <= i < v.len() && #[trigger] v[i] == p;
                assert(w[i] == p);
            } else {
                assert(w[v.len() as int] == p);
            }
        }
    }
}

/// Number of positions below `pos`.
fn lower_bound(v: &Vec<usize>, pos: usize) -> (r: usize)
    requires
        forall|i: int, j: int| 0 <= i < j < v@.len() ==> #[trigger] v@[i] < #[trigger] v@[j],
    ensures
        r <= v@.len(),
        forall|i: int| 0 <= i < r ==> #[trigger] v@[i] < pos,
        forall|i: int| r <= i < v@.len() ==> #[trigger] v@[i] >= pos,
{
    let mut lo: usize = 0;
    let mut hi: usize = v.len();
    while lo < hi
        invariant
            lo <= hi <= v@.len(),
            forall|i: int, j: int| 0 <= i < j < v@.len() ==> #[trigger] v@[i] < #[trigger] v@[j],
            forall|i: int| 0 <= i < lo ==> #[trigger] v@[i] < pos,
            forall|i: int| hi <= i < v@.len() ==> #[trigger] v@[i] >= pos,
        decreases hi - lo,
    {
        let mid: usize = lo + (hi - lo) / 2;
        if v[mid] < pos {
            lo = mid + 1;
        } else {
            hi = mid;
        }
    }
    lo
}

/// Whether some position of the list lies in `start..end`.
pub fn any_position_in(v: &Vec<usize>, start: usize, end: usize) -> (r: bool)
    requires
        forall|i: int, j: int| 0 <= i < j < v@.len() ==> #[trigger] v@[i] < #[trigger] v@[j],
    ensures
        r == exists|i: int| 0 <= i < v@.len() && start <= #[trigger] v@[i] < end,
{
    let k: usize = lower_bound(v, start);
    if k < v.len() && v[k] < end {
        true
    } else {
        proof {
            if exists|i: int| 0 <= i < v@.len() && start <= #[trigger] v@[i] < end {
                let i = choose|i: int| 0 <= i < v@.len() && start <= #[trigger] v@[i] < end;
                if k < i {
                    assert(v@[k as int] < v@[i]);
                }
            }
        }
        false
    }
}

impl CloserTailIndex {
    /// The index is that of `t`.
    pub closed spec fn of(&self, t: Seq<char>) -> bool {
        &&& self.read@ == t
        &&& self.wf()
    }

    /// The text that the index was built of.
    pub closed spec fn text(&self) -> Seq<char> {
        self.read@
    }

    pub closed spec fn wf(&self) -> bool {
        let t = self.read@;
        &&& indexes_where(t, self.line_breaks@, t.len() as int, is_break())
        &&& indexes_where(t, self.non_tail@, t.len() as int, is_non_tail())
        &&& indexes_where(t, self.annotation@, t.len() as int, is_of_note())
    }

    pub fn build(text: &Text<'_>) -> (r: Self)
        requires
            text.wf(),
        ensures
            r.of(text@),
            r.wf(),
            r.text() == text@,
    {
        let mut line_breaks: Vec<usize> = Vec::new();
        let mut non_tail: Vec<usize> = Vec::new();
        let mut annotation: Vec<usize> = Vec::new();
        let n: usize = text.len();
        let mut i: usize = 0;
        while i < n
            invariant
                text.wf(),
                n == text@.len(),
                i <= n,
                indexes_where(text@, line_breaks@, i as int, is_break()),
                indexes_where(text@, non_tail@, i as int, is_non_tail()),
                indexes_where(text@, annotation@, i as int, is_of_note()),
            decreases n - i,
        {
            let c = text.ch(i);
            proof {
                lemma_index_push(text@, line_breaks@, i, is_break());
                lemma_index_push(text@, non_tail@, i, is_non_tail());
                lemma_index_push(text@, annotation@, i, is_of_note());
                assert(LINE_BREAKS@[0] == '\n');
                assert(LINE_BREAKS@[1] == '\r');
            }
            assert((c == '\n' || c == '\r') == LINE_BREAKS@.contains(c));
            if c == '\n' || c == '\r' {
                line_breaks.push(i);
            } else if c == '（' || c == '註' {
                annotation.push(i);
            } else if !may_open_closer_tail(c) {
                non_tail.push(i);
            }
            i = i + 1;
        }
        CloserTailIndex { line_breaks, non_tail, annotation, read: Ghost(text@) }
    }

    /// First line break at or after `pos`.
    pub fn next_line_break(&self, pos: usize) -> (r: Option<usize>)
        requires
            self.wf(),
            pos <= self.text().len(),
        ensures
            ({
                let n = self.text().len() as int;
                match r {
                    Some(p) => p < n && p == next_of(self.text(), LINE_BREAKS@, pos as int, n),
                    None => next_of(self.text(), LINE_BREAKS@, pos as int, n) == n,
                }
            }),
    {
        let ghost t = self.read@;
        let k: usize = lower_bound(&self.line_breaks, pos);
        if k < self.line_breaks.len() {
            let p: usize = self.line_breaks[k];
            proof {
                assert(is_break()(t[p as int]));
                assert forall|j: int| pos <= j < p implies !LINE_BREAKS@.contains(
                    #[trigger] t[j],
                ) by {
                    if LINE_BREAKS@.contains(t[j]) {
                        assert(is_break()(t[j]));
                        let i = choose|i: int|
                            0 <= i < self.line_breaks@.len() && #[trigger] self.line_breaks@[i]
                                == j;
                        if i > k {
                            assert(self.line_breaks@[k as int] < self.line_breaks@[i]);
                        }
                    }
                }
                lemma_next_of_is(t, LINE_BREAKS@, pos as int, t.len() as int, p as int);
            }
            Some(p)
        } else {
            proof {
                assert forall|j: int| pos <= j < t.len() implies !LINE_BREAKS@.contains(
                    #[trigger] t[j],
                ) by {
                    if LINE_BREAKS@.contains(t[j]) {
                        assert(is_break()(t[j]));
                        let i = choose|i: int|
                            0 <= i < self.line_breaks@.len() && #[trigger] self.line_breaks@[i]
                                == j;
                    }
                }
                lemma_next_of_is(
                    t,
                    LINE_BREAKS@,
                    pos as int,
                    t.len() as int,
                    t.len() as int,
                );
            }
            None
        }
    }

    /// Whether `start..end` holds a character that no accepted tail holds.
    pub fn has_non_tail_char(&self, start: usize, end: usize) -> (r: bool)
        requires
            self.wf(),
            end <= self.text().len(),
        ensures
            r == exists|i: int| start <= i < end && non_tail(#[trigger] self.text()[i]),
    {
        let ghost t = self.read@;
        proof {
            lemma_some_in(t, self.non_tail@, is_non_tail(), start as int, end as int);
            assert forall|i: int| #![trigger t[i]] is_non_tail()(t[i]) == non_tail(t[i]) by {}
        }
        any_position_in(&self.non_tail, start, end)
    }

    /// Whether `start..end` holds a character of a note.
    pub fn has_annotation(&self, start: usize, end: usize) -> (r: bool)
        requires
            self.wf(),
            end <= self.text().len(),
        ensures
            r == exists|i: int| start <= i < end && of_note(#[trigger] self.text()[i]),
    {
        let ghost t = self.read@;
        proof {
            lemma_some_in(t, self.annotation@, is_of_note(), start as int, end as int);
            assert forall|i: int| #![trigger t[i]] is_of_note()(t[i]) == of_note(t[i]) by {}
        }
        any_position_in(&self.annotation, start, end)
    }
}

proof fn lemma_some_in(
    t: Seq<char>,
    v: Seq<usize>,
    f: spec_fn(char) -> bool,
    start: int,
    end: int,
)
    requires
        indexes_where(t, v, t.len() as int, f),
        0 <= start,
        end <= t.len(),
    ensures
        (exists|i: int| 0 <= i < v.len() && start <= #[trigger] v[i] < end) == (exists|i: int|
            start <= i < end && f(#[trigger] t[i])),
{
    if exists|i: int| 0 <= i < v.len() && start <= #[trigger] v[i] < end {
        let i = choose|i: int| 0 <= i < v.len() && start <= #[trigger] v[i] < end;
        assert(f(t[v[i] as int]));
    }
    if exists|i: int| start <= i < end && f(#[trigger] t[i]) {
        let p = choose|i: int| start <= i < end && f(#[trigger] t[i]);
        let i = choose|i: int| 0 <= i < v.len() && #[trigger] v[i] == p;
        assert(start <= v[i] < end);
    }
}

proof fn lemma_next_of_is(t: Seq<char>, list: Seq<char>, from: int, to: int, p: int)
    requires
        from <= p <= to,
        p < to ==> list.contains(t[p]),
        forall|j: int| from <= j < p ==> !list.contains(#[trigger] t[j]),
    ensures
        next_of(t, list, from, to) == p,
    decreases p - from,
{
    if from < p {
        lemma_next_of_is(t, list, from + 1, to, p);
    }
}

/// Position after the notes at `a`.
pub open spec fn after_notes(t: Seq<char>, a: int, to: int) -> int
    decreases to - a,
{
    if occurs_at(t, "（註）"@, a) && a + 3 <= to {
        let next = skip_white(t, a + 3, to);
        if a < next <= to {
            after_notes(t, next, to)
        } else {
            next
        }
    } else {
        a
    }
}

/// Apart from notes and white space around it, the tail holds closing marks
/// only.
pub open spec fn allowed_tail(t: Seq<char>, from: int, to: int) -> bool {
    let (a, b) = trimmed(t, from, to);
    forall|i: int| after_notes(t, a, b) <= i < b ==> TAIL_MARKS@.contains(#[trigger] t[i])
}

pub fn is_allowed_section_closer_tail(text: &Text<'_>, from: usize, to: usize) -> (r: bool)
    requires
        text.wf(),
        from <= to <= text@.len(),
    ensures
        r == allowed_tail(text@, from as int, to as int),
{
    proof {
        reveal_strlit("（註）");
    }
    let (a, b) = trim(text, from, to);
    let mut i: usize = a;
    while b - i >= 3 && text.at("（註）", i)
        invariant
            text.wf(),
            "（註）"@.len() == 3,
            a <= i <= b <= text@.len(),
            after_notes(text@, i as int, b as int) == after_notes(text@, a as int, b as int),
        decreases b - i,
    {
        i = past_white(text, i + 3, b);
    }
    let ghost from2 = i as int;
    while i < b
        invariant
            text.wf(),
            from2 <= i <= b <= text@.len(),
            forall|j: int| from2 <= j < i ==> TAIL_MARKS@.contains(#[trigger] text@[j]),
            from2 == after_notes(text@, a as int, b as int),
            a == trimmed(text@, from as int, to as int).0,
            b == trimmed(text@, from as int, to as int).1,
        decreases b - i,
    {
        if !listed(TAIL_MARKS.as_slice(), text.ch(i)) {
            return false;
        }
        i = i + 1;
    }
    true
}

/// End of the run of `c` that begins at `i`.
pub open spec fn run_end(t: Seq<char>, c: char, i: int, to: int) -> int
    decreases to - i,
{
    if i < to && t[i] == c {
        run_end(t, c, i + 1, to)
    } else {
        i
    }
}

fn end_of_run(text: &Text<'_>, c: char, i: usize, to: usize) -> (r: usize)
    requires
        text.wf(),
        i <= to <= text@.len(),
    ensures
        r == run_end(text@, c, i as int, to as int),
        i <= r <= to,
{
    let mut k: usize = i;
    while k < to && text.ch(k) == c
        invariant
            text.wf(),
            i <= k <= to <= text@.len(),
            run_end(text@, c, k as int, to as int) == run_end(text@, c, i as int, to as int),
        decreases to - k,
    {
        k = k + 1;
    }
    k
}

/// An ATX heading: at most three blanks, one to six hashes, then a blank, a
/// tab or the end of the line.
pub open spec fn heading_line(t: Seq<char>, from: int, to: int) -> bool {
    let a = run_end(t, ' ', from, to);
    let b = run_end(t, '#', a, to);
    &&& a - from <= 3
    &&& 1 <= b - a <= 6
    &&& b >= to || t[b] == ' ' || t[b] == '\t'
}

pub fn is_heading_line(text: &Text<'_>, from: usize, to: usize) -> (r: bool)
    requires
        text.wf(),
        from <= to <= text@.len(),
    ensures
        r == heading_line(text@, from as int, to as int),
{
    let a: usize = end_of_run(text, ' ', from, to);
    if a - from > 3 {
        return false;
    }
    let b: usize = end_of_run(text, '#', a, to);
    1 <= b - a && b - a <= 6 && (b >= to || text.ch(b) == ' ' || text.ch(b) == '\t')
}

/// Whether a line is an ATX heading.
pub fn is_markdown_heading_line(line: &str) -> (r: bool)
    ensures
        r == heading_line(line@, 0, line@.len() as int),
{
    let text = Text::new(line);
    let n: usize = text.len();
    is_heading_line(&text, 0, n)
}

/// The sentence is one line, and that a heading.
pub open spec fn heading_sentence(t: Seq<char>, s: Bound) -> bool {
    next_of(t, LINE_BREAKS@, s.start as int, s.end as int) == s.end && heading_line(
        t,
        s.start as int,
        s.end as int,
    )
}

pub fn is_markdown_heading_sentence(text: &Text<'_>, s: Bound) -> (r: bool)
    requires
        text.wf(),
        s.start <= s.end <= text@.len(),
    ensures
        r == heading_sentence(text@, s),
{
    text.next(LINE_BREAKS.as_slice(), s.start, s.end) == s.end && is_heading_line(
        text,
        s.start,
        s.end,
    )
}

/// The line that holds position `p` is a heading.
pub open spec fn in_heading(t: Seq<char>, p: int) -> bool {
    heading_line(
        t,
        after_last(t, LINE_BREAKS@, p),
        next_of(t, LINE_BREAKS@, p, t.len() as int),
    )
}

pub fn is_in_markdown_heading_line(text: &Text<'_>, p: usize) -> (r: bool)
    requires
        text.wf(),
        p <= text@.len(),
    ensures
        r == in_heading(text@, p as int),
{
    let from: usize = text.past_last(LINE_BREAKS.as_slice(), p);
    let to: usize = text.next(LINE_BREAKS.as_slice(), p, text.len());
    is_heading_line(text, from, to)
}

/// What follows a sentence, as far as sections are concerned.
#[derive(Clone, Copy, PartialEq, Eq, Structural)]
pub enum SectionBoundary {
    /// The next line that is not blank opens a section.
    Heading,
    /// Nothing follows.
    DocEnd,
    /// More text follows.
    Body,
}

/// First line from `i` on that is not blank.
pub open spec fn next_line(t: Seq<char>, i: int) -> Option<(int, int)>
    decreases t.len() - i,
{
    let e = next_of(t, LINE_BREAKS@, i, t.len() as int);
    if i >= t.len() {
        None
    } else if skip_white(t, i, e) < e {
        Some((i, e))
    } else if i <= e < t.len() {
        next_line(t, e + 1)
    } else {
        None
    }
}

/// The line `from..to` opens a section: by the byte offsets where blocks that
/// open one begin, where those are known, else by its shape.
pub open spec fn opens_section(t: Seq<char>, blocks: Option<Seq<usize>>, from: int, to: int) -> bool {
    match blocks {
        Some(b) => exists|k: int| 0 <= k < b.len() && #[trigger] b[k] == byte_pos(t, from),
        None => heading_line(t, from, to),
    }
}

/// What follows the sentence that ends at `pos`. Prose on the rest of its line
/// makes it no close.
pub open spec fn boundary_after(t: Seq<char>, blocks: Option<Seq<usize>>, pos: int) -> SectionBoundary {
    let end = next_of(t, LINE_BREAKS@, pos, t.len() as int);
    if exists|i: int| pos <= i < end && non_tail(#[trigger] t[i]) {
        SectionBoundary::Body
    } else if (exists|i: int| pos <= i < end && of_note(#[trigger] t[i])) && !allowed_tail(
        t,
        pos,
        end,
    ) {
        SectionBoundary::Body
    } else {
        match next_line(t, end) {
            None => SectionBoundary::DocEnd,
            Some((a, b)) => if opens_section(t, blocks, a, b) {
                SectionBoundary::Heading
            } else {
                SectionBoundary::Body
            },
        }
    }
}

fn find_next_line(text: &Text<'_>, from: usize) -> (r: Option<(usize, usize)>)
    requires
        text.wf(),
        from <= text@.len(),
    ensures
        match (r, next_line(text@, from as int)) {
            (Some(a), Some(b)) => a.0 == b.0 && a.1 == b.1 && a.0 <= a.1 <= text@.len(),
            (None, None) => true,
            _ => false,
        },
{
    let n: usize = text.len();
    let mut i: usize = from;
    while i < n
        invariant
            text.wf(),
            n == text@.len(),
            from <= i <= n,
            next_line(text@, i as int) == next_line(text@, from as int),
        decreases n - i,
    {
        let e: usize = text.next(LINE_BREAKS.as_slice(), i, n);
        if past_white(text, i, e) < e {
            return Some((i, e));
        }
        if e >= n {
            return None;
        }
        i = e + 1;
    }
    None
}

fn line_opens_section(text: &Text<'_>, blocks: Option<&[usize]>, from: usize, to: usize) -> (r:
    bool)
    requires
        text.wf(),
        from <= to <= text@.len(),
    ensures
        r == opens_section(text@, blocks_of(blocks), from as int, to as int),
{
    match blocks {
        Some(b) => {
            let at: usize = text.byte(from);
            let mut k: usize = 0;
            while k < b.len()
                invariant
                    k <= b@.len(),
                    blocks == Some(b),
                    at == byte_pos(text@, from as int),
                    forall|j: int| 0 <= j < k ==> #[trigger] b@[j] != at,
                decreases b@.len() - k,
            {
                if b[k] == at {
                    proof {
                        let known = blocks_of(blocks)->0;
                        assert(known[k as int] == byte_pos(text@, from as int));
                    }
                    return true;
                }
                k = k + 1;
            }
            false
        },
        None => is_heading_line(text, from, to),
    }
}

pub open spec fn blocks_of(blocks: Option<&[usize]>) -> Option<Seq<usize>> {
    match blocks {
        Some(b) => Some(b@),
        None => None,
    }
}

/// What follows the sentence that ends at `pos`.
pub fn section_boundary_after(
    text: &Text<'_>,
    pos: usize,
    idx: &CloserTailIndex,
    blocks: Option<&[usize]>,
) -> (r: SectionBoundary)
    requires
        text.wf(),
        pos <= text@.len(),
        idx.of(text@),
    ensures
        r == boundary_after(text@, blocks_of(blocks), pos as int),
{
    let n: usize = text.len();
    let end: usize = match idx.next_line_break(pos) {
        Some(p) => p,
        None => n,
    };
    proof {
        lemma_next_of_bounds(text@, LINE_BREAKS@, pos as int, n as int);
    }
    if idx.has_non_tail_char(pos, end) {
        return SectionBoundary::Body;
    }
    if idx.has_annotation(pos, end) && !is_allowed_section_closer_tail(
        text,
        pos,
        end,
    ) {
        return SectionBoundary::Body;
    }
    match find_next_line(text, end) {
        None => SectionBoundary::DocEnd,
        Some((a, b)) => if line_opens_section(text, blocks, a, b) {
            SectionBoundary::Heading
        } else {
            SectionBoundary::Body
        },
    }
}

proof fn lemma_next_of_bounds(t: Seq<char>, list: Seq<char>, from: int, to: int)
    requires
        from <= to,
    ensures
        from <= next_of(t, list, from, to) <= to,
    decreases to - from,
{
    if from < to {
        lemma_next_of_bounds(t, list, from + 1, to);
    }
}

/// Formulas that close a section.
pub const FORMULAIC_ENDINGS: [&'static str; 25] = [
    "展望未來",
    "拭目以待",
    "值得期待",
    "我們有理由相信",
    "具有重要意義",
    "具有重要戰略意義",
    "攜手共進",
    "值得深思",
    "任重道遠",
    "值得持續觀察",
    "值得持續關注",
    "機會與風險並存",
    "未來可期",
    "前景可期",
    "添磚加瓦",
    "開啟新篇章",
    "讓我們共同期待",
    "讓我們一起見證",
    "讓我們並肩前行",
    "感謝您的閱讀",
    "希望這篇文章對您有所幫助",
    "希望這些資訊對你有幫助",
    "如有不足之處",
    "歡迎在留言區",
    "歡迎在評論區",
];

/// First occurrence of the phrase within `from..to` that stands neither in a
/// heading nor in an excluded range.
pub open spec fn closing_hit(
    t: Seq<char>,
    ex: Seq<ByteRange>,
    phrase: Seq<char>,
    from: int,
    to: int,
) -> Option<int>
    decreases to - from,
{
    match find_in(t, phrase, from, to) {
        None => None,
        Some(p) => {
            let end = p + phrase.len();
            if !in_heading(t, p) && !span_excluded(t, ex, p, end) {
                Some(p)
            } else if from < end <= to {
                closing_hit(t, ex, phrase, end, to)
            } else {
                None
            }
        },
    }
}

/// The closing formulas of the sentence `from..to`, one per phrase.
pub open spec fn closing_phrases(t: Seq<char>, ex: Seq<ByteRange>, from: int, to: int) -> spec_fn(
    int,
) -> Seq<IssueModel> {
    |k: int|
        {
            let phrase = FORMULAIC_ENDINGS@[k]@;
            match closing_hit(t, ex, phrase, from, to) {
                Some(p) => seq![
                    ai_issue(
                        t,
                        p,
                        p + phrase.len(),
                        Seq::empty(),
                        Severity::Info,
                        Some(StructuralFamily::FormulaicClosing),
                        "AI structural: 公式化用語，常見於 AI 生成文本"@,
                    ),
                ],
                None => Seq::empty(),
            }
        }
}

/// No sentence of `j..last` is other than a heading.
pub open spec fn only_headings(t: Seq<char>, sentences: Seq<Bound>, j: int, last: int) -> bool {
    forall|i: int| j <= i < last ==> heading_sentence(t, #[trigger] sentences[i])
}

/// The `j`-th sentence closes a section: a section opens after it, or the
/// document ends and no sentence of its paragraph but headings follows.
pub open spec fn closes_section(
    t: Seq<char>,
    blocks: Option<Seq<usize>>,
    sentences: Seq<Bound>,
    j: int,
    last: int,
) -> bool {
    !heading_sentence(t, sentences[j]) && match boundary_after(t, blocks, sentences[j].end as int) {
        SectionBoundary::Heading => true,
        SectionBoundary::DocEnd => only_headings(t, sentences, j + 1, last),
        SectionBoundary::Body => false,
    }
}

/// The closing formulas of the sentences `j..last`.
pub open spec fn closings(
    t: Seq<char>,
    ex: Seq<ByteRange>,
    blocks: Option<Seq<usize>>,
    sentences: Seq<Bound>,
    j: int,
    last: int,
) -> Seq<IssueModel>
    decreases last - j,
{
    if j >= last {
        Seq::empty()
    } else {
        (if closes_section(t, blocks, sentences, j, last) {
            each(
                25,
                closing_phrases(t, ex, sentences[j].start as int, sentences[j].end as int),
            )
        } else {
            Seq::empty()
        }) + closings(t, ex, blocks, sentences, j + 1, last)
    }
}

proof fn lemma_endings_nonempty()
    ensures
        forall|j: int| 0 <= j < 25 ==> (#[trigger] FORMULAIC_ENDINGS@[j])@.len() > 0,
{
    reveal_strlit("展望未來");
    reveal_strlit("拭目以待");
    reveal_strlit("值得期待");
    reveal_strlit("我們有理由相信");
    reveal_strlit("具有重要意義");
    reveal_strlit("具有重要戰略意義");
    reveal_strlit("攜手共進");
    reveal_strlit("值得深思");
    reveal_strlit("任重道遠");
    reveal_strlit("值得持續觀察");
    reveal_strlit("值得持續關注");
    reveal_strlit("機會與風險並存");
    reveal_strlit("未來可期");
    reveal_strlit("前景可期");
    reveal_strlit("添磚加瓦");
    reveal_strlit("開啟新篇章");
    reveal_strlit("讓我們共同期待");
    reveal_strlit("讓我們一起見證");
    reveal_strlit("讓我們並肩前行");
    reveal_strlit("感謝您的閱讀");
    reveal_strlit("希望這篇文章對您有所幫助");
    reveal_strlit("希望這些資訊對你有幫助");
    reveal_strlit("如有不足之處");
    reveal_strlit("歡迎在留言區");
    reveal_strlit("歡迎在評論區");
}

fn find_closing(em: &Emitter<'_>, phrase: &'static str, lo: usize, to: usize) -> (r: Option<usize>)
    requires
        em.wf(),
        lo <= to <= em.chars().len(),
        phrase@.len() > 0,
    ensures
        match (r, closing_hit(em.chars(), em.ex(), phrase@, lo as int, to as int)) {
            (Some(a), Some(b)) => a == b && a + phrase@.len() <= to,
            (None, None) => true,
            _ => false,
        },
{
    let width: usize = phrase.unicode_len();
    let mut from: usize = lo;
    let mut more: bool = true;
    while more
        invariant
            em.wf(),
            lo <= from <= to <= em.chars().len(),
            width == phrase@.len(),
            width > 0,
            closing_hit(em.chars(), em.ex(), phrase@, lo as int, to as int) == (if more {
                closing_hit(em.chars(), em.ex(), phrase@, from as int, to as int)
            } else {
                None
            }),
        decreases
                to - from + (if more {
                    1int
                } else {
                    0int
                }),
    {
        match em.text.find(phrase, from, to) {
            Some(p) => {
                if !is_in_markdown_heading_line(&em.text, p) && !em.excluded_span(p, p + width) {
                    return Some(p);
                }
                from = p + width;
            },
            None => {
                more = false;
            },
        }
    }
    None
}

fn flag_closing_sentence(em: &mut Emitter<'_>, from: usize, to: usize)
    requires
        old(em).wf(),
        from <= to <= old(em).chars().len(),
    ensures
        final(em).wf(),
        final(em).extends(
            old(em),
            each(25, closing_phrases(old(em).chars(), old(em).ex(), from as int, to as int)),
        ),
{
    let ghost start = *em;
    let ghost f = closing_phrases(em.chars(), em.ex(), from as int, to as int);
    proof {
        lemma_endings_nonempty();
    }
    let mut k: usize = 0;
    while k < 25
        invariant
            em.wf(),
            k <= 25,
            from <= to <= em.chars().len(),
            forall|j: int| 0 <= j < 25 ==> (#[trigger] FORMULAIC_ENDINGS@[j])@.len() > 0,
            f == closing_phrases(start.chars(), start.ex(), from as int, to as int),
            em.extends(&start, each(k as int, f)),
        decreases 25 - k,
    {
        if let Some(p) = find_closing(em, FORMULAIC_ENDINGS[k], from, to) {
            let _len: usize = em.text.len();
            let end: usize = p + FORMULAIC_ENDINGS[k].unicode_len();
            em.advise_ai(
                p,
                end,
                Severity::Info,
                Some(StructuralFamily::FormulaicClosing),
                "AI structural: 公式化用語，常見於 AI 生成文本".to_owned(),
            );
        }
        assert(em.out() =~= start.out() + (each(k as int, f) + f(k as int)));
        k = k + 1;
    }
}

fn none_but_headings(text: &Text<'_>, idx: &BoundaryIndex, j: usize, last: usize) -> (r: bool)
    requires
        text.wf(),
        idx.fits(text@.len() as int),
        j <= last <= idx.sentences@.len(),
    ensures
        r == only_headings(text@, idx.sentences@, j as int, last as int),
{
    let mut i: usize = j;
    while i < last
        invariant
            text.wf(),
            idx.fits(text@.len() as int),
            j <= i <= last <= idx.sentences@.len(),
            forall|m: int| j <= m < i ==> heading_sentence(text@, #[trigger] idx.sentences@[m]),
        decreases last - i,
    {
        if !is_markdown_heading_sentence(text, idx.sentences[i]) {
            return false;
        }
        i = i + 1;
    }
    true
}

fn sentence_closes(
    text: &Text<'_>,
    idx: &BoundaryIndex,
    tails: &CloserTailIndex,
    blocks: Option<&[usize]>,
    j: usize,
    last: usize,
) -> (r: bool)
    requires
        text.wf(),
        idx.fits(text@.len() as int),
        j < last <= idx.sentences@.len(),
        tails.of(text@),
    ensures
        r == closes_section(
            text@,
            blocks_of(blocks),
            idx.sentences@,
            j as int,
            last as int,
        ),
{
    let s = idx.sentences[j];
    if is_markdown_heading_sentence(text, s) {
        return false;
    }
    match section_boundary_after(text, s.end, tails, blocks) {
        SectionBoundary::Heading => true,
        SectionBoundary::DocEnd => none_but_headings(text, idx, j + 1, last),
        SectionBoundary::Body => false,
    }
}

fn flag_closing_phrases(
    em: &mut Emitter<'_>,
    idx: &BoundaryIndex,
    first: usize,
    last: usize,
    tails: &CloserTailIndex,
    blocks: Option<&[usize]>,
)
    requires
        old(em).wf(),
        idx.fits(old(em).chars().len() as int),
        first <= last <= idx.sentences@.len(),
        tails.of(old(em).chars()),
    ensures
        final(em).wf(),
        final(em).extends(
            old(em),
            closings(
                old(em).chars(),
                old(em).ex(),
                blocks_of(blocks),
                idx.sentences@,
                first as int,
                last as int,
            ),
        ),
{
    let ghost start = *em;
    let ghost b = blocks_of(blocks);
    let mut j: usize = first;
    while j < last
        invariant
            em.wf(),
            em.text == start.text,
            em.excluded == start.excluded,
            idx.fits(em.chars().len() as int),
            first <= j <= last <= idx.sentences@.len(),
            tails.of(em.chars()),
            b == blocks_of(blocks),
            em.out() + closings(
                em.chars(),
                em.ex(),
                b,
                idx.sentences@,
                j as int,
                last as int,
            ) =~= start.out() + closings(
                em.chars(),
                em.ex(),
                b,
                idx.sentences@,
                first as int,
                last as int,
            ),
        decreases last - j,
    {
        let s = idx.sentences[j];
        if sentence_closes(&em.text, idx, tails, blocks, j, last) {
            flag_closing_sentence(em, s.start, s.end);
        }
        j = j + 1;
    }
}

/// A stamp of significance: what it opens on, and what it closes on.
pub const FORMULAIC_PAIRS: [(&'static str, &'static str); 4] = [
    ("奠定", "理論基礎"),
    ("提供", "重要框架"),
    ("發揮", "關鍵作用"),
    ("印證", "重要性"),
];

/// The stamps of the sentence `from..to`.
pub open spec fn stamps(t: Seq<char>, ex: Seq<ByteRange>, from: int, to: int) -> spec_fn(
    int,
) -> Seq<IssueModel> {
    |k: int|
        {
            let (open, close) = (FORMULAIC_PAIRS@[k].0@, FORMULAIC_PAIRS@[k].1@);
            match find_in(t, open, from, to) {
                Some(p) => match find_in(t, close, p + open.len(), to) {
                    Some(q) => if_so(
                        !span_excluded(t, ex, p, q + close.len()),
                        ai_issue(
                            t,
                            p,
                            q + close.len(),
                            Seq::empty(),
                            Severity::Info,
                            Some(StructuralFamily::SignificanceStamp),
                            "AI structural: 意義蓋章式收尾，常見於 AI 生成文本"@,
                        ),
                    ),
                    None => Seq::empty(),
                },
                None => Seq::empty(),
            }
        }
}

/// 隨著 with 不斷發展 at most forty characters after it.
pub open spec fn gradual(t: Seq<char>, ex: Seq<ByteRange>, from: int, to: int) -> Seq<IssueModel> {
    match (find_in(t, "隨著"@, from, to), find_in(t, "不斷發展"@, from, to)) {
        (Some(p), Some(q)) => if_so(
            p + 2 <= q && q - (p + 2) <= 40 && !span_excluded(t, ex, p, q + 4),
            ai_issue(
                t,
                p,
                q + 4,
                Seq::empty(),
                Severity::Info,
                Some(StructuralFamily::EraOpener),
                "AI structural: 公式化用語（隨著…不斷發展）"@,
            ),
        ),
        _ => Seq::empty(),
    }
}

/// The stamps of the sentences `j..last`, with 隨著…不斷發展 after those of
/// each sentence.
pub open spec fn all_stamps(
    t: Seq<char>,
    ex: Seq<ByteRange>,
    sentences: Seq<Bound>,
    j: int,
    last: int,
) -> Seq<IssueModel>
    decreases last - j,
{
    if j >= last {
        Seq::empty()
    } else {
        let (from, to) = (sentences[j].start as int, sentences[j].end as int);
        each(4, stamps(t, ex, from, to)) + gradual(t, ex, from, to) + all_stamps(
            t,
            ex,
            sentences,
            j + 1,
            last,
        )
    }
}

fn flag_stamps(em: &mut Emitter<'_>, from: usize, to: usize)
    requires
        old(em).wf(),
        from <= to <= old(em).chars().len(),
    ensures
        final(em).wf(),
        final(em).extends(
            old(em),
            each(4, stamps(old(em).chars(), old(em).ex(), from as int, to as int)),
        ),
{
    let ghost start = *em;
    let ghost f = stamps(em.chars(), em.ex(), from as int, to as int);
    let _len: usize = em.text.len();
    let mut k: usize = 0;
    while k < 4
        invariant
            em.wf(),
            k <= 4,
            from <= to <= em.chars().len(),
            em.chars().len() <= usize::MAX,
            f == stamps(start.chars(), start.ex(), from as int, to as int),
            em.extends(&start, each(k as int, f)),
        decreases 4 - k,
    {
        let (open, close) = FORMULAIC_PAIRS[k];
        if let Some(p) = em.text.find(open, from, to) {
            if let Some(q) = em.text.find(close, p + open.unicode_len(), to) {
                let end: usize = q + close.unicode_len();
                if !em.excluded_span(p, end) {
                    em.advise_ai(
                        p,
                        end,
                        Severity::Info,
                        Some(StructuralFamily::SignificanceStamp),
                        "AI structural: 意義蓋章式收尾，常見於 AI 生成文本".to_owned(),
                    );
                }
            }
        }
        assert(em.out() =~= start.out() + (each(k as int, f) + f(k as int)));
        k = k + 1;
    }
}

fn flag_gradual_development(em: &mut Emitter<'_>, from: usize, to: usize)
    requires
        old(em).wf(),
        from <= to <= old(em).chars().len(),
    ensures
        final(em).wf(),
        final(em).extends(
            old(em),
            gradual(old(em).chars(), old(em).ex(), from as int, to as int),
        ),
{
    let ghost start = *em;
    proof {
        reveal_strlit("隨著");
        reveal_strlit("不斷發展");
    }
    if let Some(p) = em.text.find("隨著", from, to) {
        if let Some(q) = em.text.find("不斷發展", from, to) {
            if p + 2 <= q && q - (p + 2) <= 40 && !em.excluded_span(p, q + 4) {
                em.advise_ai(
                    p,
                    q + 4,
                    Severity::Info,
                    Some(StructuralFamily::EraOpener),
                    "AI structural: 公式化用語（隨著…不斷發展）".to_owned(),
                );
            }
        }
    }
    assert(em.out() =~= start.out() + gradual(start.chars(), start.ex(), from as int, to as int));
}

fn flag_significance_stamps(em: &mut Emitter<'_>, idx: &BoundaryIndex, first: usize, last: usize)
    requires
        old(em).wf(),
        idx.fits(old(em).chars().len() as int),
        first <= last <= idx.sentences@.len(),
    ensures
        final(em).wf(),
        final(em).extends(
            old(em),
            all_stamps(
                old(em).chars(),
                old(em).ex(),
                idx.sentences@,
                first as int,
                last as int,
            ),
        ),
{
    let ghost start = *em;
    let mut j: usize = first;
    while j < last
        invariant
            em.wf(),
            em.text == start.text,
            em.excluded == start.excluded,
            idx.fits(em.chars().len() as int),
            first <= j <= last <= idx.sentences@.len(),
            em.out() + all_stamps(em.chars(), em.ex(), idx.sentences@, j as int, last as int)
                =~= start.out() + all_stamps(
                em.chars(),
                em.ex(),
                idx.sentences@,
                first as int,
                last as int,
            ),
        decreases last - j,
    {
        let s = idx.sentences[j];
        flag_stamps(em, s.start, s.end);
        flag_gradual_development(em, s.start, s.end);
        j = j + 1;
    }
}

/// What a paragraph yields: closing formulas, then stamps.
pub open spec fn ending_rule(
    t: Seq<char>,
    ex: Seq<ByteRange>,
    blocks: Option<Seq<usize>>,
    sentences: Seq<Bound>,
    paragraphs: Seq<Paragraph>,
) -> spec_fn(int) -> Seq<IssueModel> {
    |k: int|
        closings(
            t,
            ex,
            blocks,
            sentences,
            paragraphs[k].first as int,
            paragraphs[k].last as int,
        ) + all_stamps(
            t,
            ex,
            sentences,
            paragraphs[k].first as int,
            paragraphs[k].last as int,
        )
}

/// A document without any of the formulas has no closing formula.
proof fn lemma_no_formula(
    t: Seq<char>,
    ex: Seq<ByteRange>,
    blocks: Option<Seq<usize>>,
    sentences: Seq<Bound>,
    j: int,
    last: int,
)
    requires
        !any_in(t, FORMULAIC_ENDINGS@, 0, t.len() as int),
        0 <= j,
        last <= sentences.len(),
        forall|k: int|
            0 <= k < sentences.len() ==> (#[trigger] sentences[k]).start <= sentences[k].end
                <= t.len(),
    ensures
        closings(t, ex, blocks, sentences, j, last) == Seq::<IssueModel>::empty(),
    decreases last - j,
{
    if j < last {
        lemma_no_formula(t, ex, blocks, sentences, j + 1, last);
        let (from, to) = (sentences[j].start as int, sentences[j].end as int);
        lemma_no_phrases(t, ex, from, to, 25);
    }
}

proof fn lemma_no_phrases(t: Seq<char>, ex: Seq<ByteRange>, from: int, to: int, n: int)
    requires
        !any_in(t, FORMULAIC_ENDINGS@, 0, t.len() as int),
        0 <= from <= to <= t.len(),
        n <= 25,
    ensures
        each(n, closing_phrases(t, ex, from, to)) == Seq::<IssueModel>::empty(),
    decreases n,
{
    if n > 0 {
        lemma_no_phrases(t, ex, from, to, n - 1);
        let phrase = FORMULAIC_ENDINGS@[n - 1]@;
        lemma_find_in(t, phrase, from, to);
        lemma_find_in(t, phrase, 0, t.len() as int);
        assert(!contains_in(t, FORMULAIC_ENDINGS@[n - 1]@, 0, t.len() as int));
        assert(find_in(t, phrase, from, to) is None);
        assert(closing_phrases(t, ex, from, to)(n - 1) =~= Seq::<IssueModel>::empty());
    }
}

/// Formulas that close a section, and stamps of significance anywhere. One
/// pass of an automaton tells whether the document holds a formula at all.
pub fn scan_ai_formulaic_section_endings(
    em: &mut Emitter<'_>,
    idx: &BoundaryIndex,
    blocks: Option<&[usize]>,
)
    requires
        old(em).wf(),
        idx.fits(old(em).chars().len() as int),
    ensures
        final(em).wf(),
        final(em).extends(
            old(em),
            each(
                idx.paragraphs@.len() as int,
                ending_rule(
                    old(em).chars(),
                    old(em).ex(),
                    blocks_of(blocks),
                    idx.sentences@,
                    idx.paragraphs@,
                ),
            ),
        ),
{
    let ghost start = *em;
    let ghost f = ending_rule(
        em.chars(),
        em.ex(),
        blocks_of(blocks),
        idx.sentences@,
        idx.paragraphs@,
    );
    proof {
        lemma_endings_nonempty();
    }
    let present: bool = match any_pattern_in(FORMULAIC_ENDINGS.as_slice(), em.text.source()) {
        Some(found) => found,
        None => true,
    };
    let tails: Option<CloserTailIndex> = if present {
        Some(CloserTailIndex::build(&em.text))
    } else {
        None
    };
    let mut k: usize = 0;
    while k < idx.paragraphs.len()
        invariant
            em.wf(),
            k <= idx.paragraphs@.len(),
            idx.fits(em.chars().len() as int),
            f == ending_rule(
                start.chars(),
                start.ex(),
                blocks_of(blocks),
                idx.sentences@,
                idx.paragraphs@,
            ),
            match tails {
                Some(x) => x.of(start.chars()),
                None => !any_in(
                    start.chars(),
                    FORMULAIC_ENDINGS@,
                    0,
                    start.chars().len() as int,
                ),
            },
            em.extends(&start, each(k as int, f)),
        decreases idx.paragraphs@.len() - k,
    {
        let p = idx.paragraphs[k];
        match &tails {
            Some(x) => {
                flag_closing_phrases(em, idx, p.first, p.last, x, blocks);
            },
            None => {
                proof {
                    lemma_no_formula(
                        em.chars(),
                        em.ex(),
                        blocks_of(blocks),
                        idx.sentences@,
                        p.first as int,
                        p.last as int,
                    );
                }
            },
        }
        flag_significance_stamps(em, idx, p.first, p.last);
        assert(em.out() =~= start.out() + (each(k as int, f) + f(k as int)));
        k = k + 1;
    }
}

} // verus!
