//! Paragraphs and sentences of a text, by character position.
use vstd::prelude::*;

use crate::text::{byte_pos, Text};

verus! {

/// A span of character positions.
#[derive(Clone, Copy, Debug, PartialEq, Eq, Structural)]
pub struct Bound {
    pub start: usize,
    pub end: usize,
}

/// A paragraph, and which of the sentences are its own.
#[derive(Clone, Copy, Debug, PartialEq, Eq, Structural)]
pub struct Paragraph {
    pub start: usize,
    pub end: usize,
    pub first: usize,
    pub last: usize,
}

/// The spans of a list as pairs.
pub open spec fn spans(v: Seq<Bound>) -> Seq<(int, int)> {
    Seq::new(v.len(), |i: int| (v[i].start as int, v[i].end as int))
}

/// Where the text goes on after the blank line that the line feed at `i`
/// opens, if it opens one.
pub open spec fn blank_line_end(t: Seq<char>, i: int) -> Option<int> {
    if 0 <= i && i + 1 < t.len() && t[i] == '\n' && t[i + 1] == '\n' {
        Some(i + 2)
    } else if 0 <= i && i + 2 < t.len() && t[i] == '\n' && t[i + 1] == '\r' && t[i + 2] == '\n' {
        Some(i + 3)
    } else {
        None
    }
}

pub fn blank_line_after(text: &Text<'_>, i: usize) -> (r: Option<usize>)
    requires
        text.wf(),
        i < text@.len(),
    ensures
        match (r, blank_line_end(text@, i as int)) {
            (Some(a), Some(b)) => a == b && i < a <= text@.len(),
            (None, None) => true,
            _ => false,
        },
{
    let n: usize = text.len();
    if text.ch(i) != '\n' {
        return None;
    }
    if i + 1 < n && text.ch(i + 1) == '\n' {
        return Some(i + 2);
    }
    if n >= 2 && i < n - 2 && text.ch(i + 1) == '\r' && text.ch(i + 2) == '\n' {
        return Some(i + 3);
    }
    None
}

/// A paragraph's end without its own line ending.
pub open spec fn trim_line_end(t: Seq<char>, from: int, to: int) -> int
    decreases to - from,
{
    if to > from && (t[to - 1] == '\r' || t[to - 1] == '\n') {
        trim_line_end(t, from, to - 1)
    } else {
        to
    }
}

fn trimmed_end(text: &Text<'_>, from: usize, to: usize) -> (r: usize)
    requires
        text.wf(),
        from <= to <= text@.len(),
    ensures
        r == trim_line_end(text@, from as int, to as int),
        from <= r <= to,
{
    let mut e: usize = to;
    while e > from && (text.ch(e - 1) == '\r' || text.ch(e - 1) == '\n')
        invariant
            text.wf(),
            from <= e <= to <= text@.len(),
            trim_line_end(text@, from as int, e as int) == trim_line_end(
                text@,
                from as int,
                to as int,
            ),
        decreases e,
    {
        e = e - 1;
    }
    e
}

/// The paragraphs of `t` from `prev` on, the search for a blank line having
/// come to `i`.
pub open spec fn paragraphs_from(t: Seq<char>, prev: int, i: int) -> Seq<(int, int)>
    decreases t.len() - i,
{
    if i >= t.len() {
        if prev < t.len() {
            seq![(prev, trim_line_end(t, prev, t.len() as int))]
        } else {
            Seq::empty()
        }
    } else {
        match blank_line_end(t, i) {
            Some(next) => seq![(prev, trim_line_end(t, prev, i))] + paragraphs_from(t, next, next),
            None => paragraphs_from(t, prev, i + 1),
        }
    }
}

/// The paragraphs of `t`: what blank lines divide, each without its own line
/// ending.
pub open spec fn paragraphs_of(t: Seq<char>) -> Seq<(int, int)> {
    paragraphs_from(t, 0, 0)
}

/// The paragraphs stand one behind the other.
pub proof fn lemma_paragraphs_ordered(t: Seq<char>, prev: int, i: int)
    requires
        0 <= prev <= i <= t.len(),
    ensures
        forall|k: int|
            0 <= k < paragraphs_from(t, prev, i).len() ==> prev <= (#[trigger] paragraphs_from(
                t,
                prev,
                i,
            )[k]).0 <= paragraphs_from(t, prev, i)[k].1 <= t.len(),
        forall|k: int, m: int|
            0 <= k < m < paragraphs_from(t, prev, i).len() ==> (#[trigger] paragraphs_from(
                t,
                prev,
                i,
            )[k]).1 <= (#[trigger] paragraphs_from(t, prev, i)[m]).0,
    decreases t.len() - i,
{
    let now = paragraphs_from(t, prev, i);
    if i >= t.len() {
        lemma_trim_line_end(t, prev, t.len() as int);
    } else {
        match blank_line_end(t, i) {
            Some(next) => {
                lemma_trim_line_end(t, prev, i);
                lemma_paragraphs_ordered(t, next, next);
                let rest = paragraphs_from(t, next, next);
                assert(now == seq![(prev, trim_line_end(t, prev, i))] + rest);
                assert forall|k: int| 0 <= k < now.len() implies prev <= (#[trigger] now[k]).0
                    <= now[k].1 <= t.len() by {
                    if k > 0 {
                        assert(now[k] == rest[k - 1]);
                    }
                }
                assert forall|k: int, m: int| 0 <= k < m < now.len() implies (#[trigger] now[k]).1
                    <= (#[trigger] now[m]).0 by {
                    assert(now[m] == rest[m - 1]);
                    if k > 0 {
                        assert(now[k] == rest[k - 1]);
                    }
                }
            },
            None => {
                lemma_paragraphs_ordered(t, prev, i + 1);
                assert(now == paragraphs_from(t, prev, i + 1));
            },
        }
    }
    assert(forall|k: int| 0 <= k < now.len() ==> prev <= (#[trigger] now[k]).0 <= now[k].1
        <= t.len());
    assert(forall|k: int, m: int|
        0 <= k < m < now.len() ==> (#[trigger] now[k]).1 <= (#[trigger] now[m]).0);
}

proof fn lemma_trim_line_end(t: Seq<char>, from: int, to: int)
    requires
        from <= to,
    ensures
        from <= trim_line_end(t, from, to) <= to,
    decreases to - from,
{
    if to > from && (t[to - 1] == '\r' || t[to - 1] == '\n') {
        lemma_trim_line_end(t, from, to - 1);
    }
}

/// Splits a text at its blank lines.
pub fn paragraph_spans(text: &Text<'_>) -> (r: Vec<Bound>)
    requires
        text.wf(),
    ensures
        spans(r@) == paragraphs_of(text@),
        forall|k: int| 0 <= k < r@.len() ==> (#[trigger] r@[k]).start <= r@[k].end <= text@.len(),
{
    let n: usize = text.len();
    let mut r: Vec<Bound> = Vec::new();
    let mut prev: usize = 0;
    let mut i: usize = 0;
    assert(spans(r@) =~= Seq::empty());
    while i < n
        invariant
            text.wf(),
            n == text@.len(),
            prev <= i <= n,
            spans(r@) + paragraphs_from(text@, prev as int, i as int) =~= paragraphs_of(text@),
            forall|k: int| 0 <= k < r@.len() ==> (#[trigger] r@[k]).start <= r@[k].end <= n,
        decreases n - i,
    {
        match blank_line_after(text, i) {
            Some(next) => {
                let ghost before = spans(r@);
                let end: usize = trimmed_end(text, prev, i);
                r.push(Bound { start: prev, end });
                assert(spans(r@) =~= before.push((prev as int, end as int)));
                prev = next;
                i = next;
            },
            None => {
                i = i + 1;
            },
        }
    }
    if prev < n {
        let ghost before = spans(r@);
        let end: usize = trimmed_end(text, prev, n);
        r.push(Bound { start: prev, end });
        assert(spans(r@) =~= before.push((prev as int, end as int)));
    }
    r
}

/// The paragraphs of `t` from the `k`-th on, each with its byte offset.
pub open spec fn located(t: Seq<char>, p: Seq<(int, int)>) -> Seq<(int, Seq<char>)> {
    Seq::new(p.len(), |i: int| (byte_pos(t, p[i].0), t.subrange(p[i].0, p[i].1)))
}

pub open spec fn owned_views(v: Seq<(usize, String)>) -> Seq<(int, Seq<char>)> {
    Seq::new(v.len(), |i: int| (v[i].0 as int, v[i].1@))
}

/// Splits a text at its blank lines, whatever line endings they use. Each
/// paragraph comes with its byte offset and without its own line ending.
pub fn split_paragraphs(text: &str) -> (r: Vec<(usize, String)>)
    ensures
        owned_views(r@) == located(text@, paragraphs_of(text@)),
{
    let doc = Text::new(text);
    let found = paragraph_spans(&doc);
    let mut r: Vec<(usize, String)> = Vec::new();
    let mut k: usize = 0;
    while k < found.len()
        invariant
            doc.wf(),
            doc@ == text@,
            k == r@.len(),
            k <= found@.len(),
            spans(found@) == paragraphs_of(text@),
            forall|j: int|
                0 <= j < found@.len() ==> (#[trigger] found@[j]).start <= found@[j].end
                    <= text@.len(),
            forall|j: int|
                0 <= j < k ==> owned_views(r@)[j] == #[trigger] located(
                    text@,
                    paragraphs_of(text@),
                )[j],
        decreases found@.len() - k,
    {
        let b = found[k];
        let ghost before = owned_views(r@);
        r.push((doc.byte(b.start), doc.slice(b.start, b.end)));
        assert(spans(found@)[k as int] == (b.start as int, b.end as int));
        assert(owned_views(r@) =~= before.push(
            (byte_pos(text@, b.start as int), text@.subrange(b.start as int, b.end as int)),
        ));
        k = k + 1;
    }
    assert(owned_views(r@) =~= located(text@, paragraphs_of(text@)));
    r
}

/// The sentences of a document, and its paragraphs with the sentences of each.
pub struct BoundaryIndex {
    pub sentences: Vec<Bound>,
    pub paragraphs: Vec<Paragraph>,
}

impl BoundaryIndex {
    /// Every span lies within a text of `n` characters.
    pub open spec fn fits(&self, n: int) -> bool {
        &&& forall|k: int|
            0 <= k < self.sentences@.len() ==> (#[trigger] self.sentences@[k]).start
                <= self.sentences@[k].end <= n
        &&& forall|k: int|
            0 <= k < self.paragraphs@.len() ==> {
                &&& (#[trigger] self.paragraphs@[k]).start <= self.paragraphs@[k].end <= n
                &&& self.paragraphs@[k].first <= self.paragraphs@[k].last
                    <= self.sentences@.len()
            }
    }

    /// No sentence and no paragraph.
    pub fn none() -> (r: Self)
        ensures
            r.sentences@.len() == 0,
            r.paragraphs@.len() == 0,
    {
        BoundaryIndex { sentences: Vec::new(), paragraphs: Vec::new() }
    }
}

} // verus!
