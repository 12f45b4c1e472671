//! Lines of a text, and what is left of a span without the white space around
//! it.
use vstd::prelude::*;

use crate::bounds::{spans, Bound};
use crate::chars::{is_whitespace, whitespace};
use crate::text::{next_of, Text};

verus! {

/// End of `from..to` without the white space at its end.
pub open spec fn trim_white_end(t: Seq<char>, from: int, to: int) -> int
    decreases to - from,
{
    if to > from && whitespace(t[to - 1]) {
        trim_white_end(t, from, to - 1)
    } else {
        to
    }
}

pub fn before_white(text: &Text<'_>, from: usize, to: usize) -> (r: usize)
    requires
        text.wf(),
        from <= to <= text@.len(),
    ensures
        r == trim_white_end(text@, from as int, to as int),
        from <= r <= to,
{
    let mut e: usize = to;
    while e > from && is_whitespace(text.ch(e - 1))
        invariant
            text.wf(),
            from <= e <= to <= text@.len(),
            trim_white_end(text@, from as int, e as int) == trim_white_end(
                text@,
                from as int,
                to as int,
            ),
        decreases e,
    {
        e = e - 1;
    }
    e
}

/// First position of `from..to` that is not white space, else `to`.
pub open spec fn skip_white(t: Seq<char>, from: int, to: int) -> int
    decreases to - from,
{
    if from < to && whitespace(t[from]) {
        skip_white(t, from + 1, to)
    } else {
        from
    }
}

pub fn past_white(text: &Text<'_>, from: usize, to: usize) -> (r: usize)
    requires
        text.wf(),
        from <= to <= text@.len(),
    ensures
        r == skip_white(text@, from as int, to as int),
        from <= r <= to,
{
    let mut i: usize = from;
    while i < to && is_whitespace(text.ch(i))
        invariant
            text.wf(),
            from <= i <= to <= text@.len(),
            skip_white(text@, i as int, to as int) == skip_white(text@, from as int, to as int),
        decreases to - i,
    {
        i = i + 1;
    }
    i
}

/// What is left of `from..to` without the white space around it.
pub open spec fn trimmed(t: Seq<char>, from: int, to: int) -> (int, int) {
    let s = skip_white(t, from, to);
    (s, trim_white_end(t, s, to))
}

pub fn trim(text: &Text<'_>, from: usize, to: usize) -> (r: (usize, usize))
    requires
        text.wf(),
        from <= to <= text@.len(),
    ensures
        r.0 == trimmed(text@, from as int, to as int).0,
        r.1 == trimmed(text@, from as int, to as int).1,
        from <= r.0 <= r.1 <= to,
{
    let s: usize = past_white(text, from, to);
    (s, before_white(text, s, to))
}

/// The lines of `from..to`, without their line feeds and the carriage returns
/// before those.
pub open spec fn lines_from(t: Seq<char>, from: int, to: int) -> Seq<(int, int)>
    decreases to - from,
{
    let feed = next_of(t, seq!['\n'], from, to);
    if from >= to {
        Seq::empty()
    } else if from <= feed < to {
        seq![
            (
                from,
                if feed > from && t[feed - 1] == '\r' {
                    feed - 1
                } else {
                    feed
                },
            ),
        ] + lines_from(t, feed + 1, to)
    } else {
        seq![(from, to)]
    }
}

/// The lines of `from..to`.
pub fn line_spans(text: &Text<'_>, lo: usize, to: usize) -> (r: Vec<Bound>)
    requires
        text.wf(),
        lo <= to <= text@.len(),
    ensures
        spans(r@) == lines_from(text@, lo as int, to as int),
        forall|k: int|
            0 <= k < r@.len() ==> lo <= (#[trigger] r@[k]).start <= r@[k].end <= to,
{
    let feeds: [char; 1] = ['\n'];
    assert(feeds@ =~= seq!['\n']);
    let mut r: Vec<Bound> = Vec::new();
    let mut from: usize = lo;
    let mut more: bool = from < to;
    assert(spans(r@) =~= Seq::empty());
    while more
        invariant
            text.wf(),
            lo <= from <= to <= text@.len(),
            feeds@ == seq!['\n'],
            more ==> from < to,
            spans(r@) + (if more {
                lines_from(text@, from as int, to as int)
            } else {
                Seq::empty()
            }) =~= lines_from(text@, lo as int, to as int),
            forall|k: int|
                0 <= k < r@.len() ==> lo <= (#[trigger] r@[k]).start <= r@[k].end <= to,
        decreases
                to - from + (if more {
                    1int
                } else {
                    0int
                }),
    {
        let ghost before = spans(r@);
        let feed: usize = text.next(feeds.as_slice(), from, to);
        if feed < to {
            let end: usize = if feed > from && text.ch(feed - 1) == '\r' {
                feed - 1
            } else {
                feed
            };
            r.push(Bound { start: from, end });
            assert(spans(r@) =~= before.push((from as int, end as int)));
            assert(feed + 1 >= to ==> lines_from(text@, feed + 1, to as int) =~= Seq::empty());
            from = feed + 1;
            more = from < to;
        } else {
            r.push(Bound { start: from, end: to });
            assert(spans(r@) =~= before.push((from as int, to as int)));
            more = false;
        }
    }
    r
}

/// What is left when white space is taken off the end.
pub proof fn lemma_trim_white_end(t: Seq<char>, from: int, to: int)
    requires
        from <= to,
    ensures
        from <= trim_white_end(t, from, to) <= to,
        forall|q: int| trim_white_end(t, from, to) <= q < to ==> whitespace(#[trigger] t[q]),
        trim_white_end(t, from, to) > from ==> !whitespace(t[trim_white_end(t, from, to) - 1]),
    decreases to - from,
{
    if to > from && whitespace(t[to - 1]) {
        lemma_trim_white_end(t, from, to - 1);
    }
}

/// What is left when white space is passed over.
pub proof fn lemma_skip_white(t: Seq<char>, from: int, to: int)
    requires
        from <= to,
    ensures
        from <= skip_white(t, from, to) <= to,
        forall|q: int| from <= q < skip_white(t, from, to) ==> whitespace(#[trigger] t[q]),
        skip_white(t, from, to) < to ==> !whitespace(t[skip_white(t, from, to)]),
    decreases to - from,
{
    if from < to && whitespace(t[from]) {
        lemma_skip_white(t, from + 1, to);
    }
}

} // verus!
