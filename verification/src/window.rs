//! The text around a match in which clues count.
use vstd::prelude::*;

use crate::bounds::{blank_line_after, blank_line_end};
use crate::emit::{overlaps, ByteRange};
use crate::text::{
    byte_pos, ceil_pos, floor_pos, lemma_byte_pos_monotone, lemma_ceil_bounds, lemma_floor_bounds,
    Text,
};

verus! {

/// Characters on either side of a match in which its clues are sought.
pub const CONTEXT_WINDOW_CHARS: usize = 40;

/// Characters on one side of a match in which a clue tied to that side is
/// sought.
pub const POSITIONAL_WINDOW_CHARS: usize = 20;

/// A blank line ends right before position `p`.
pub open spec fn break_ends_at(t: Seq<char>, p: int) -> bool {
    &&& 2 <= p <= t.len()
    &&& t[p - 1] == '\n'
    &&& t[p - 2] == '\n' || (p >= 3 && t[p - 2] == '\r' && t[p - 3] == '\n')
}

/// Up to `n` characters back from `p`, but not across a blank line.
pub open spec fn window_start(t: Seq<char>, p: int, n: nat) -> int
    decreases n,
{
    if n == 0 || p <= 0 || break_ends_at(t, p) {
        p
    } else {
        window_start(t, p - 1, (n - 1) as nat)
    }
}

/// Up to `n` characters on from `p`, but not across a blank line.
pub open spec fn window_end(t: Seq<char>, p: int, n: nat) -> int
    decreases n,
{
    if n == 0 || p >= t.len() || blank_line_end(t, p) is Some {
        p
    } else {
        window_end(t, p + 1, (n - 1) as nat)
    }
}

/// The greater of `w` and the greatest end of those of the first `n` ranges
/// that lie before byte `at`.
pub open spec fn left_edge(ex: Seq<ByteRange>, at: int, w: int, n: int) -> int
    decreases n,
{
    if n <= 0 {
        w
    } else {
        let before = left_edge(ex, at, w, n - 1);
        let r = ex[n - 1];
        if r.start < at && r.end <= at && r.end > before {
            r.end as int
        } else {
            before
        }
    }
}

/// The lesser of `w` and the least start of those of the first `n` ranges that
/// begin at byte `at` or after it.
pub open spec fn right_edge(ex: Seq<ByteRange>, at: int, w: int, n: int) -> int
    decreases n,
{
    if n <= 0 {
        w
    } else {
        let before = right_edge(ex, at, w, n - 1);
        let r = ex[n - 1];
        if r.start >= at && r.start < before {
            r.start as int
        } else {
            before
        }
    }
}

/// Start of a window that begins at `a` before a match at `s`, behind the
/// excluded ranges before the match.
pub open spec fn clamped_start(t: Seq<char>, ex: Seq<ByteRange>, a: int, s: int) -> int {
    ceil_pos(t, left_edge(ex, byte_pos(t, s), byte_pos(t, a), ex.len() as int))
}

/// End of a window that ends at `b` behind a match that ends at `e`, before
/// the excluded ranges behind the match.
pub open spec fn clamped_end(t: Seq<char>, ex: Seq<ByteRange>, b: int, e: int) -> int {
    floor_pos(t, right_edge(ex, byte_pos(t, e), byte_pos(t, b), ex.len() as int))
}

fn is_break_end(text: &Text<'_>, p: usize) -> (r: bool)
    requires
        text.wf(),
        p <= text@.len(),
    ensures
        r == break_ends_at(text@, p as int),
{
    p >= 2 && text.ch(p - 1) == '\n' && (text.ch(p - 2) == '\n' || (p >= 3 && text.ch(p - 2) == '\r'
        && text.ch(p - 3) == '\n'))
}

fn back(text: &Text<'_>, p: usize, n: usize) -> (r: usize)
    requires
        text.wf(),
        p <= text@.len(),
    ensures
        r == window_start(text@, p as int, n as nat),
        r <= p,
{
    let mut at: usize = p;
    let mut left: usize = n;
    while left > 0 && at > 0 && !is_break_end(text, at)
        invariant
            text.wf(),
            at <= p <= text@.len(),
            window_start(text@, at as int, left as nat) == window_start(text@, p as int, n as nat),
        decreases left,
    {
        at = at - 1;
        left = left - 1;
    }
    at
}

fn ahead(text: &Text<'_>, p: usize, n: usize) -> (r: usize)
    requires
        text.wf(),
        p <= text@.len(),
    ensures
        r == window_end(text@, p as int, n as nat),
        p <= r <= text@.len(),
{
    let len: usize = text.len();
    let mut at: usize = p;
    let mut left: usize = n;
    while left > 0 && at < len && blank_line_after(text, at).is_none()
        invariant
            text.wf(),
            len == text@.len(),
            p <= at <= len,
            window_end(text@, at as int, left as nat) == window_end(text@, p as int, n as nat),
        decreases left,
    {
        at = at + 1;
        left = left - 1;
    }
    at
}

fn left_limit(excluded: &[ByteRange], at: usize, w: usize) -> (r: usize)
    requires
        w <= at,
    ensures
        r == left_edge(excluded@, at as int, w as int, excluded@.len() as int),
        w <= r <= at,
{
    let mut edge: usize = w;
    let mut k: usize = 0;
    while k < excluded.len()
        invariant
            k <= excluded@.len(),
            w <= edge <= at,
            edge == left_edge(excluded@, at as int, w as int, k as int),
        decreases excluded@.len() - k,
    {
        let r = excluded[k];
        if r.start < at && r.end <= at && r.end > edge {
            edge = r.end;
        }
        k = k + 1;
    }
    edge
}

fn right_limit(excluded: &[ByteRange], at: usize, w: usize) -> (r: usize)
    requires
        at <= w,
    ensures
        r == right_edge(excluded@, at as int, w as int, excluded@.len() as int),
        at <= r <= w,
{
    let mut edge: usize = w;
    let mut k: usize = 0;
    while k < excluded.len()
        invariant
            k <= excluded@.len(),
            at <= edge <= w,
            edge == right_edge(excluded@, at as int, w as int, k as int),
        decreases excluded@.len() - k,
    {
        let r = excluded[k];
        if r.start >= at && r.start < edge {
            edge = r.start;
        }
        k = k + 1;
    }
    edge
}

/// Narrows the window `a..b` around the match `s..e` so that it does not reach
/// into the excluded ranges before and behind the match.
pub fn clamp_at_excluded(
    text: &Text<'_>,
    a: usize,
    b: usize,
    s: usize,
    e: usize,
    excluded: &[ByteRange],
) -> (r: (usize, usize))
    requires
        text.wf(),
        a <= s <= e <= b <= text@.len(),
    ensures
        r.0 == clamped_start(text@, excluded@, a as int, s as int),
        r.1 == clamped_end(text@, excluded@, b as int, e as int),
        a <= r.0 <= s,
        e <= r.1 <= b,
{
    proof {
        lemma_byte_pos_monotone(text@, a as int, s as int);
        lemma_byte_pos_monotone(text@, e as int, b as int);
    }
    let lo: usize = left_limit(excluded, text.byte(s), text.byte(a));
    let hi: usize = right_limit(excluded, text.byte(e), text.byte(b));
    proof {
        lemma_ceil_bounds(text@, lo as int, a as int, s as int);
        lemma_floor_bounds(text@, hi as int, e as int, b as int);
    }
    (text.ceil(lo), text.floor(hi))
}

/// The window around the match `s..e` in which its clues count.
pub open spec fn context_span(t: Seq<char>, ex: Seq<ByteRange>, s: int, e: int) -> (int, int) {
    (
        clamped_start(t, ex, window_start(t, s, CONTEXT_WINDOW_CHARS as nat), s),
        clamped_end(t, ex, window_end(t, e, CONTEXT_WINDOW_CHARS as nat), e),
    )
}

/// The window around a match in which its clues count: it stops at blank lines
/// and at excluded ranges.
pub fn context_window(text: &Text<'_>, s: usize, e: usize, excluded: &[ByteRange]) -> (r: (
    usize,
    usize,
))
    requires
        text.wf(),
        s <= e <= text@.len(),
    ensures
        r.0 == context_span(text@, excluded@, s as int, e as int).0,
        r.1 == context_span(text@, excluded@, s as int, e as int).1,
        r.0 <= s,
        e <= r.1 <= text@.len(),
{
    let a: usize = back(text, s, CONTEXT_WINDOW_CHARS);
    let b: usize = ahead(text, e, CONTEXT_WINDOW_CHARS);
    clamp_at_excluded(text, a, b, s, e, excluded)
}

/// End of the window behind a match that ends at `e`.
pub open spec fn after_span(t: Seq<char>, ex: Seq<ByteRange>, e: int) -> int {
    clamped_end(t, ex, window_end(t, e, POSITIONAL_WINDOW_CHARS as nat), e)
}

/// Start of the window before a match that begins at `s`.
pub open spec fn before_span(t: Seq<char>, ex: Seq<ByteRange>, s: int) -> int {
    clamped_start(t, ex, window_start(t, s, POSITIONAL_WINDOW_CHARS as nat), s)
}

/// End of the window behind a match.
pub fn positional_bounds_after(text: &Text<'_>, e: usize, excluded: &[ByteRange]) -> (r: usize)
    requires
        text.wf(),
        e <= text@.len(),
    ensures
        r == after_span(text@, excluded@, e as int),
        e <= r <= text@.len(),
{
    let b: usize = ahead(text, e, POSITIONAL_WINDOW_CHARS);
    clamp_at_excluded(text, e, b, e, e, excluded).1
}

/// Start of the window before a match.
pub fn positional_bounds_before(text: &Text<'_>, s: usize, excluded: &[ByteRange]) -> (r: usize)
    requires
        text.wf(),
        s <= text@.len(),
    ensures
        r == before_span(text@, excluded@, s as int),
        r <= s,
{
    let a: usize = back(text, s, POSITIONAL_WINDOW_CHARS);
    clamp_at_excluded(text, a, s, s, s, excluded).0
}

/// The window around the match `s..e`, whatever lies in it.
pub open spec fn surroundings(t: Seq<char>, s: int, e: int) -> (int, int) {
    (
        if s > CONTEXT_WINDOW_CHARS {
            s - CONTEXT_WINDOW_CHARS
        } else {
            0
        },
        if e + CONTEXT_WINDOW_CHARS < t.len() {
            e + CONTEXT_WINDOW_CHARS
        } else {
            t.len() as int
        },
    )
}

fn surrounding_span(text: &Text<'_>, s: usize, e: usize) -> (r: (usize, usize))
    requires
        text.wf(),
        s <= e <= text@.len(),
    ensures
        r.0 == surroundings(text@, s as int, e as int).0,
        r.1 == surroundings(text@, s as int, e as int).1,
        r.0 <= s,
        e <= r.1 <= text@.len(),
{
    let n: usize = text.len();
    let a: usize = if s > CONTEXT_WINDOW_CHARS {
        s - CONTEXT_WINDOW_CHARS
    } else {
        0
    };
    let b: usize = if n - e > CONTEXT_WINDOW_CHARS {
        e + CONTEXT_WINDOW_CHARS
    } else {
        n
    };
    (a, b)
}

/// The text of the match and of the characters around it.
pub fn surrounding_window(text: &Text<'_>, s: usize, e: usize) -> (r: String)
    requires
        text.wf(),
        s <= e <= text@.len(),
    ensures
        r@ == text@.subrange(
            surroundings(text@, s as int, e as int).0,
            surroundings(text@, s as int, e as int).1,
        ),
{
    let (a, b) = surrounding_span(text, s, e);
    text.slice(a, b)
}

/// The text of the match and of the characters around it, up to the excluded
/// ranges before and behind it.
pub fn surrounding_window_bounded(text: &Text<'_>, s: usize, e: usize, excluded: &[ByteRange]) -> (r:
    String)
    requires
        text.wf(),
        s <= e <= text@.len(),
    ensures
        r@ == text@.subrange(
            clamped_start(
                text@,
                excluded@,
                surroundings(text@, s as int, e as int).0,
                s as int,
            ),
            clamped_end(text@, excluded@, surroundings(text@, s as int, e as int).1, e as int),
        ),
{
    let (a, b) = surrounding_span(text, s, e);
    let (lo, hi) = clamp_at_excluded(text, a, b, s, e, excluded);
    text.slice(lo, hi)
}

proof fn lemma_window_start(t: Seq<char>, p: int, n: nat)
    requires
        0 <= p <= t.len(),
    ensures
        0 <= window_start(t, p, n) <= p,
        p - window_start(t, p, n) <= n,
        forall|q: int| window_start(t, p, n) < q <= p ==> !#[trigger] break_ends_at(t, q),
    decreases n,
{
    if n > 0 && p > 0 && !break_ends_at(t, p) {
        lemma_window_start(t, p - 1, (n - 1) as nat);
    }
}

proof fn lemma_window_end(t: Seq<char>, p: int, n: nat)
    requires
        0 <= p <= t.len(),
    ensures
        p <= window_end(t, p, n) <= t.len(),
        window_end(t, p, n) - p <= n,
        forall|q: int| p <= q < window_end(t, p, n) ==> (#[trigger] blank_line_end(t, q)) is None,
    decreases n,
{
    if n > 0 && p < t.len() && blank_line_end(t, p) is None {
        lemma_window_end(t, p + 1, (n - 1) as nat);
    }
}

proof fn lemma_left_edge(ex: Seq<ByteRange>, at: int, w: int, n: int)
    requires
        0 <= n <= ex.len(),
        w <= at,
    ensures
        w <= left_edge(ex, at, w, n) <= at,
        forall|k: int|
            0 <= k < n && (#[trigger] ex[k]).start < at && ex[k].end <= at ==> ex[k].end
                <= left_edge(ex, at, w, n),
    decreases n,
{
    if n > 0 {
        lemma_left_edge(ex, at, w, n - 1);
    }
}

proof fn lemma_right_edge(ex: Seq<ByteRange>, at: int, w: int, n: int)
    requires
        0 <= n <= ex.len(),
        at <= w,
    ensures
        at <= right_edge(ex, at, w, n) <= w,
        forall|k: int|
            0 <= k < n && (#[trigger] ex[k]).start >= at ==> ex[k].start >= right_edge(
                ex,
                at,
                w,
                n,
            ),
    decreases n,
{
    if n > 0 {
        lemma_right_edge(ex, at, w, n - 1);
    }
}

/// The window around a match reaches at most forty characters to either side,
/// and neither across a blank line nor into an excluded range before or behind
/// the match.
pub proof fn law_window_stops(t: Seq<char>, ex: Seq<ByteRange>, s: int, e: int)
    requires
        0 <= s <= e <= t.len(),
    ensures
        ({
            let (a, b) = context_span(t, ex, s, e);
            &&& 0 <= a <= s <= e <= b <= t.len()
            &&& s - a <= CONTEXT_WINDOW_CHARS
            &&& b - e <= CONTEXT_WINDOW_CHARS
            &&& forall|q: int| a < q <= s ==> !#[trigger] break_ends_at(t, q)
            &&& forall|q: int| e <= q < b ==> (#[trigger] blank_line_end(t, q)) is None
            &&& forall|k: int|
                0 <= k < ex.len() && ex[k].start < byte_pos(t, s) && ex[k].end <= byte_pos(t, s)
                    ==> !#[trigger] overlaps(ex[k], byte_pos(t, a), byte_pos(t, s))
            &&& forall|k: int|
                0 <= k < ex.len() && ex[k].start >= byte_pos(t, e) ==> !#[trigger] overlaps(
                    ex[k],
                    byte_pos(t, e),
                    byte_pos(t, b),
                )
        }),
{
    let w = window_start(t, s, CONTEXT_WINDOW_CHARS as nat);
    let v = window_end(t, e, CONTEXT_WINDOW_CHARS as nat);
    lemma_window_start(t, s, CONTEXT_WINDOW_CHARS as nat);
    lemma_window_end(t, e, CONTEXT_WINDOW_CHARS as nat);
    lemma_byte_pos_monotone(t, w, s);
    lemma_byte_pos_monotone(t, e, v);
    let n = ex.len() as int;
    lemma_left_edge(ex, byte_pos(t, s), byte_pos(t, w), n);
    lemma_right_edge(ex, byte_pos(t, e), byte_pos(t, v), n);
    lemma_ceil_bounds(t, left_edge(ex, byte_pos(t, s), byte_pos(t, w), n), w, s);
    lemma_floor_bounds(t, right_edge(ex, byte_pos(t, e), byte_pos(t, v), n), e, v);
    let (a, b) = context_span(t, ex, s, e);
    assert forall|k: int|
        0 <= k < ex.len() && ex[k].start < byte_pos(t, s) && ex[k].end <= byte_pos(
            t,
            s,
        ) implies !#[trigger] overlaps(ex[k], byte_pos(t, a), byte_pos(t, s)) by {
        assert(ex[k].end <= left_edge(ex, byte_pos(t, s), byte_pos(t, w), n));
    }
    assert forall|k: int|
        0 <= k < ex.len() && ex[k].start >= byte_pos(t, e) implies !#[trigger] overlaps(
        ex[k],
        byte_pos(t, e),
        byte_pos(t, b),
    ) by {
        assert(ex[k].start >= right_edge(ex, byte_pos(t, e), byte_pos(t, v), n));
    }
}

/// Where a walk back stops: at the beginning, after `n` characters, or right
/// behind two line ends.
proof fn lemma_back_stops(t: Seq<char>, p: int, n: nat)
    requires
        0 <= p <= t.len(),
    ensures
        ({
            let a = window_start(t, p, n);
            &&& 0 <= a <= p
            &&& p - a <= n
            &&& a == 0 || p - a == n || (a >= 2 && t[a - 1] == '\n' && t[a - 2] == '\n') || (a >= 3
                && t[a - 1] == '\n' && t[a - 2] == '\r' && t[a - 3] == '\n')
            &&& forall|q: int|
                a <= q && q + 1 < p ==> !(#[trigger] t[q] == '\n' && t[q + 1] == '\n')
            &&& forall|q: int|
                a <= q && q + 2 < p ==> !(#[trigger] t[q] == '\n' && t[q + 1] == '\r' && t[q + 2]
                    == '\n')
            &&& a < p ==> !(p >= 2 && t[p - 1] == '\n' && t[p - 2] == '\n') && !(p >= 3 && t[p - 1]
                == '\n' && t[p - 2] == '\r' && t[p - 3] == '\n')
        }),
    decreases n,
{
    let a = window_start(t, p, n);
    if n > 0 && p > 0 && !break_ends_at(t, p) {
        lemma_back_stops(t, p - 1, (n - 1) as nat);
        assert forall|q: int| a <= q && q + 1 < p implies !(#[trigger] t[q] == '\n' && t[q + 1]
            == '\n') by {
            if q + 2 == p {
                assert(t[p - 2] == t[q]);
            }
        }
        assert forall|q: int| a <= q && q + 2 < p implies !(#[trigger] t[q] == '\n' && t[q + 1]
            == '\r' && t[q + 2] == '\n') by {
            if q + 3 == p {
                assert(t[p - 3] == t[q]);
            }
        }
    }
}

/// Where a walk on stops: at the end, after `n` characters, or right before two
/// line ends.
proof fn lemma_ahead_stops(t: Seq<char>, p: int, n: nat)
    requires
        0 <= p <= t.len(),
    ensures
        ({
            let b = window_end(t, p, n);
            &&& p <= b <= t.len()
            &&& b - p <= n
            &&& b == t.len() || b - p == n || (b + 1 < t.len() && t[b] == '\n' && t[b + 1] == '\n')
                || (b + 2 < t.len() && t[b] == '\n' && t[b + 1] == '\r' && t[b + 2] == '\n')
            &&& forall|q: int|
                p <= q < b && q + 1 < t.len() ==> !(#[trigger] t[q] == '\n' && t[q + 1] == '\n')
            &&& forall|q: int|
                p <= q < b && q + 2 < t.len() ==> !(#[trigger] t[q] == '\n' && t[q + 1] == '\r'
                    && t[q + 2] == '\n')
        }),
    decreases n,
{
    if n > 0 && p < t.len() && blank_line_end(t, p) is None {
        lemma_ahead_stops(t, p + 1, (n - 1) as nat);
    }
}

/// The `left` edge is `w`, or the end of a range that lies before `at`.
proof fn lemma_left_edge_reason(ex: Seq<ByteRange>, at: int, w: int, n: int)
    requires
        0 <= n <= ex.len(),
    ensures
        left_edge(ex, at, w, n) == w || exists|k: int|
            0 <= k < n && (#[trigger] ex[k]).start < at && ex[k].end <= at && ex[k].end == left_edge(
                ex,
                at,
                w,
                n,
            ),
    decreases n,
{
    if n > 0 {
        lemma_left_edge_reason(ex, at, w, n - 1);
        assert(ex[n - 1].start < at || true);
    }
}

proof fn lemma_right_edge_reason(ex: Seq<ByteRange>, at: int, w: int, n: int)
    requires
        0 <= n <= ex.len(),
    ensures
        right_edge(ex, at, w, n) == w || exists|k: int|
            0 <= k < n && (#[trigger] ex[k]).start >= at && ex[k].start == right_edge(
                ex,
                at,
                w,
                n,
            ),
    decreases n,
{
    if n > 0 {
        lemma_right_edge_reason(ex, at, w, n - 1);
        assert(ex[n - 1].start >= at || true);
    }
}

/// The part of a window of `n` characters before a match at `s`.
proof fn lemma_before_window(t: Seq<char>, ex: Seq<ByteRange>, s: int, n: nat)
    requires
        0 <= s <= t.len(),
    ensures
        ({
            let a = clamped_start(t, ex, window_start(t, s, n), s);
            &&& 0 <= a <= s
            &&& s - a <= n
            &&& {
                ||| a == 0
                ||| s - a == n
                ||| a >= 2 && t[a - 1] == '\n' && t[a - 2] == '\n'
                ||| a >= 3 && t[a - 1] == '\n' && t[a - 2] == '\r' && t[a - 3] == '\n'
                ||| exists|k: int|
                    0 <= k < ex.len() && (#[trigger] ex[k]).start < byte_pos(t, s) && byte_pos(
                        t,
                        a - 1,
                    ) < ex[k].end <= byte_pos(t, a)
            }
            &&& forall|q: int|
                a <= q && q + 1 < s ==> !(#[trigger] t[q] == '\n' && t[q + 1] == '\n')
            &&& forall|q: int|
                a <= q && q + 2 < s ==> !(#[trigger] t[q] == '\n' && t[q + 1] == '\r' && t[q + 2]
                    == '\n')
            &&& forall|k: int|
                0 <= k < ex.len() && (#[trigger] ex[k]).start < byte_pos(t, s) && ex[k].end
                    <= byte_pos(t, s) ==> ex[k].end <= byte_pos(t, a)
        }),
{
    let w = window_start(t, s, n);
    let m = ex.len() as int;
    lemma_back_stops(t, s, n);
    lemma_byte_pos_monotone(t, w, s);
    let edge = left_edge(ex, byte_pos(t, s), byte_pos(t, w), m);
    lemma_left_edge(ex, byte_pos(t, s), byte_pos(t, w), m);
    lemma_left_edge_reason(ex, byte_pos(t, s), byte_pos(t, w), m);
    lemma_ceil_bounds(t, edge, w, s);
    let a = ceil_pos(t, edge);
    if a > 0 && edge != byte_pos(t, w) {
        let k = choose|k: int|
            0 <= k < m && (#[trigger] ex[k]).start < byte_pos(t, s) && ex[k].end <= byte_pos(t, s)
                && ex[k].end == edge;
        assert(byte_pos(t, a - 1) < ex[k].end <= byte_pos(t, a));
    } else if edge == byte_pos(t, w) {
        lemma_ceil_bounds(t, edge, w, w);
    }
}

/// The part of a window of `n` characters behind a match that ends at `e`.
proof fn lemma_behind_window(t: Seq<char>, ex: Seq<ByteRange>, e: int, n: nat)
    requires
        0 <= e <= t.len(),
    ensures
        ({
            let b = clamped_end(t, ex, window_end(t, e, n), e);
            &&& e <= b <= t.len()
            &&& b - e <= n
            &&& {
                ||| b == t.len()
                ||| b - e == n
                ||| b + 1 < t.len() && t[b] == '\n' && t[b + 1] == '\n'
                ||| b + 2 < t.len() && t[b] == '\n' && t[b + 1] == '\r' && t[b + 2] == '\n'
                ||| exists|k: int|
                    0 <= k < ex.len() && byte_pos(t, e) <= (#[trigger] ex[k]).start && byte_pos(
                        t,
                        b,
                    ) <= ex[k].start < byte_pos(t, b + 1)
            }
            &&& forall|q: int|
                e <= q < b && q + 1 < t.len() ==> !(#[trigger] t[q] == '\n' && t[q + 1] == '\n')
            &&& forall|q: int|
                e <= q < b && q + 2 < t.len() ==> !(#[trigger] t[q] == '\n' && t[q + 1] == '\r'
                    && t[q + 2] == '\n')
            &&& forall|k: int|
                0 <= k < ex.len() && (#[trigger] ex[k]).start >= byte_pos(t, e) ==> ex[k].start
                    >= byte_pos(t, b)
        }),
{
    let v = window_end(t, e, n);
    let m = ex.len() as int;
    lemma_ahead_stops(t, e, n);
    lemma_byte_pos_monotone(t, e, v);
    let edge = right_edge(ex, byte_pos(t, e), byte_pos(t, v), m);
    lemma_right_edge(ex, byte_pos(t, e), byte_pos(t, v), m);
    lemma_right_edge_reason(ex, byte_pos(t, e), byte_pos(t, v), m);
    lemma_floor_bounds(t, edge, e, v);
    let b = floor_pos(t, edge);
    if b < t.len() && edge != byte_pos(t, v) {
        let k = choose|k: int|
            0 <= k < m && (#[trigger] ex[k]).start >= byte_pos(t, e) && ex[k].start == edge;
        assert(byte_pos(t, b) <= ex[k].start < byte_pos(t, b + 1));
    } else if edge == byte_pos(t, v) {
        lemma_floor_bounds(t, edge, v, v);
    }
}

/// The window before a match is as wide as it may be: it begins at the
/// beginning of the text, forty characters back, right behind two line ends, or
/// right behind an excluded range; and no two line ends lie in it, nor an
/// excluded range.
pub proof fn law_window_before_a_match(t: Seq<char>, ex: Seq<ByteRange>, s: int, e: int)
    requires
        0 <= s <= e <= t.len(),
    ensures
        ({
            let a = context_span(t, ex, s, e).0;
            &&& 0 <= a <= s
            &&& s - a <= 40
            &&& {
                ||| a == 0
                ||| s - a == 40
                ||| a >= 2 && t[a - 1] == '\n' && t[a - 2] == '\n'
                ||| a >= 3 && t[a - 1] == '\n' && t[a - 2] == '\r' && t[a - 3] == '\n'
                ||| exists|k: int|
                    0 <= k < ex.len() && (#[trigger] ex[k]).start < byte_pos(t, s) && byte_pos(
                        t,
                        a - 1,
                    ) < ex[k].end <= byte_pos(t, a)
            }
            &&& forall|q: int|
                a <= q && q + 1 < s ==> !(#[trigger] t[q] == '\n' && t[q + 1] == '\n')
            &&& forall|q: int|
                a <= q && q + 2 < s ==> !(#[trigger] t[q] == '\n' && t[q + 1] == '\r' && t[q + 2]
                    == '\n')
            &&& forall|k: int|
                0 <= k < ex.len() && (#[trigger] ex[k]).start < byte_pos(t, s) && ex[k].end
                    <= byte_pos(t, s) ==> ex[k].end <= byte_pos(t, a)
        }),
{
    lemma_before_window(t, ex, s, CONTEXT_WINDOW_CHARS as nat);
}

/// The window behind a match is as wide as it may be: it ends at the end of the
/// text, forty characters on, right before two line ends, or right before an
/// excluded range; and it holds neither.
pub proof fn law_window_behind_a_match(t: Seq<char>, ex: Seq<ByteRange>, s: int, e: int)
    requires
        0 <= s <= e <= t.len(),
    ensures
        ({
            let b = context_span(t, ex, s, e).1;
            &&& e <= b <= t.len()
            &&& b - e <= 40
            &&& {
                ||| b == t.len()
                ||| b - e == 40
                ||| b + 1 < t.len() && t[b] == '\n' && t[b + 1] == '\n'
                ||| b + 2 < t.len() && t[b] == '\n' && t[b + 1] == '\r' && t[b + 2] == '\n'
                ||| exists|k: int|
                    0 <= k < ex.len() && byte_pos(t, e) <= (#[trigger] ex[k]).start && byte_pos(
                        t,
                        b,
                    ) <= ex[k].start < byte_pos(t, b + 1)
            }
            &&& forall|q: int|
                e <= q < b && q + 1 < t.len() ==> !(#[trigger] t[q] == '\n' && t[q + 1] == '\n')
            &&& forall|q: int|
                e <= q < b && q + 2 < t.len() ==> !(#[trigger] t[q] == '\n' && t[q + 1] == '\r'
                    && t[q + 2] == '\n')
            &&& forall|k: int|
                0 <= k < ex.len() && (#[trigger] ex[k]).start >= byte_pos(t, e) ==> ex[k].start
                    >= byte_pos(t, b)
        }),
{
    lemma_behind_window(t, ex, e, CONTEXT_WINDOW_CHARS as nat);
}

/// A line that ends does not end the window: where nothing is excluded and no
/// two line ends follow each other near a match, the window holds the forty
/// characters on either side, or as many as there are.
pub proof fn law_single_line_ends_do_not_narrow_the_window(t: Seq<char>, s: int, e: int)
    requires
        0 <= s <= e <= t.len(),
        forall|q: int|
            0 <= q && s - 43 <= q < e + 40 && q + 1 < t.len() && #[trigger] t[q] == '\n' ==> t[q + 1]
                != '\n' && t[q + 1] != '\r',
    ensures
        context_span(t, Seq::empty(), s, e).0 == (if s < 40 {
            0
        } else {
            s - 40
        }),
        context_span(t, Seq::empty(), s, e).1 == (if e + 40 > t.len() {
            t.len() as int
        } else {
            e + 40
        }),
{
    let ex = Seq::<ByteRange>::empty();
    law_window_before_a_match(t, ex, s, e);
    law_window_behind_a_match(t, ex, s, e);
    let a = context_span(t, ex, s, e).0;
    let b = context_span(t, ex, s, e).1;
    if a >= 2 && t[a - 1] == '\n' && s - a < 40 {
        assert(t[a - 2] != '\n');
        if a >= 3 {
            assert(t[a - 3] != '\n' || t[a - 2] != '\r');
        }
    }
    if b + 1 < t.len() && b - e < 40 {
        assert(t[b] != '\n' || (t[b + 1] != '\n' && t[b + 1] != '\r'));
    }
}

/// The windows in which clues that are tied to one side count reach twenty
/// characters, and stop where the window around a match does.
pub proof fn law_positional_windows(t: Seq<char>, ex: Seq<ByteRange>, s: int, e: int)
    requires
        0 <= s <= e <= t.len(),
    ensures
        ({
            let a = before_span(t, ex, s);
            &&& 0 <= a <= s
            &&& s - a <= 20
            &&& {
                ||| a == 0
                ||| s - a == 20
                ||| a >= 2 && t[a - 1] == '\n' && t[a - 2] == '\n'
                ||| a >= 3 && t[a - 1] == '\n' && t[a - 2] == '\r' && t[a - 3] == '\n'
                ||| exists|k: int|
                    0 <= k < ex.len() && (#[trigger] ex[k]).start < byte_pos(t, s) && byte_pos(
                        t,
                        a - 1,
                    ) < ex[k].end <= byte_pos(t, a)
            }
            &&& forall|q: int|
                a <= q && q + 1 < s ==> !(#[trigger] t[q] == '\n' && t[q + 1] == '\n')
            &&& forall|k: int|
                0 <= k < ex.len() && (#[trigger] ex[k]).start < byte_pos(t, s) && ex[k].end
                    <= byte_pos(t, s) ==> ex[k].end <= byte_pos(t, a)
        }),
        ({
            let b = after_span(t, ex, e);
            &&& e <= b <= t.len()
            &&& b - e <= 20
            &&& {
                ||| b == t.len()
                ||| b - e == 20
                ||| b + 1 < t.len() && t[b] == '\n' && t[b + 1] == '\n'
                ||| b + 2 < t.len() && t[b] == '\n' && t[b + 1] == '\r' && t[b + 2] == '\n'
                ||| exists|k: int|
                    0 <= k < ex.len() && byte_pos(t, e) <= (#[trigger] ex[k]).start && byte_pos(
                        t,
                        b,
                    ) <= ex[k].start < byte_pos(t, b + 1)
            }
            &&& forall|q: int|
                e <= q < b && q + 1 < t.len() ==> !(#[trigger] t[q] == '\n' && t[q + 1] == '\n')
            &&& forall|k: int|
                0 <= k < ex.len() && (#[trigger] ex[k]).start >= byte_pos(t, e) ==> ex[k].start
                    >= byte_pos(t, b)
        }),
{
    lemma_before_window(t, ex, s, POSITIONAL_WINDOW_CHARS as nat);
    lemma_behind_window(t, ex, e, POSITIONAL_WINDOW_CHARS as nat);
}

/// The text around a match is the forty characters on either side, or as many
/// as there are.
pub proof fn law_surroundings(t: Seq<char>, s: int, e: int)
    requires
        0 <= s <= e <= t.len(),
    ensures
        surroundings(t, s, e).0 == s - 40 || (s < 40 && surroundings(t, s, e).0 == 0),
        surroundings(t, s, e).1 == e + 40 || (e + 40 > t.len() && surroundings(t, s, e).1
            == t.len()),
{
}

} // verus!
