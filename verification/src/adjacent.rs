//! Whether CJK text stands beside a position.
use vstd::prelude::*;

use crate::chars::{cjk_context, is_cjk_context};
use crate::lines::{before_white, past_white, skip_white, trim_white_end};
use crate::text::Text;

verus! {

/// Before position `i`, with at most `most` white-space characters between,
/// stands a CJK character or mark.
pub open spec fn cjk_before(t: Seq<char>, i: int, most: int) -> bool {
    let e = trim_white_end(t, 0, i);
    e > 0 && i - e <= most && cjk_context(t[e - 1])
}

/// From position `i` on, with at most `most` white-space characters between,
/// stands a CJK character or mark.
pub open spec fn cjk_after(t: Seq<char>, i: int, most: int) -> bool {
    let a = skip_white(t, i, t.len() as int);
    a < t.len() && a - i <= most && cjk_context(t[a])
}

/// Whether CJK text stands before position `i`.
pub fn has_cjk_before(text: &Text<'_>, i: usize, most: usize) -> (r: bool)
    requires
        text.wf(),
        i <= text@.len(),
    ensures
        r == cjk_before(text@, i as int, most as int),
{
    let e: usize = before_white(text, 0, i);
    e > 0 && i - e <= most && is_cjk_context(text.ch(e - 1))
}

/// Whether CJK text stands from position `i` on.
pub fn has_cjk_after(text: &Text<'_>, i: usize, most: usize) -> (r: bool)
    requires
        text.wf(),
        i <= text@.len(),
    ensures
        r == cjk_after(text@, i as int, most as int),
{
    let n: usize = text.len();
    let a: usize = past_white(text, i, n);
    a < n && a - i <= most && is_cjk_context(text.ch(a))
}

/// Any amount of white space may stand between.
pub open spec fn beside(t: Seq<char>, from: int, to: int) -> bool {
    cjk_before(t, from, usize::MAX as int) || cjk_after(t, to, usize::MAX as int)
}

/// Nothing may stand between, and CJK text is on both sides.
pub open spec fn enclosed(t: Seq<char>, from: int, to: int) -> bool {
    cjk_before(t, from, 0) && cjk_after(t, to, 0)
}

} // verus!
