//! Which script a document is written in, and where its lines begin.
use vstd::prelude::*;

use crate::chars::{is_whitespace, whitespace};
use crate::rules::ChineseType;
use crate::text::{byte_pos, count_where, listed, Text};

verus! {

pub open spec fn one_of(t: Seq<char>, list: Seq<char>) -> spec_fn(int) -> bool {
    |i: int| list.contains(t[i])
}

/// A character of the second list that is not on the first.
pub open spec fn only_second(t: Seq<char>, first: Seq<char>, second: Seq<char>) -> spec_fn(
    int,
) -> bool {
    |i: int| !first.contains(t[i]) && second.contains(t[i])
}

pub open spec fn blank(t: Seq<char>) -> bool {
    forall|i: int| 0 <= i < t.len() ==> whitespace(#[trigger] t[i])
}

/// The script of which more characters stand in the text.
pub open spec fn chinese_type(
    t: Seq<char>,
    simplified: Seq<char>,
    traditional: Seq<char>,
) -> ChineseType {
    let n = t.len() as int;
    let s = count_where(0, n, one_of(t, simplified));
    let d = count_where(0, n, only_second(t, simplified, traditional));
    if blank(t) || s == d {
        ChineseType::Unknown
    } else if s > d {
        ChineseType::Simplified
    } else {
        ChineseType::Traditional
    }
}

/// Byte offsets at which the lines of the first `n` characters begin.
pub open spec fn line_starts(t: Seq<char>, n: int) -> Seq<int>
    decreases n,
{
    if n <= 0 {
        seq![0]
    } else if t[n - 1] == '\n' {
        line_starts(t, n - 1).push(byte_pos(t, n))
    } else {
        line_starts(t, n - 1)
    }
}

/// The script of the text, by the characters that only one script has, and the
/// offsets at which its lines begin.
pub fn detect_type_and_lines(text: &Text<'_>, simplified: &[char], traditional: &[char]) -> (r: (
    ChineseType,
    Vec<usize>,
))
    requires
        text.wf(),
    ensures
        r.0 == chinese_type(text@, simplified@, traditional@),
        r.1@.map_values(|x: usize| x as int) == line_starts(text@, text@.len() as int),
{
    let ghost t = text@;
    let n: usize = text.len();
    let mut starts: Vec<usize> = Vec::new();
    starts.push(0);
    let mut s: usize = 0;
    let mut d: usize = 0;
    let mut all_blank: bool = true;
    let mut i: usize = 0;
    assert(starts@.map_values(|x: usize| x as int) =~= line_starts(t, 0));
    while i < n
        invariant
            text.wf(),
            t == text@,
            n == t.len(),
            i <= n,
            s <= i,
            d <= i,
            s == count_where(0, i as int, one_of(t, simplified@)),
            d == count_where(0, i as int, only_second(t, simplified@, traditional@)),
            all_blank == (forall|k: int| 0 <= k < i ==> whitespace(#[trigger] t[k])),
            starts@.map_values(|x: usize| x as int) == line_starts(t, i as int),
        decreases n - i,
    {
        let c = text.ch(i);
        let ghost before = starts@;
        if !is_whitespace(c) {
            all_blank = false;
        }
        if c == '\n' {
            starts.push(text.byte(i + 1));
            assert(starts@.map_values(|x: usize| x as int) =~= before.map_values(
                |x: usize| x as int,
            ).push(byte_pos(t, i + 1)));
        }
        if listed(simplified, c) {
            s = s + 1;
        } else if listed(traditional, c) {
            d = d + 1;
        }
        i = i + 1;
    }
    let script = if all_blank || s == d {
        ChineseType::Unknown
    } else if s > d {
        ChineseType::Simplified
    } else {
        ChineseType::Traditional
    };
    (script, starts)
}

} // verus!
