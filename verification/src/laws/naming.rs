//! Phrases that a text names rather than uses.
use vstd::prelude::*;

use crate::chars::whitespace;
use crate::issue::IssueModel;
use crate::laws::reading::lemma_count_none;
use crate::laws::structure::one_line;
use crate::lines::skip_white;
use crate::mentions::{
    closes, container_end, deep_at, label_at, last_in_line, line_begin, line_close,
    mention_candidate, mentioned, odd_at, opens, peeled, quoted, straights,
};
use crate::text::{
    byte_pos, count_where, floor_pos, lemma_byte_pos_monotone, lemma_floor_bounds, next_of,
};

verus! {

/// The finding is a phrase of machine style on the characters `p..e`, and shows
/// something that can be seen.
pub open spec fn style_phrase(
    t: Seq<char>,
    invisible: Seq<char>,
    m: IssueModel,
    p: int,
    e: int,
) -> bool {
    &&& 0 <= p < e <= t.len()
    &&& m.offset == byte_pos(t, p)
    &&& m.offset + m.length == byte_pos(t, e)
    &&& m.rule_type is AiStyle
    &&& m.structural_family is None
    &&& m.found == t.subrange(p, e)
    &&& !invisible.contains(t[p])
}

pub proof fn lemma_style_phrase(t: Seq<char>, invisible: Seq<char>, m: IssueModel, p: int, e: int)
    requires
        style_phrase(t, invisible, m, p, e),
    ensures
        mention_candidate(m, invisible),
        floor_pos(t, m.offset) == p,
{
    lemma_byte_pos_monotone(t, p, e);
    lemma_floor_bounds(t, byte_pos(t, p), p, p);
    assert(m.found[0] == t[p]);
}

pub proof fn lemma_line_begin(t: Seq<char>, i: int)
    requires
        0 <= i <= t.len(),
        one_line(t, 0, i),
    ensures
        line_begin(t, i) == 0,
    decreases i,
{
    if i > 0 {
        assert(t[i - 1] != '\n');
        lemma_line_begin(t, i - 1);
    }
}

/// A phrase between 「 and 」 on its line, with no other quotation mark there, is
/// named and not used: its finding goes.
pub proof fn law_quoted_phrases_are_named(
    t: Seq<char>,
    invisible: Seq<char>,
    m: IssueModel,
    a: int,
    p: int,
    e: int,
    b: int,
)
    requires
        style_phrase(t, invisible, m, p, e),
        one_line(t, 0, t.len() as int),
        0 <= a < p,
        e <= b < t.len(),
        t[a] == '「',
        t[b] == '」',
        forall|q: int|
            0 <= q < t.len() && q != a && q != b ==> #[trigger] t[q] != '「' && t[q] != '」' && t[q]
                != '『' && t[q] != '』',
    ensures
        mentioned(t, invisible, m),
{
    lemma_style_phrase(t, invisible, m, p, e);
    lemma_line_begin(t, p);
    let (f, g) = (opens(t), closes(t));
    lemma_count_none(0, p, g);
    lemma_one_counted(t, a, p);
    assert(deep_at(t, p));
    lemma_last_at(t, g, p, b);
    lemma_byte_pos_monotone(t, e, b);
    assert(quoted(t, p, m.offset + m.length));
}

proof fn lemma_one_counted(t: Seq<char>, a: int, p: int)
    requires
        0 <= a < p <= t.len(),
        t[a] == '「',
    ensures
        count_where(0, p, opens(t)) > 0,
    decreases p,
{
    if a < p - 1 {
        lemma_one_counted(t, a, p - 1);
    }
}

pub proof fn lemma_last_at(t: Seq<char>, f: spec_fn(int) -> bool, i: int, b: int)
    requires
        0 <= i <= b < t.len(),
        one_line(t, 0, t.len() as int),
        f(b),
        forall|q: int| b < q < t.len() ==> !#[trigger] f(q),
    ensures
        last_in_line(t, f, i) == Some(b),
    decreases b - i,
{
    assert(t[i] != '\n');
    if i < b {
        lemma_last_at(t, f, i + 1, b);
    } else {
        lemma_last_none(t, f, b + 1);
    }
}

proof fn lemma_last_none(t: Seq<char>, f: spec_fn(int) -> bool, i: int)
    requires
        0 <= i <= t.len(),
        one_line(t, 0, t.len() as int),
        forall|q: int| i <= q < t.len() ==> !#[trigger] f(q),
    ensures
        last_in_line(t, f, i) is None,
    decreases t.len() - i,
{
    if i < t.len() {
        assert(t[i] != '\n');
        assert(!f(i));
        lemma_last_none(t, f, i + 1);
    }
}

/// The line begins with neither white space, a list marker, a quotation marker, a
/// digit nor a label.
pub open spec fn begins_with_prose(t: Seq<char>) -> bool {
    let c = t[0];
    &&& t.len() > 0
    &&& !whitespace(c)
    &&& c != '>' && c != '-' && c != '*' && c != '+' && c != '['
    &&& c != '❌' && c != '✅' && c != '✓' && c != '✗'
    &&& !(0x30 <= c as int <= 0x39)
}

/// A phrase on a line of prose without quotation marks is used: its finding stays.
pub proof fn law_phrases_in_prose_are_used(
    t: Seq<char>,
    invisible: Seq<char>,
    m: IssueModel,
    p: int,
    e: int,
)
    requires
        style_phrase(t, invisible, m, p, e),
        one_line(t, 0, t.len() as int),
        begins_with_prose(t),
        forall|q: int|
            0 <= q < t.len() ==> #[trigger] t[q] != '「' && t[q] != '」' && t[q] != '『' && t[q]
                != '』' && t[q] != '"',
    ensures
        !mentioned(t, invisible, m),
{
    lemma_style_phrase(t, invisible, m, p, e);
    lemma_line_begin(t, p);
    lemma_count_none(0, p, opens(t));
    lemma_count_none(0, p, straights(t));
    assert(!deep_at(t, p));
    assert(!odd_at(t, p));
    let to = line_close(t, 0);
    assert(skip_white(t, 0, to) == 0);
    assert(container_end(t, 0, to) is None);
    assert(peeled(t, 0, to) == 0);
    assert(!label_at(t, 0, to));
}

/// A phrase on a line that is a box to tick in a list is named.
pub proof fn law_boxes_label_a_phrase(
    t: Seq<char>,
    invisible: Seq<char>,
    m: IssueModel,
    p: int,
    e: int,
)
    requires
        style_phrase(t, invisible, m, p, e),
        one_line(t, 0, t.len() as int),
        t.len() > 5,
        t[0] == '-' && t[1] == ' ' && t[2] == '[' && t[4] == ']',
        t[3] == ' ' || t[3] == 'x' || t[3] == 'X',
    ensures
        mentioned(t, invisible, m),
{
    lemma_style_phrase(t, invisible, m, p, e);
    lemma_line_begin(t, p);
    let n = t.len() as int;
    lemma_no_feed(t, 0);
    assert(line_close(t, 0) == n);
    assert(skip_white(t, 0, n) == 0);
    assert(container_end(t, 0, n) == Some(2int));
    assert(skip_white(t, 2, n) == 2);
    assert(container_end(t, 2, n) is None);
    assert(peeled(t, 2, n) == 2);
    assert(peeled(t, 0, n) == 2);
    assert(label_at(t, 2, n));
}

proof fn lemma_no_feed(t: Seq<char>, i: int)
    requires
        0 <= i <= t.len(),
        one_line(t, 0, t.len() as int),
    ensures
        next_of(t, seq!['\n'], i, t.len() as int) == t.len(),
    decreases t.len() - i,
{
    if i < t.len() {
        assert(t[i] != '\n');
        assert(!seq!['\n'].contains(t[i])) by {
            if seq!['\n'].contains(t[i]) {
                let k = choose|k: int| 0 <= k < 1 && seq!['\n'][k] == t[i];
                assert(k == 0);
            }
        }
        lemma_no_feed(t, i + 1);
    }
}

} // verus!
