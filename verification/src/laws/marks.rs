//! Marks of ranges and lists, and brackets: where they are reported, and as what.
use vstd::prelude::*;

use crate::adjacent::{cjk_after, cjk_before};
use crate::bounds::blank_line_end;
use crate::brackets::{
    begins, bracket_at, brackets_settled, break_between, group_end, group_start, opened, opens,
    quotes_among, bracket_of, close_findings, closes_bracket, closing_findings, depth_at,
    hierarchy_rule, matches_last, open_brackets, opens_bracket, unclosed_rule,
};
use crate::chars::{cjk_ideograph, whitespace};
use crate::emit::ByteRange;
use crate::issue::IssueModel;
use crate::laws::reading::{lemma_untouched, untouched};
use crate::lines::{lemma_skip_white, lemma_trim_white_end, skip_white, trim_white_end, trimmed};
use crate::marks::{commas, dunhao_rule, listed_item, range_rule, short_item};
use crate::punctuation::{before_blanks, opens_line};
use crate::quotes::{depth_after, direction_usable, still_open};
use crate::text::{byte_pos, lemma_floor_bounds};
use crate::walk::{each, lemma_each_holds, lemma_each_source, suggested};

verus! {

proof fn lemma_entry_suggested(
    n: int,
    f: spec_fn(int) -> Seq<IssueModel>,
    k: int,
    from: int,
    to: int,
    x: Seq<char>,
)
    requires
        0 <= k < n,
        f(k).len() >= 1,
        f(k)[0].offset == from,
        f(k)[0].offset + f(k)[0].length == to,
        f(k)[0].suggestions == seq![x],
    ensures
        suggested(each(n, f), from, to, seq![x]),
{
    let j = lemma_each_holds(n, f, k, 0);
    assert(each(n, f)[j] == f(k)[0]);
}

/// A tilde or a single hyphen directly between CJK ideographs stands for a range:
/// the full-width tilde is suggested, or the en dash where the profile asks for
/// that.
pub proof fn law_range_marks_between_chinese_are_reported(
    t: Seq<char>,
    ex: Seq<ByteRange>,
    en_dash: bool,
    i: int,
)
    requires
        0 < i,
        i + 1 < t.len(),
        t[i] == '~' || t[i] == '-',
        cjk_ideograph(t[i - 1]),
        cjk_ideograph(t[i + 1]),
        untouched(t, ex, i, i + 1),
    ensures
        suggested(
            each(t.len() as int, range_rule(t, ex, en_dash)),
            byte_pos(t, i),
            byte_pos(t, i + 1),
            seq![
                if en_dash {
                    seq!['\u{2013}']
                } else {
                    seq!['\u{FF5E}']
                },
            ],
        ),
{
    reveal_strlit("\u{2013}");
    reveal_strlit("\u{FF5E}");
    assert("\u{2013}"@ =~= seq!['\u{2013}']);
    assert("\u{FF5E}"@ =~= seq!['\u{FF5E}']);
    lemma_untouched(t, ex, i, i + 1, i, i + 1);
    assert(trim_white_end(t, 0, i) == i);
    assert(skip_white(t, i + 1, t.len() as int) == i + 1);
    assert(cjk_before(t, i, usize::MAX as int));
    assert(cjk_after(t, i + 1, usize::MAX as int));
    assert(before_blanks(t, i) == i);
    assert(!opens_line(t, i));
    let f = range_rule(t, ex, en_dash);
    assert(f(i).len() == 1);
    lemma_entry_suggested(
        t.len() as int,
        f,
        i,
        byte_pos(t, i),
        byte_pos(t, i + 1),
        if en_dash {
            seq!['\u{2013}']
        } else {
            seq!['\u{FF5E}']
        },
    );
}

/// A tilde before a number that no number stands before is an estimate, a double
/// hyphen is a dash, and a hyphen between Latin letters joins a word: none of
/// them is reported.
pub proof fn law_other_marks_are_no_ranges(
    t: Seq<char>,
    ex: Seq<ByteRange>,
    en_dash: bool,
    i: int,
)
    requires
        0 < i,
        i + 1 < t.len(),
        ({
            let letter = |c: char| 0x41 <= c as int <= 0x5A || 0x61 <= c as int <= 0x7A;
            let digit = |c: char| 0x30 <= c as int <= 0x39;
            ||| t[i] == '~' && digit(t[i + 1]) && !digit(t[i - 1])
            ||| t[i] == '-' && (t[i - 1] == '-' || t[i + 1] == '-')
            ||| (t[i] == '-' || t[i] == '~') && letter(t[i - 1]) && letter(t[i + 1])
            ||| t[i] != '~' && t[i] != '-'
        }),
    ensures
        range_rule(t, ex, en_dash)(i).len() == 0,
{
    if t[i] == '-' || t[i] == '~' {
        lemma_trim_white_end(t, 0, i);
        lemma_skip_white(t, i + 1, t.len() as int);
    }
}

/// Characters that are no full-width commas add none.
proof fn lemma_no_commas(t: Seq<char>, ex: Seq<ByteRange>, a: int, b: int)
    requires
        0 <= a <= b,
        forall|q: int| a <= q < b ==> #[trigger] t[q] != '，',
    ensures
        commas(t, ex, b) == commas(t, ex, a),
    decreases b - a,
{
    if a < b {
        assert(t[b - 1] != '，');
        lemma_no_commas(t, ex, a, b - 1);
    }
}

proof fn lemma_three_commas(t: Seq<char>, ex: Seq<ByteRange>, a: int, b: int, c: int)
    requires
        0 <= a < b < c < t.len(),
        forall|q: int| 0 <= q < t.len() ==> (#[trigger] t[q] == '，') == (q == a || q == b || q == c),
        untouched(t, ex, a, c + 1),
    ensures
        commas(t, ex, t.len() as int) =~= seq![a, b, c],
{
    lemma_untouched(t, ex, a, c + 1, a, a + 1);
    lemma_untouched(t, ex, a, c + 1, b, b + 1);
    lemma_untouched(t, ex, a, c + 1, c, c + 1);
    assert(commas(t, ex, 0) =~= Seq::empty());
    lemma_no_commas(t, ex, 0, a);
    lemma_no_commas(t, ex, a + 1, b);
    lemma_no_commas(t, ex, b + 1, c);
    lemma_no_commas(t, ex, c + 1, t.len() as int);
    assert(commas(t, ex, a + 1) =~= seq![a]);
    assert(commas(t, ex, b + 1) =~= seq![a, b]);
    assert(commas(t, ex, c + 1) =~= seq![a, b, c]);
}

/// Three full-width commas, the only ones of a text, with items of one to four
/// characters between them, divide a list: each is reported, and 、 suggested.
pub proof fn law_commas_of_a_list_are_reported(
    t: Seq<char>,
    ex: Seq<ByteRange>,
    a: int,
    b: int,
    c: int,
)
    requires
        0 <= a,
        a + 2 <= b <= a + 5,
        b + 2 <= c <= b + 5,
        c < t.len(),
        forall|q: int| 0 <= q < t.len() ==> (#[trigger] t[q] == '，') == (q == a || q == b || q == c),
        forall|q: int| a < q < c && q != b ==> !whitespace(#[trigger] t[q]),
        untouched(t, ex, a, c + 1),
    ensures
        ({
            let p = commas(t, ex, t.len() as int);
            let v = each(p.len() as int, dunhao_rule(t, p));
            &&& suggested(v, byte_pos(t, a), byte_pos(t, a + 1), seq![seq!['、']])
            &&& suggested(v, byte_pos(t, b), byte_pos(t, b + 1), seq![seq!['、']])
            &&& suggested(v, byte_pos(t, c), byte_pos(t, c + 1), seq![seq!['、']])
        }),
{
    reveal_strlit("、");
    assert("、"@ =~= seq!['、']);
    lemma_three_commas(t, ex, a, b, c);
    let p = commas(t, ex, t.len() as int);
    assert(p =~= seq![a, b, c]);
    lemma_item(t, a + 1, b);
    lemma_item(t, b + 1, c);
    assert(short_item(t, p, 0));
    assert(short_item(t, p, 1));
    assert(listed_item(t, p, 0) && listed_item(t, p, 1));
    let f = dunhao_rule(t, p);
    lemma_entry_suggested(3, f, 0, byte_pos(t, a), byte_pos(t, a + 1), seq!['、']);
    lemma_entry_suggested(3, f, 1, byte_pos(t, b), byte_pos(t, b + 1), seq!['、']);
    lemma_entry_suggested(3, f, 2, byte_pos(t, c), byte_pos(t, c + 1), seq!['、']);
}

/// Where more than four characters stand between any two of them, commas divide
/// clauses, and none is reported.
pub proof fn law_commas_of_clauses_stay(
    t: Seq<char>,
    ex: Seq<ByteRange>,
    a: int,
    b: int,
    c: int,
)
    requires
        0 <= a,
        a + 5 < b,
        b + 5 < c < t.len(),
        forall|q: int| 0 <= q < t.len() ==> (#[trigger] t[q] == '，') == (q == a || q == b || q == c),
        forall|q: int| a < q < c && q != b ==> !whitespace(#[trigger] t[q]),
        untouched(t, ex, a, c + 1),
    ensures
        ({
            let p = commas(t, ex, t.len() as int);
            each(p.len() as int, dunhao_rule(t, p)).len() == 0
        }),
{
    lemma_three_commas(t, ex, a, b, c);
    let p = commas(t, ex, t.len() as int);
    lemma_item(t, a + 1, b);
    lemma_item(t, b + 1, c);
    let f = dunhao_rule(t, p);
    let v = each(3, f);
    if v.len() > 0 {
        let k = lemma_each_source(3, f, 0);
        assert(!short_item(t, p, 0) && !short_item(t, p, 1));
        assert(f(k).len() == 0);
    }
}

proof fn lemma_item(t: Seq<char>, from: int, to: int)
    requires
        0 <= from < to <= t.len(),
        forall|q: int| from <= q < to ==> !whitespace(#[trigger] t[q]),
    ensures
        trimmed(t, from, to) == (from, to),
{
    assert(!whitespace(t[from]));
    assert(!whitespace(t[to - 1]));
}

/// The open brackets do not change where there is no bracket.
proof fn lemma_no_brackets(t: Seq<char>, ex: Seq<ByteRange>, from: int, a: int, b: int)
    requires
        from <= a <= b,
        forall|q: int|
            a <= q < b ==> #[trigger] t[q] != '「' && t[q] != '」' && t[q] != '『' && t[q] != '』'
                && t[q] != '《' && t[q] != '》',
    ensures
        open_brackets(t, ex, from, b) == open_brackets(t, ex, from, a),
        closing_findings(t, ex, from, b) =~= closing_findings(t, ex, from, a),
    decreases b - a,
{
    if a < b {
        assert(!opens_bracket(t[b - 1]) && !closes_bracket(t[b - 1]));
        lemma_no_brackets(t, ex, from, a, b - 1);
    }
}

/// A pair of corner brackets or of title marks that is alone in its paragraph is
/// in order.
pub proof fn law_a_closed_bracket_is_in_order(
    t: Seq<char>,
    ex: Seq<ByteRange>,
    p: Seq<(int, int)>,
    k: int,
    i: int,
    j: int,
)
    requires
        0 <= k < p.len(),
        0 <= p[k].0 <= i < j < p[k].1 <= t.len(),
        (t[i] == '「' && t[j] == '」') || (t[i] == '《' && t[j] == '》'),
        forall|q: int|
            p[k].0 <= q < p[k].1 && q != i && q != j ==> #[trigger] t[q] != '「' && t[q] != '」'
                && t[q] != '『' && t[q] != '』' && t[q] != '《' && t[q] != '》',
        untouched(t, ex, i, j + 1),
    ensures
        hierarchy_rule(t, ex, p)(k).len() == 0,
{
    let (from, to) = p[k];
    lemma_untouched(t, ex, i, j + 1, i, i + 1);
    lemma_untouched(t, ex, i, j + 1, j, j + 1);
    lemma_no_brackets(t, ex, from, from, i);
    assert(open_brackets(t, ex, from, from) =~= Seq::empty());
    assert(closing_findings(t, ex, from, from) =~= Seq::empty());
    assert(open_brackets(t, ex, from, i + 1) =~= seq![i]);
    assert(closing_findings(t, ex, from, i + 1) =~= Seq::empty());
    lemma_no_brackets(t, ex, from, i + 1, j);
    let open = open_brackets(t, ex, from, j);
    assert(open =~= seq![i]);
    assert(matches_last(t, open, j));
    assert(open_brackets(t, ex, from, j + 1) =~= Seq::empty());
    assert(close_findings(t, open, j) =~= Seq::empty());
    assert(closing_findings(t, ex, from, j + 1) =~= Seq::empty());
    lemma_no_brackets(t, ex, from, j + 1, to);
    assert(open_brackets(t, ex, from, to).len() == 0);
}

/// A bracket that is alone in its paragraph is reported: one that opens is left
/// open, and one that closes has nothing to close.
pub proof fn law_a_lone_bracket_is_reported(
    t: Seq<char>,
    ex: Seq<ByteRange>,
    p: Seq<(int, int)>,
    k: int,
    i: int,
)
    requires
        0 <= k < p.len(),
        0 <= p[k].0 <= i < p[k].1 <= t.len(),
        t[i] == '「' || t[i] == '」' || t[i] == '『' || t[i] == '』' || t[i] == '《' || t[i] == '》',
        forall|q: int|
            p[k].0 <= q < p[k].1 && q != i ==> #[trigger] t[q] != '「' && t[q] != '」' && t[q]
                != '『' && t[q] != '』' && t[q] != '《' && t[q] != '》',
        untouched(t, ex, i, i + 1),
    ensures
        ({
            let v = hierarchy_rule(t, ex, p)(k);
            &&& v.len() == 1
            &&& v[0].offset == byte_pos(t, i)
            &&& v[0].offset + v[0].length == byte_pos(t, i + 1)
        }),
{
    let (from, to) = p[k];
    lemma_untouched(t, ex, i, i + 1, i, i + 1);
    lemma_no_brackets(t, ex, from, from, i);
    assert(open_brackets(t, ex, from, from) =~= Seq::empty());
    assert(closing_findings(t, ex, from, from) =~= Seq::empty());
    lemma_no_brackets(t, ex, from, i + 1, to);
    let open = open_brackets(t, ex, from, to);
    reveal_with_fuel(each, 2);
    if opens_bracket(t[i]) {
        assert(open =~= seq![i]);
        assert(closing_findings(t, ex, from, to) =~= Seq::empty());
        let f = unclosed_rule(t, open);
        assert(each(1, f) =~= f(0));
    } else {
        assert(open =~= Seq::empty());
        assert(closing_findings(t, ex, from, to) =~= close_findings(t, Seq::empty(), i));
        assert(each(0, unclosed_rule(t, open)) =~= Seq::empty());
    }
}

/// 『』 outside 「」 is reported on its closing half.
pub proof fn law_inner_brackets_belong_inside(
    t: Seq<char>,
    ex: Seq<ByteRange>,
    p: Seq<(int, int)>,
    k: int,
    i: int,
    j: int,
)
    requires
        0 <= k < p.len(),
        0 <= p[k].0 <= i < j < p[k].1 <= t.len(),
        t[i] == '『' && t[j] == '』',
        forall|q: int|
            p[k].0 <= q < p[k].1 && q != i && q != j ==> #[trigger] t[q] != '「' && t[q] != '」'
                && t[q] != '『' && t[q] != '』' && t[q] != '《' && t[q] != '》',
        untouched(t, ex, i, j + 1),
    ensures
        ({
            let v = hierarchy_rule(t, ex, p)(k);
            &&& v.len() == 1
            &&& v[0].offset == byte_pos(t, j)
        }),
{
    let (from, to) = p[k];
    lemma_untouched(t, ex, i, j + 1, i, i + 1);
    lemma_untouched(t, ex, i, j + 1, j, j + 1);
    lemma_no_brackets(t, ex, from, from, i);
    assert(open_brackets(t, ex, from, from) =~= Seq::empty());
    assert(closing_findings(t, ex, from, from) =~= Seq::empty());
    assert(open_brackets(t, ex, from, i + 1) =~= seq![i]);
    assert(closing_findings(t, ex, from, i + 1) =~= Seq::empty());
    lemma_no_brackets(t, ex, from, i + 1, j);
    let open = open_brackets(t, ex, from, j);
    assert(open =~= seq![i]);
    assert(matches_last(t, open, j));
    assert(open_brackets(t, ex, from, j + 1) =~= Seq::empty());
    lemma_no_brackets(t, ex, from, j + 1, to);
    assert(open_brackets(t, ex, from, to).len() == 0);
    assert(each(0, unclosed_rule(t, open_brackets(t, ex, from, to))) =~= Seq::empty());
    assert(closing_findings(t, ex, from, to) =~= close_findings(t, open, j));
}

/// 「, then 『 and 』 within it, then 」, is in order.
pub proof fn law_nested_brackets_are_in_order(
    t: Seq<char>,
    ex: Seq<ByteRange>,
    p: Seq<(int, int)>,
    k: int,
    a: int,
    i: int,
    j: int,
    b: int,
)
    requires
        0 <= k < p.len(),
        0 <= p[k].0 <= a < i < j < b < p[k].1 <= t.len(),
        t[a] == '「' && t[i] == '『' && t[j] == '』' && t[b] == '」',
        forall|q: int|
            p[k].0 <= q < p[k].1 && q != a && q != i && q != j && q != b ==> #[trigger] t[q] != '「'
                && t[q] != '」' && t[q] != '『' && t[q] != '』' && t[q] != '《' && t[q] != '》',
        untouched(t, ex, a, b + 1),
    ensures
        hierarchy_rule(t, ex, p)(k).len() == 0,
{
    let (from, to) = p[k];
    lemma_untouched(t, ex, a, b + 1, a, a + 1);
    lemma_untouched(t, ex, a, b + 1, i, i + 1);
    lemma_untouched(t, ex, a, b + 1, j, j + 1);
    lemma_untouched(t, ex, a, b + 1, b, b + 1);
    lemma_no_brackets(t, ex, from, from, a);
    assert(open_brackets(t, ex, from, from) =~= Seq::empty());
    assert(closing_findings(t, ex, from, from) =~= Seq::empty());
    assert(open_brackets(t, ex, from, a + 1) =~= seq![a]);
    assert(closing_findings(t, ex, from, a + 1) =~= Seq::empty());
    lemma_no_brackets(t, ex, from, a + 1, i);
    assert(open_brackets(t, ex, from, i + 1) =~= seq![a, i]);
    assert(closing_findings(t, ex, from, i + 1) =~= Seq::empty());
    lemma_no_brackets(t, ex, from, i + 1, j);
    let inner = open_brackets(t, ex, from, j);
    assert(inner =~= seq![a, i]);
    assert(matches_last(t, inner, j));
    assert(t[inner[0]] == '「');
    assert(close_findings(t, inner, j) =~= Seq::empty());
    assert(open_brackets(t, ex, from, j + 1) =~= seq![a]);
    assert(closing_findings(t, ex, from, j + 1) =~= Seq::empty());
    lemma_no_brackets(t, ex, from, j + 1, b);
    let outer = open_brackets(t, ex, from, b);
    assert(outer =~= seq![a]);
    assert(matches_last(t, outer, b));
    assert(close_findings(t, outer, b) =~= Seq::empty());
    assert(open_brackets(t, ex, from, b + 1) =~= Seq::empty());
    assert(closing_findings(t, ex, from, b + 1) =~= Seq::empty());
    lemma_no_brackets(t, ex, from, b + 1, to);
    assert(open_brackets(t, ex, from, to).len() == 0);
}

/// The depth of a mark is how many are open before it.
proof fn lemma_depth(openings: Seq<bool>, n: int)
    requires
        0 <= n <= openings.len(),
        direction_usable(openings),
    ensures
        depth_at(openings, n) == still_open(openings, n).len(),
        depth_at(openings, n) == depth_after(openings, n),
        forall|m: int|
            0 <= m < still_open(openings, n).len() ==> {
                let o = #[trigger] still_open(openings, n)[m];
                0 <= o < n && openings[o] && still_open(openings, o).len() == m
            },
    decreases n,
{
    if n > 0 {
        lemma_depth(openings, n - 1);
        assert(depth_after(openings, n) >= 0);
        let before = still_open(openings, n - 1);
        let now = still_open(openings, n);
        assert forall|m: int| 0 <= m < now.len() implies ({
            let o = #[trigger] now[m];
            0 <= o < n && openings[o] && still_open(openings, o).len() == m
        }) by {
            if m < before.len() {
                assert(now[m] == before[m]);
            }
        }
    }
}

/// Two curly marks that go together become brackets that go together: 「 and 」, or
/// 『 and 』 where an odd number of quotations is open around them. The outermost
/// ones become 「 and 」.
pub proof fn law_partners_become_one_kind_of_bracket(openings: Seq<bool>, i: int, j: int)
    requires
        direction_usable(openings),
        0 <= i < j < openings.len(),
        openings[i],
        !openings[j],
        still_open(openings, j).len() > 0,
        still_open(openings, j).last() == i,
    ensures
        bracket_of(openings, i) == (if depth_after(openings, i) % 2 == 0 {
            seq!['「']
        } else {
            seq!['『']
        }),
        bracket_of(openings, j) == (if depth_after(openings, i) % 2 == 0 {
            seq!['」']
        } else {
            seq!['』']
        }),
{
    reveal_strlit("「");
    reveal_strlit("」");
    reveal_strlit("『");
    reveal_strlit("』");
    assert("「"@ =~= seq!['「']);
    assert("」"@ =~= seq!['」']);
    assert("『"@ =~= seq!['『']);
    assert("』"@ =~= seq!['』']);
    lemma_depth(openings, i);
    lemma_depth(openings, j);
    lemma_depth(openings, j + 1);
    let open = still_open(openings, j);
    assert(open[open.len() - 1] == i);
    assert(still_open(openings, i).len() == open.len() - 1);
}

/// Two findings on curly double quotation marks of one line, and no others, get the
/// brackets 「 and 」, whichever way the marks are written.
#[verifier::spinoff_prover]
#[verifier::rlimit(80)]
pub proof fn law_two_quotation_findings_become_corner_brackets(
    t: Seq<char>,
    v: Seq<IssueModel>,
    w: Seq<IssueModel>,
    o: int,
    c: int,
)
    requires
        brackets_settled(t, v, w),
        v.len() == 2,
        0 <= o < c < t.len(),
        v[0].offset == byte_pos(t, o) && v[0].offset + v[0].length == byte_pos(t, o + 1),
        v[1].offset == byte_pos(t, c) && v[1].offset + v[1].length == byte_pos(t, c + 1),
        v[0].found == seq!['\u{201c}'] || v[0].found == seq!['\u{201d}'],
        v[1].found == seq!['\u{201c}'] || v[1].found == seq!['\u{201d}'],
        forall|q: int| o <= q <= c ==> #[trigger] t[q] != '\n',
    ensures
        w.len() == 2,
        w[0] == (IssueModel { suggestions: seq![seq!['「']], ..v[0] }),
        w[1] == (IssueModel { suggestions: seq![seq!['」']], ..v[1] }),
{
    reveal_strlit("\u{201c}");
    reveal_strlit("\u{201d}");
    reveal_strlit("「");
    reveal_strlit("」");
    assert("\u{201c}"@ =~= seq!['\u{201c}']);
    assert("\u{201d}"@ =~= seq!['\u{201d}']);
    assert("「"@ =~= seq!['「']);
    assert("」"@ =~= seq!['」']);
    reveal_with_fuel(quotes_among, 3);
    let q = quotes_among(v, 2);
    assert(q =~= seq![0int, 1int]);
    lemma_floor_bounds(t, byte_pos(t, o + 1), o + 1, o + 1);
    lemma_floor_bounds(t, byte_pos(t, c), c, c);
    assert(!break_between(t, byte_pos(t, o + 1), byte_pos(t, c))) by {
        if break_between(t, byte_pos(t, o + 1), byte_pos(t, c)) {
            let k = choose|k: int|
                o + 1 <= k < c && (#[trigger] blank_line_end(t, k)) is Some && blank_line_end(
                    t,
                    k,
                )->0 <= c;
            assert(t[k] != '\n');
        }
    }
    assert(!begins(t, v, q, 1));
    reveal_with_fuel(group_start, 3);
    reveal_with_fuel(group_end, 3);
    assert(group_start(t, v, q, 0) == 0 && group_start(t, v, q, 1) == 0);
    assert(group_end(t, v, q, 0) == 2 && group_end(t, v, q, 1) == 2);
    let openings = opened(v, q, 0, 2);
    assert(openings.len() == 2);
    crate::quotes::lemma_two_partners(crate::quotes::QuoteKind::CurlyDouble, openings);
    reveal_with_fuel(depth_at, 3);
    if direction_usable(openings) {
        assert(openings[0] && !openings[1]);
    }
    assert(opens(openings, 0) && !opens(openings, 1));
    assert(w[q[0]] == (IssueModel { suggestions: seq![bracket_at(t, v, q, 0)], ..v[q[0]] }));
    assert(w[q[1]] == (IssueModel { suggestions: seq![bracket_at(t, v, q, 1)], ..v[q[1]] }));
}

} // verus!
