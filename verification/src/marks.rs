//! Lists that want 、, curly quotation marks, and marks that stand for a range.
use vstd::prelude::*;

use crate::adjacent::{cjk_after, cjk_before, has_cjk_after, has_cjk_before};
use crate::chars::cjk_context;
use crate::emit::{punct_issue, span_excluded, ByteRange, Emitter};
use crate::issue::{IssueModel, Severity};
use crate::lines::{trim, trimmed};
use crate::profile::ProfileConfig;
use crate::punctuation::{
    at_line_start, char_at, digit_at, has_char_at, has_digit_at, opens_line, whole_plan,
};
use crate::quotes::{
    law_two_double_marks, law_two_single_marks, lemma_plan_of_one, plan_quote_conversions,
    QuoteKind, QuoteMark,
};
use crate::text::byte_pos;
use crate::walk::{each, if_so, suggested};

verus! {

/// Longest item of a list, in characters.
pub const MAX_ITEM_CHARS: usize = 4;

/// Positions of the full-width commas among the first `n` characters that are
/// not excluded.
pub open spec fn commas(t: Seq<char>, ex: Seq<ByteRange>, n: int) -> Seq<int>
    decreases n,
{
    if n <= 0 {
        Seq::empty()
    } else if t[n - 1] == '，' && !span_excluded(t, ex, n - 1, n) {
        commas(t, ex, n - 1).push(n - 1)
    } else {
        commas(t, ex, n - 1)
    }
}

/// Between the `s`-th comma and the next stands one item of a list.
pub open spec fn short_item(t: Seq<char>, p: Seq<int>, s: int) -> bool {
    0 <= s && s + 1 < p.len() && {
        let (a, b) = trimmed(t, p[s] + 1, p[s + 1]);
        0 < b - a <= MAX_ITEM_CHARS
    }
}

/// The item after the `s`-th comma has another before or behind it.
pub open spec fn listed_item(t: Seq<char>, p: Seq<int>, s: int) -> bool {
    short_item(t, p, s) && (short_item(t, p, s - 1) || short_item(t, p, s + 1))
}

/// The commas beside items of a list.
pub open spec fn dunhao_rule(t: Seq<char>, p: Seq<int>) -> spec_fn(int) -> Seq<IssueModel> {
    |k: int|
        if_so(
            listed_item(t, p, k - 1) || listed_item(t, p, k),
            punct_issue(
                t,
                p[k],
                p[k] + 1,
                "、"@,
                Severity::Info,
                "列舉項目建議使用頓號「、」而非逗號「，」"@,
            ),
        )
}

spec fn as_ints(v: Seq<usize>) -> Seq<int> {
    Seq::new(v.len(), |k: int| v[k] as int)
}

fn comma_positions(em: &Emitter<'_>) -> (r: Vec<usize>)
    requires
        em.wf(),
    ensures
        as_ints(r@) == commas(em.chars(), em.ex(), em.chars().len() as int),
        forall|k: int| 0 <= k < r@.len() ==> (#[trigger] r@[k]) < em.chars().len(),
        forall|k: int, m: int| 0 <= k < m < r@.len() ==> (#[trigger] r@[k]) < (#[trigger] r@[m]),
{
    let n: usize = em.text.len();
    let mut r: Vec<usize> = Vec::new();
    let mut i: usize = 0;
    assert(as_ints(r@) =~= Seq::empty());
    while i < n
        invariant
            em.wf(),
            n == em.chars().len(),
            i <= n,
            as_ints(r@) == commas(em.chars(), em.ex(), i as int),
            forall|k: int| 0 <= k < r@.len() ==> (#[trigger] r@[k]) < i,
            forall|k: int, m: int|
                0 <= k < m < r@.len() ==> (#[trigger] r@[k]) < (#[trigger] r@[m]),
        decreases n - i,
    {
        if em.text.ch(i) == '，' && !em.excluded_span(i, i + 1) {
            let ghost before = as_ints(r@);
            r.push(i);
            assert(as_ints(r@) =~= before.push(i as int));
        }
        i = i + 1;
    }
    r
}

/// Whether each gap between commas holds one item.
fn short_items(em: &Emitter<'_>, p: &Vec<usize>) -> (r: Vec<bool>)
    requires
        em.wf(),
        forall|k: int| 0 <= k < p@.len() ==> (#[trigger] p@[k]) < em.chars().len(),
        forall|k: int, m: int| 0 <= k < m < p@.len() ==> (#[trigger] p@[k]) < (#[trigger] p@[m]),
    ensures
        r@.len() == p@.len(),
        forall|s: int|
            0 <= s < r@.len() ==> #[trigger] r@[s] == short_item(em.chars(), as_ints(p@), s),
{
    let _n: usize = em.text.len();
    let mut r: Vec<bool> = Vec::new();
    let mut s: usize = 0;
    while s < p.len()
        invariant
            em.wf(),
            em.chars().len() <= usize::MAX,
            s <= p@.len(),
            r@.len() == s,
            forall|k: int| 0 <= k < p@.len() ==> (#[trigger] p@[k]) < em.chars().len(),
            forall|k: int, m: int|
                0 <= k < m < p@.len() ==> (#[trigger] p@[k]) < (#[trigger] p@[m]),
            forall|k: int|
                0 <= k < s ==> #[trigger] r@[k] == short_item(em.chars(), as_ints(p@), k),
        decreases p@.len() - s,
    {
        if s + 1 < p.len() {
            assert(p@[s as int] < p@[s + 1]);
            let (a, b) = trim(&em.text, p[s] + 1, p[s + 1]);
            r.push(0 < b - a && b - a <= MAX_ITEM_CHARS);
        } else {
            r.push(false);
        }
        s = s + 1;
    }
    r
}

/// Whether the gap `s` holds an item with another before or behind it.
fn in_list(short: &Vec<bool>, s: usize) -> (r: bool)
    requires
        s < short@.len(),
    ensures
        r == (short@[s as int] && ((s > 0 && short@[s - 1]) || (s + 1 < short@.len() && short@[s
            + 1]))),
{
    short[s] && ((s > 0 && short[s - 1]) || (s < short.len() - 1 && short[s + 1]))
}

/// Full-width commas that divide the items of a list.
pub fn scan_dunhao(em: &mut Emitter<'_>)
    requires
        old(em).wf(),
    ensures
        final(em).wf(),
        ({
            let t = old(em).chars();
            let p = commas(t, old(em).ex(), t.len() as int);
            final(em).extends(old(em), each(p.len() as int, dunhao_rule(t, p)))
        }),
{
    let ghost start = *em;
    let ghost t = em.chars();
    let _n: usize = em.text.len();
    let p = comma_positions(em);
    let ghost ps = as_ints(p@);
    let short = short_items(em, &p);
    let ghost f = dunhao_rule(t, ps);
    let mut k: usize = 0;
    assert(em.out() =~= start.out() + each(0, f));
    while k < p.len()
        invariant
            em.wf(),
            t == start.chars(),
            t.len() <= usize::MAX,
            ps == as_ints(p@),
            f == dunhao_rule(t, ps),
            k <= p@.len(),
            short@.len() == p@.len(),
            forall|j: int| 0 <= j < p@.len() ==> (#[trigger] p@[j]) < t.len(),
            forall|s: int| 0 <= s < short@.len() ==> #[trigger] short@[s] == short_item(t, ps, s),
            em.extends(&start, each(k as int, f)),
        decreases p@.len() - k,
    {
        let listed: bool = (k > 0 && in_list(&short, k - 1)) || in_list(&short, k);
        proof {
            assert(short@[k as int] == short_item(t, ps, k as int));
            if k > 0 {
                assert(short@[k - 1] == short_item(t, ps, k - 1));
            }
            if k > 1 {
                assert(short@[k - 2] == short_item(t, ps, k - 2));
            }
            if k + 1 < p@.len() {
                assert(short@[k + 1] == short_item(t, ps, k + 1));
            }
            assert(listed == (listed_item(t, ps, k - 1) || listed_item(t, ps, k as int)));
        }
        if listed {
            let at: usize = p[k];
            em.report_punctuation(
                at,
                at + 1,
                "、".to_owned(),
                Severity::Info,
                "列舉項目建議使用頓號「、」而非逗號「，」",
            );
        }
        assert(ps[k as int] == p@[k as int]);
        assert(em.out() =~= start.out() + (each(k as int, f) + f(k as int)));
        k = k + 1;
    }
}

/// What is said of a curly quotation mark that converts.
pub open spec fn curly_issue(t: Seq<char>, mark: QuoteMark, double: bool) -> IssueModel {
    punct_issue(
        t,
        mark.pos as int,
        mark.pos + 1,
        if double {
            if mark.opening {
                "「"@
            } else {
                "」"@
            }
        } else if mark.opening {
            "『"@
        } else {
            "』"@
        },
        Severity::Warning,
        if double {
            "繁體中文應使用「」引號而非中國大陸式「\u{201c}\u{201d}」"@
        } else {
            "繁體中文應使用『』引號而非中國大陸式「\u{2018}\u{2019}」"@
        },
    )
}

/// The marks of both lists from `i` and `j` on, in the order of their
/// positions.
pub open spec fn curly_issues(
    t: Seq<char>,
    doubles: Seq<QuoteMark>,
    singles: Seq<QuoteMark>,
    i: int,
    j: int,
) -> Seq<IssueModel>
    decreases doubles.len() - i + singles.len() - j,
{
    if !(0 <= i <= doubles.len() && 0 <= j <= singles.len()) {
        Seq::empty()
    } else if i < doubles.len() && (j == singles.len() || doubles[i].pos <= singles[j].pos) {
        seq![curly_issue(t, doubles[i], true)] + curly_issues(t, doubles, singles, i + 1, j)
    } else if j < singles.len() {
        seq![curly_issue(t, singles[j], false)] + curly_issues(t, doubles, singles, i, j + 1)
    } else {
        Seq::empty()
    }
}

fn report_curly(em: &mut Emitter<'_>, mark: QuoteMark, double: bool)
    requires
        old(em).wf(),
        mark.pos < old(em).chars().len(),
    ensures
        final(em).wf(),
        final(em).extends(old(em), seq![curly_issue(old(em).chars(), mark, double)]),
{
    let _n: usize = em.text.len();
    let suggestion: &str = if double {
        if mark.opening {
            "「"
        } else {
            "」"
        }
    } else if mark.opening {
        "『"
    } else {
        "』"
    };
    let said: &str = if double {
        "繁體中文應使用「」引號而非中國大陸式「\u{201c}\u{201d}」"
    } else {
        "繁體中文應使用『』引號而非中國大陸式「\u{2018}\u{2019}」"
    };
    em.report_punctuation(mark.pos, mark.pos + 1, suggestion.to_owned(), Severity::Warning, said);
}

/// Curly quotation marks, double and single, in the order of the text.
pub fn scan_cn_curly_quotes(em: &mut Emitter<'_>)
    requires
        old(em).wf(),
    ensures
        final(em).wf(),
        final(em).extends(
            old(em),
            curly_issues(
                old(em).chars(),
                whole_plan(old(em).chars(), old(em).ex(), QuoteKind::CurlyDouble),
                whole_plan(old(em).chars(), old(em).ex(), QuoteKind::CurlySingle),
                0,
                0,
            ),
        ),
{
    let ghost start = *em;
    let ghost t = em.chars();
    let doubles = plan_quote_conversions(
        &em.text,
        em.excluded.as_slice(),
        QuoteKind::CurlyDouble,
    );
    let singles = plan_quote_conversions(
        &em.text,
        em.excluded.as_slice(),
        QuoteKind::CurlySingle,
    );
    let mut i: usize = 0;
    let mut j: usize = 0;
    while i < doubles.len() || j < singles.len()
        invariant
            em.wf(),
            em.text == start.text,
            em.excluded == start.excluded,
            t == start.chars(),
            i <= doubles@.len(),
            j <= singles@.len(),
            forall|k: int| 0 <= k < doubles@.len() ==> (#[trigger] doubles@[k]).pos < t.len(),
            forall|k: int| 0 <= k < singles@.len() ==> (#[trigger] singles@[k]).pos < t.len(),
            em.out() + curly_issues(t, doubles@, singles@, i as int, j as int) =~= start.out()
                + curly_issues(t, doubles@, singles@, 0, 0),
        decreases doubles@.len() - i + singles@.len() - j,
    {
        if i < doubles.len() && (j >= singles.len() || doubles[i].pos <= singles[j].pos) {
            report_curly(em, doubles[i], true);
            i = i + 1;
        } else {
            report_curly(em, singles[j], false);
            j = j + 1;
        }
    }
}

/// The tilde at `i` stands for a range: digits or CJK text on both sides, CJK
/// text on one at least, and no number that is merely approximate.
pub open spec fn tilde_range(t: Seq<char>, i: int) -> bool {
    let (left, right) = (cjk_before(t, i, usize::MAX as int), cjk_after(
        t,
        i + 1,
        usize::MAX as int,
    ));
    &&& digit_at(t, i - 1) || left
    &&& digit_at(t, i + 1) || right
    &&& left || right
    &&& digit_at(t, i + 1) ==> digit_at(t, i - 1)
}

/// The hyphen at `i` stands for a range: alone, not at the start of its line,
/// between CJK text.
pub open spec fn hyphen_range(t: Seq<char>, i: int) -> bool {
    &&& !char_at(t, i - 1, '-')
    &&& !char_at(t, i + 1, '-')
    &&& !opens_line(t, i)
    &&& cjk_before(t, i, usize::MAX as int)
    &&& cjk_after(t, i + 1, usize::MAX as int)
}

/// What is wrong with the character `i` as the mark of a range.
pub open spec fn range_rule(t: Seq<char>, ex: Seq<ByteRange>, en_dash: bool) -> spec_fn(
    int,
) -> Seq<IssueModel> {
    |i: int|
        if_so(
            !span_excluded(t, ex, i, i + 1) && ((t[i] == '~' && tilde_range(t, i)) || (t[i] == '-'
                && hyphen_range(t, i))),
            punct_issue(
                t,
                i,
                i + 1,
                if en_dash {
                    "\u{2013}"@
                } else {
                    "\u{FF5E}"@
                },
                Severity::Info,
                "範圍表示建議使用全形波浪號「～」或半形連接號「–」"@,
            ),
        )
}

fn marks_range(em: &Emitter<'_>, i: usize) -> (r: bool)
    requires
        em.wf(),
        i < em.chars().len(),
    ensures
        r == ((em.chars()[i as int] == '~' && tilde_range(em.chars(), i as int)) || (
        em.chars()[i as int] == '-' && hyphen_range(em.chars(), i as int))),
{
    let _n: usize = em.text.len();
    let c = em.text.ch(i);
    if c == '~' {
        let left_digit: bool = i > 0 && has_digit_at(&em.text, i - 1);
        let right_digit: bool = has_digit_at(&em.text, i + 1);
        let left: bool = has_cjk_before(&em.text, i, usize::MAX);
        let right: bool = has_cjk_after(&em.text, i + 1, usize::MAX);
        (left_digit || left) && (right_digit || right) && (left || right) && !(right_digit
            && !left_digit)
    } else if c == '-' {
        !(i > 0 && has_char_at(&em.text, i - 1, '-')) && !has_char_at(&em.text, i + 1, '-')
            && !at_line_start(&em.text, i) && has_cjk_before(&em.text, i, usize::MAX)
            && has_cjk_after(&em.text, i + 1, usize::MAX)
    } else {
        false
    }
}

/// Tildes and hyphens that stand for a range in Chinese text.
pub fn scan_range_indicators(em: &mut Emitter<'_>, cfg: &ProfileConfig)
    requires
        old(em).wf(),
    ensures
        final(em).wf(),
        final(em).extends(
            old(em),
            each(
                old(em).chars().len() as int,
                range_rule(old(em).chars(), old(em).ex(), cfg.range_en_dash),
            ),
        ),
{
    let ghost start = *em;
    let ghost f = range_rule(em.chars(), em.ex(), cfg.range_en_dash);
    let n: usize = em.text.len();
    let mut i: usize = 0;
    assert(em.out() =~= start.out() + each(0, f));
    while i < n
        invariant
            em.wf(),
            n == em.chars().len(),
            i <= n,
            f == range_rule(start.chars(), start.ex(), cfg.range_en_dash),
            em.extends(&start, each(i as int, f)),
        decreases n - i,
    {
        if marks_range(em, i) && !em.excluded_span(i, i + 1) {
            let suggestion: &str = if cfg.range_en_dash {
                "\u{2013}"
            } else {
                "\u{FF5E}"
            };
            em.report_punctuation(
                i,
                i + 1,
                suggestion.to_owned(),
                Severity::Info,
                "範圍表示建議使用全形波浪號「～」或半形連接號「–」",
            );
        }
        assert(em.out() =~= start.out() + (each(i as int, f) + f(i as int)));
        i = i + 1;
    }
}

/// Every mark of both lists is reported.
proof fn lemma_curly_reported(
    t: Seq<char>,
    doubles: Seq<QuoteMark>,
    singles: Seq<QuoteMark>,
    i: int,
    j: int,
)
    requires
        0 <= i <= doubles.len(),
        0 <= j <= singles.len(),
    ensures
        forall|k: int|
            i <= k < doubles.len() ==> curly_issues(t, doubles, singles, i, j).contains(
                curly_issue(t, #[trigger] doubles[k], true),
            ),
        forall|k: int|
            j <= k < singles.len() ==> curly_issues(t, doubles, singles, i, j).contains(
                curly_issue(t, #[trigger] singles[k], false),
            ),
    decreases doubles.len() - i + singles.len() - j,
{
    let now = curly_issues(t, doubles, singles, i, j);
    if i < doubles.len() && (j == singles.len() || doubles[i].pos <= singles[j].pos) {
        lemma_curly_reported(t, doubles, singles, i + 1, j);
        let rest = curly_issues(t, doubles, singles, i + 1, j);
        assert(now[0] == curly_issue(t, doubles[i], true));
        lemma_behind(curly_issue(t, doubles[i], true), rest);
        assert forall|k: int| i <= k < doubles.len() implies now.contains(
            curly_issue(t, #[trigger] doubles[k], true),
        ) by {
            if k > i {
                assert(rest.contains(curly_issue(t, doubles[k], true)));
            }
        }
    } else if j < singles.len() {
        lemma_curly_reported(t, doubles, singles, i, j + 1);
        let rest = curly_issues(t, doubles, singles, i, j + 1);
        assert(now[0] == curly_issue(t, singles[j], false));
        lemma_behind(curly_issue(t, singles[j], false), rest);
        assert forall|k: int| j <= k < singles.len() implies now.contains(
            curly_issue(t, #[trigger] singles[k], false),
        ) by {
            if k > j {
                assert(rest.contains(curly_issue(t, singles[k], false)));
            }
        }
    }
}

proof fn lemma_behind(first: IssueModel, rest: Seq<IssueModel>)
    ensures
        forall|m: IssueModel| #[trigger]
            rest.contains(m) ==> (seq![first] + rest).contains(m),
{
    assert forall|m: IssueModel| #[trigger] rest.contains(m) implies (seq![first] + rest).contains(
        m,
    ) by {
        let k = choose|k: int| 0 <= k < rest.len() && rest[k] == m;
        assert((seq![first] + rest)[k + 1] == m);
    }
}

/// In a text of one paragraph with two curly double quotation marks, around
/// Chinese and with no Latin letter or with Chinese outside, the first mark
/// becomes 「 and the second 」, whichever way they are written.
pub proof fn law_curly_quotation_becomes_corner_brackets(
    t: Seq<char>,
    ex: Seq<ByteRange>,
    o: int,
    c: int,
    x: int,
)
    requires
        0 <= o < x < c < t.len(),
        t.len() <= usize::MAX,
        forall|q: int| 0 <= q < t.len() ==> #[trigger] t[q] != '\n' && t[q] != '\r',
        forall|q: int|
            0 <= q < t.len() ==> ((#[trigger] t[q] == '\u{201c}' || t[q] == '\u{201d}')
                && !span_excluded(t, ex, q, q + 1)) == (q == o || q == c),
        cjk_context(t[x]),
        !span_excluded(t, ex, x, x + 1),
        ({
            ||| forall|q: int|
                0 <= q < t.len() && (q < o || c < q) ==> !(0x41 <= (#[trigger] t[q]) as int <= 0x5A)
                    && !(0x61 <= t[q] as int <= 0x7A)
            ||| exists|q: int|
                0 <= q < t.len() && (q < o || c < q) && cjk_context(#[trigger] t[q])
                    && !span_excluded(t, ex, q, q + 1)
        }),
    ensures
        ({
            let v = curly_issues(
                t,
                whole_plan(t, ex, QuoteKind::CurlyDouble),
                whole_plan(t, ex, QuoteKind::CurlySingle),
                0,
                0,
            );
            &&& suggested(v, byte_pos(t, o), byte_pos(t, o + 1), seq![seq!['「']])
            &&& suggested(v, byte_pos(t, c), byte_pos(t, c + 1), seq![seq!['」']])
        }),
{
    reveal_strlit("「");
    reveal_strlit("」");
    assert("「"@ =~= seq!['「']);
    assert("」"@ =~= seq!['」']);
    let doubles = whole_plan(t, ex, QuoteKind::CurlyDouble);
    let singles = whole_plan(t, ex, QuoteKind::CurlySingle);
    lemma_plan_of_one(t, ex, QuoteKind::CurlyDouble);
    law_two_double_marks(t, ex, QuoteKind::CurlyDouble, 0, t.len() as int, o, c);
    assert(cjk_context(t[x]) && !span_excluded(t, ex, x, x + 1));
    assert(doubles.len() == 2);
    lemma_curly_reported(t, doubles, singles, 0, 0);
    let v = curly_issues(t, doubles, singles, 0, 0);
    assert(v.contains(curly_issue(t, doubles[0], true)));
    assert(v.contains(curly_issue(t, doubles[1], true)));
}

/// In a text of one paragraph with a single opening and a single closing curly
/// mark around Chinese, with no Latin letter beside either and none outside them,
/// the first becomes 『 and the second 』.
pub proof fn law_single_curly_quotation_becomes_white_corner_brackets(
    t: Seq<char>,
    ex: Seq<ByteRange>,
    o: int,
    c: int,
    x: int,
)
    requires
        0 <= o < x < c < t.len(),
        t.len() <= usize::MAX,
        forall|q: int| 0 <= q < t.len() ==> #[trigger] t[q] != '\n' && t[q] != '\r',
        t[o] == '\u{2018}',
        t[c] == '\u{2019}',
        forall|q: int|
            0 <= q < t.len() ==> ((#[trigger] t[q] == '\u{2018}' || t[q] == '\u{2019}')
                && !span_excluded(t, ex, q, q + 1)) == (q == o || q == c),
        cjk_context(t[x]),
        !span_excluded(t, ex, x, x + 1),
        forall|q: int|
            0 <= q < t.len() && (q <= o + 1 || c - 1 <= q) ==> !(0x41 <= (#[trigger] t[q]) as int
                <= 0x5A) && !(0x61 <= t[q] as int <= 0x7A),
    ensures
        ({
            let v = curly_issues(
                t,
                whole_plan(t, ex, QuoteKind::CurlyDouble),
                whole_plan(t, ex, QuoteKind::CurlySingle),
                0,
                0,
            );
            &&& suggested(v, byte_pos(t, o), byte_pos(t, o + 1), seq![seq!['『']])
            &&& suggested(v, byte_pos(t, c), byte_pos(t, c + 1), seq![seq!['』']])
        }),
{
    reveal_strlit("『");
    reveal_strlit("』");
    assert("『"@ =~= seq!['『']);
    assert("』"@ =~= seq!['』']);
    let doubles = whole_plan(t, ex, QuoteKind::CurlyDouble);
    let singles = whole_plan(t, ex, QuoteKind::CurlySingle);
    lemma_plan_of_one(t, ex, QuoteKind::CurlySingle);
    law_two_single_marks(t, ex, 0, t.len() as int, o, c);
    assert(cjk_context(t[x]) && !span_excluded(t, ex, x, x + 1));
    assert(singles.len() == 2);
    lemma_curly_reported(t, doubles, singles, 0, 0);
    let v = curly_issues(t, doubles, singles, 0, 0);
    assert(v.contains(curly_issue(t, singles[0], false)));
    assert(v.contains(curly_issue(t, singles[1], false)));
}

} // verus!
