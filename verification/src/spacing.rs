//! Spaces between scripts and around full-width marks, marks that are
//! repeated, and full-width digits.
use vstd::prelude::*;

use crate::chars::{
    ascii_digit, ascii_letter, cjk_ideograph, is_ascii_digit, is_ascii_letter, is_cjk_ideograph,
    within,
};
use crate::emit::{decimal, numeral, punct_issue, span_excluded, ByteRange, Emitter};
use crate::issue::{IssueModel, Severity};
use crate::text::{byte_pos, lemma_byte_pos_monotone};
use crate::walk::{each, if_so, lemma_each_holds, lemma_each_source, suggested};

verus! {

/// A full-width CJK punctuation mark.
pub open spec fn fullwidth_punct(c: char) -> bool {
    ||| within(c, 0x3001, 0x3003)
    ||| within(c, 0x3008, 0x3011)
    ||| within(c, 0x3014, 0x301B)
    ||| c == '！'
    ||| c == '（'
    ||| c == '）'
    ||| c == '，'
    ||| c == '．'
    ||| c == '：'
    ||| c == '；'
    ||| c == '？'
    ||| c == '—'
    ||| c == '…'
}

pub fn is_fullwidth_punct(ch: char) -> (r: bool)
    ensures
        r == fullwidth_punct(ch),
{
    let u: u32 = ch as u32;
    (0x3001 <= u && u <= 0x3003) || (0x3008 <= u && u <= 0x3011) || (0x3014 <= u && u <= 0x301B)
        || ch == '！' || ch == '（' || ch == '）' || ch == '，' || ch == '．' || ch == '：' || ch
        == '；' || ch == '？' || ch == '—' || ch == '…'
}

/// A full-width digit.
pub open spec fn fullwidth_digit(c: char) -> bool {
    within(c, 0xFF10, 0xFF19)
}

pub fn is_fullwidth_digit(ch: char) -> (r: bool)
    ensures
        r == fullwidth_digit(ch),
{
    let u: u32 = ch as u32;
    0xFF10 <= u && u <= 0xFF19
}

/// The half-width digit that a full-width one stands for.
pub fn fullwidth_to_halfwidth_digit(ch: char) -> (r: String)
    requires
        fullwidth_digit(ch),
    ensures
        r@ == decimal((ch as int - 0xFF10) as nat),
{
    numeral((ch as u32 - 0xFF10) as usize)
}

/// A mark that is written twice where it is written once.
pub open spec fn paired_punct(c: char) -> bool {
    c == '…' || c == '—'
}

pub open spec fn content(c: char) -> bool {
    cjk_ideograph(c) || ascii_letter(c) || ascii_digit(c)
}

fn is_content(ch: char) -> (r: bool)
    ensures
        r == content(ch),
{
    is_cjk_ideograph(ch) || is_ascii_letter(ch) || is_ascii_digit(ch)
}

/// How many times the full-width mark at `i` has just been written.
pub open spec fn repeats(t: Seq<char>, ex: Seq<ByteRange>, i: int) -> nat
    decreases i,
{
    if i <= 0 || span_excluded(t, ex, i, i + 1) || !fullwidth_punct(t[i]) || t[i - 1] != t[i] {
        0
    } else {
        repeats(t, ex, i - 1) + 1
    }
}

/// First position from `i` on that is not a blank.
pub open spec fn past_blanks(t: Seq<char>, i: int) -> int
    decreases t.len() - i,
{
    if i < t.len() && t[i] == ' ' {
        past_blanks(t, i + 1)
    } else {
        i
    }
}

/// CJK text directly beside a character of the other class.
pub open spec fn meets(a: char, b: char, other: spec_fn(char) -> bool) -> bool {
    (cjk_ideograph(a) && other(b)) || (other(a) && cjk_ideograph(b))
}

/// The blanks from `i` on stand between content and a full-width mark.
pub open spec fn blanks_before_punct(t: Seq<char>, i: int) -> bool {
    let end = past_blanks(t, i + 1);
    t[i] == ' ' && i > 0 && content(t[i - 1]) && end < t.len() && fullwidth_punct(t[end])
}

/// The blanks behind the full-width mark at `i` stand before content.
pub open spec fn blanks_after_punct(t: Seq<char>, i: int) -> bool {
    let end = past_blanks(t, i + 2);
    fullwidth_punct(t[i]) && t[i + 1] == ' ' && end < t.len() && content(t[end])
}

/// What is wrong at the character `i`.
pub open spec fn spacing_at(t: Seq<char>, ex: Seq<ByteRange>, i: int) -> Seq<IssueModel> {
    if span_excluded(t, ex, i, i + 1) {
        Seq::empty()
    } else if fullwidth_digit(t[i]) {
        seq![
            punct_issue(
                t,
                i,
                i + 1,
                decimal((t[i] as int - 0xFF10) as nat),
                Severity::Warning,
                "數字應使用半形字元"@,
            ),
        ]
    } else if fullwidth_punct(t[i]) && repeats(t, ex, i) > 0 {
        if_so(
            repeats(t, ex, i) >= (if paired_punct(t[i]) {
                2nat
            } else {
                1nat
            }),
            punct_issue(t, i, i + 1, ""@, Severity::Warning, "不重複使用標點符號"@),
        )
    } else if i + 1 >= t.len() || span_excluded(t, ex, i + 1, i + 2) {
        Seq::empty()
    } else {
        if_so(
            meets(t[i], t[i + 1], |c: char| ascii_letter(c)),
            punct_issue(t, i + 1, i + 1, " "@, Severity::Info, "中英文之間需要增加空格"@),
        ) + if_so(
            meets(t[i], t[i + 1], |c: char| ascii_digit(c)),
            punct_issue(
                t,
                i + 1,
                i + 1,
                " "@,
                Severity::Info,
                "中文與數字之間需要增加空格"@,
            ),
        ) + if_so(
            blanks_before_punct(t, i),
            punct_issue(
                t,
                i,
                past_blanks(t, i + 1),
                ""@,
                Severity::Info,
                "全形標點與其他字元之間不加空格"@,
            ),
        ) + if_so(
            blanks_after_punct(t, i),
            punct_issue(
                t,
                i + 1,
                past_blanks(t, i + 2),
                ""@,
                Severity::Info,
                "全形標點與其他字元之間不加空格"@,
            ),
        )
    }
}

pub open spec fn spacing_rule(t: Seq<char>, ex: Seq<ByteRange>) -> spec_fn(int) -> Seq<IssueModel> {
    |i: int| spacing_at(t, ex, i)
}

fn next_non_blank(em: &Emitter<'_>, i: usize) -> (r: usize)
    requires
        em.wf(),
        i <= em.chars().len(),
    ensures
        r == past_blanks(em.chars(), i as int),
        i <= r <= em.chars().len(),
{
    let n: usize = em.text.len();
    let mut k: usize = i;
    while k < n && em.text.ch(k) == ' '
        invariant
            em.wf(),
            n == em.chars().len(),
            i <= k <= n,
            past_blanks(em.chars(), k as int) == past_blanks(em.chars(), i as int),
        decreases n - k,
    {
        k = k + 1;
    }
    k
}

/// Scripts that meet without a space, at the characters `i` and `i + 1`.
fn check_scripts(em: &mut Emitter<'_>, i: usize)
    requires
        old(em).wf(),
        i + 1 < old(em).chars().len(),
    ensures
        final(em).wf(),
        ({
            let t = old(em).chars();
            final(em).extends(
                old(em),
                if_so(
                    meets(t[i as int], t[i + 1], |c: char| ascii_letter(c)),
                    punct_issue(
                        t,
                        i + 1,
                        i + 1,
                        " "@,
                        Severity::Info,
                        "中英文之間需要增加空格"@,
                    ),
                ) + if_so(
                    meets(t[i as int], t[i + 1], |c: char| ascii_digit(c)),
                    punct_issue(
                        t,
                        i + 1,
                        i + 1,
                        " "@,
                        Severity::Info,
                        "中文與數字之間需要增加空格"@,
                    ),
                ),
            )
        }),
{
    let ghost start = *em;
    let ghost t = em.chars();
    let ghost letter = |c: char| ascii_letter(c);
    let ghost digit = |c: char| ascii_digit(c);
    let n: usize = em.text.len();
    let a = em.text.ch(i);
    let b = em.text.ch(i + 1);
    let beside_letter: bool = (is_cjk_ideograph(a) && is_ascii_letter(b)) || (is_ascii_letter(a)
        && is_cjk_ideograph(b));
    let beside_digit: bool = (is_cjk_ideograph(a) && is_ascii_digit(b)) || (is_ascii_digit(a)
        && is_cjk_ideograph(b));
    assert(beside_letter == meets(a, b, letter));
    assert(beside_digit == meets(a, b, digit));
    if beside_letter {
        em.report_punctuation(
            i + 1,
            i + 1,
            " ".to_owned(),
            Severity::Info,
            "中英文之間需要增加空格",
        );
    }
    if beside_digit {
        em.report_punctuation(
            i + 1,
            i + 1,
            " ".to_owned(),
            Severity::Info,
            "中文與數字之間需要增加空格",
        );
    }
    assert(em.out() =~= start.out() + (if_so(
        meets(t[i as int], t[i + 1], letter),
        punct_issue(t, i + 1, i + 1, " "@, Severity::Info, "中英文之間需要增加空格"@),
    ) + if_so(
        meets(t[i as int], t[i + 1], digit),
        punct_issue(t, i + 1, i + 1, " "@, Severity::Info, "中文與數字之間需要增加空格"@),
    )));
}

/// Blanks before a full-width mark.
fn check_space_before_punct(em: &mut Emitter<'_>, i: usize)
    requires
        old(em).wf(),
        i < old(em).chars().len(),
    ensures
        final(em).wf(),
        final(em).extends(
            old(em),
            if_so(
                blanks_before_punct(old(em).chars(), i as int),
                punct_issue(
                    old(em).chars(),
                    i as int,
                    past_blanks(old(em).chars(), i + 1),
                    ""@,
                    Severity::Info,
                    "全形標點與其他字元之間不加空格"@,
                ),
            ),
        ),
{
    let ghost start = *em;
    let n: usize = em.text.len();
    if em.text.ch(i) == ' ' && i > 0 && is_content(em.text.ch(i - 1)) {
        let end: usize = next_non_blank(em, i + 1);
        if end < n && is_fullwidth_punct(em.text.ch(end)) {
            em.report_punctuation(
                i,
                end,
                "".to_owned(),
                Severity::Info,
                "全形標點與其他字元之間不加空格",
            );
            return ;
        }
    }
    assert(em.out() =~= start.out() + Seq::<IssueModel>::empty());
}

/// Blanks behind a full-width mark.
fn check_space_after_punct(em: &mut Emitter<'_>, i: usize)
    requires
        old(em).wf(),
        i + 1 < old(em).chars().len(),
    ensures
        final(em).wf(),
        final(em).extends(
            old(em),
            if_so(
                blanks_after_punct(old(em).chars(), i as int),
                punct_issue(
                    old(em).chars(),
                    i + 1,
                    past_blanks(old(em).chars(), i + 2),
                    ""@,
                    Severity::Info,
                    "全形標點與其他字元之間不加空格"@,
                ),
            ),
        ),
{
    let ghost start = *em;
    let n: usize = em.text.len();
    if is_fullwidth_punct(em.text.ch(i)) && em.text.ch(i + 1) == ' ' {
        let end: usize = next_non_blank(em, i + 2);
        if end < n && is_content(em.text.ch(end)) {
            em.report_punctuation(
                i + 1,
                end,
                "".to_owned(),
                Severity::Info,
                "全形標點與其他字元之間不加空格",
            );
            return ;
        }
    }
    assert(em.out() =~= start.out() + Seq::<IssueModel>::empty());
}

/// Checks one character that is not excluded.
fn check_char(em: &mut Emitter<'_>, i: usize, run: usize)
    requires
        old(em).wf(),
        i < old(em).chars().len(),
        run == repeats(old(em).chars(), old(em).ex(), i as int),
        !span_excluded(old(em).chars(), old(em).ex(), i as int, i + 1),
    ensures
        final(em).wf(),
        final(em).extends(old(em), spacing_at(old(em).chars(), old(em).ex(), i as int)),
{
    let ghost start = *em;
    let ghost t = em.chars();
    let n: usize = em.text.len();
    let ch = em.text.ch(i);
    if is_fullwidth_digit(ch) {
        em.report_punctuation(
            i,
            i + 1,
            fullwidth_to_halfwidth_digit(ch),
            Severity::Warning,
            "數字應使用半形字元",
        );
        return ;
    }
    if is_fullwidth_punct(ch) && run > 0 {
        let limit: usize = if ch == '…' || ch == '—' {
            2
        } else {
            1
        };
        if run >= limit {
            em.report_punctuation(
                i,
                i + 1,
                "".to_owned(),
                Severity::Warning,
                "不重複使用標點符號",
            );
        }
        assert(em.out() =~= start.out() + spacing_at(t, start.ex(), i as int));
        return ;
    }
    if i + 1 >= n || em.excluded_span(i + 1, i + 2) {
        assert(em.out() =~= start.out() + Seq::<IssueModel>::empty());
        return ;
    }
    check_scripts(em, i);
    check_space_before_punct(em, i);
    check_space_after_punct(em, i);
    assert(em.out() =~= start.out() + spacing_at(t, start.ex(), i as int));
}

/// Looks at every character for what is wrong with the spaces, marks and
/// digits around it.
pub fn scan_spacing(em: &mut Emitter<'_>)
    requires
        old(em).wf(),
    ensures
        final(em).wf(),
        final(em).extends(
            old(em),
            each(old(em).chars().len() as int, spacing_rule(old(em).chars(), old(em).ex())),
        ),
{
    let ghost start = *em;
    let ghost f = spacing_rule(em.chars(), em.ex());
    let n: usize = em.text.len();
    let mut run: usize = 0;
    let mut i: usize = 0;
    assert(em.out() =~= start.out() + each(0, f));
    while i < n
        invariant
            em.wf(),
            n == em.chars().len(),
            i <= n,
            f == spacing_rule(start.chars(), start.ex()),
            i > 0 ==> run == repeats(em.chars(), em.ex(), i - 1),
            i == 0 ==> run == 0,
            run <= i,
            em.extends(&start, each(i as int, f)),
        decreases n - i,
    {
        let ghost here = *em;
        let ch = em.text.ch(i);
        let excluded: bool = em.excluded_span(i, i + 1);
        if !excluded && is_fullwidth_punct(ch) && i > 0 && em.text.ch(i - 1) == ch {
            run = run + 1;
        } else {
            run = 0;
        }
        if !excluded {
            check_char(em, i, run);
        }
        assert(f(i as int) == spacing_at(start.chars(), start.ex(), i as int));
        assert(em.out() =~= start.out() + (each(i as int, f) + f(i as int)));
        i = i + 1;
    }
}

/// What is found in a text of which nothing is excluded.
pub open spec fn whole_text_findings(t: Seq<char>) -> Seq<IssueModel> {
    each(t.len() as int, spacing_rule(t, Seq::empty()))
}

/// A finding without length stands at the character position `i`.
pub open spec fn space_due(t: Seq<char>, i: int) -> bool {
    exists|k: int|
        0 <= k < whole_text_findings(t).len() && (#[trigger] whole_text_findings(t)[k]).length == 0
            && whole_text_findings(t)[k].offset == byte_pos(t, i)
}

/// The first `n` characters of `t`, with a space put in wherever a finding
/// without length stands.
pub open spec fn respaced(t: Seq<char>, n: int) -> Seq<char>
    decreases n,
{
    if n <= 0 {
        Seq::empty()
    } else if space_due(t, n - 1) {
        respaced(t, n - 1).push(' ').push(t[n - 1])
    } else {
        respaced(t, n - 1).push(t[n - 1])
    }
}

/// Two scripts meet.
spec fn scripts_meet(a: char, b: char) -> bool {
    meets(a, b, |c: char| ascii_letter(c)) || meets(a, b, |c: char| ascii_digit(c))
}

pub proof fn lemma_past_blanks(t: Seq<char>, i: int)
    requires
        i <= t.len(),
    ensures
        i <= past_blanks(t, i) <= t.len(),
    decreases t.len() - i,
{
    if i < t.len() && t[i] == ' ' {
        lemma_past_blanks(t, i + 1);
    }
}

/// A finding without length asks for a space where two scripts meet.
proof fn lemma_without_length(t: Seq<char>, i: int, m: IssueModel)
    requires
        0 <= i < t.len(),
        spacing_at(t, Seq::empty(), i).contains(m),
        m.length == 0,
    ensures
        i + 1 < t.len(),
        scripts_meet(t[i], t[i + 1]),
        m.offset == byte_pos(t, i + 1),
        m.suggestions == seq![" "@],
{
    let ex = Seq::<ByteRange>::empty();
    let v = spacing_at(t, ex, i);
    let k = choose|k: int| 0 <= k < v.len() && v[k] == m;
    assert(!span_excluded(t, ex, i, i + 1));
    assert(!span_excluded(t, ex, i + 1, i + 2));
    lemma_byte_pos_monotone(t, i, i + 1);
    if i + 1 < t.len() {
        lemma_byte_pos_monotone(t, i + 1, i + 2);
        lemma_past_blanks(t, i + 1);
        lemma_byte_pos_monotone(t, i, past_blanks(t, i + 1));
        lemma_past_blanks(t, i + 2);
        lemma_byte_pos_monotone(t, i + 1, past_blanks(t, i + 2));
    }
}

/// Where two scripts meet, a finding without length stands.
proof fn lemma_meeting_found(t: Seq<char>, i: int)
    requires
        0 <= i,
        i + 1 < t.len(),
        scripts_meet(t[i], t[i + 1]),
    ensures
        exists|k: int|
            0 <= k < spacing_at(t, Seq::empty(), i).len() && (#[trigger] spacing_at(
                t,
                Seq::empty(),
                i,
            )[k]).length == 0 && spacing_at(t, Seq::empty(), i)[k].offset == byte_pos(t, i + 1),
{
    let ex = Seq::<ByteRange>::empty();
    assert(!span_excluded(t, ex, i, i + 1));
    assert(!span_excluded(t, ex, i + 1, i + 2));
    assert(!fullwidth_digit(t[i]));
    assert(!fullwidth_punct(t[i]));
    let v = spacing_at(t, ex, i);
    assert(v[0].length == 0 && v[0].offset == byte_pos(t, i + 1));
}

/// A space is asked for at the positions where two scripts meet, and only
/// there.
proof fn lemma_space_due(t: Seq<char>, i: int)
    requires
        0 <= i < t.len(),
    ensures
        space_due(t, i) == (i > 0 && scripts_meet(t[i - 1], t[i])),
{
    let f = spacing_rule(t, Seq::empty());
    let v = whole_text_findings(t);
    if space_due(t, i) {
        let k = choose|k: int|
            0 <= k < v.len() && (#[trigger] v[k]).length == 0 && v[k].offset == byte_pos(t, i);
        let j = lemma_each_source(t.len() as int, f, k);
        assert(f(j) == spacing_at(t, Seq::empty(), j));
        lemma_without_length(t, j, v[k]);
        if j + 1 < i {
            lemma_byte_pos_monotone(t, j + 1, i);
        } else if i < j + 1 {
            lemma_byte_pos_monotone(t, i, j + 1);
        }
    }
    if i > 0 && scripts_meet(t[i - 1], t[i]) {
        lemma_meeting_found(t, i - 1);
        let w = spacing_at(t, Seq::empty(), i - 1);
        assert(f(i - 1) == w);
        let j = choose|j: int|
            0 <= j < w.len() && (#[trigger] w[j]).length == 0 && w[j].offset == byte_pos(t, i);
        let k = lemma_each_holds(t.len() as int, f, i - 1, j);
        assert(v[k].length == 0);
    }
}

/// No two scripts meet in a text that was respaced.
proof fn lemma_respaced(t: Seq<char>, n: int)
    requires
        0 <= n <= t.len(),
    ensures
        (respaced(t, n).len() == 0) == (n == 0),
        n > 0 ==> respaced(t, n).last() == t[n - 1],
        forall|i: int|
            0 <= i && i + 1 < respaced(t, n).len() ==> !scripts_meet(
                #[trigger] respaced(t, n)[i],
                respaced(t, n)[i + 1],
            ),
    decreases n,
{
    if n > 0 {
        lemma_respaced(t, n - 1);
        lemma_space_due(t, n - 1);
        let before = respaced(t, n - 1);
        let now = respaced(t, n);
        assert forall|i: int| 0 <= i && i + 1 < now.len() implies !scripts_meet(
            #[trigger] now[i],
            now[i + 1],
        ) by {
            if i + 1 < before.len() {
                assert(now[i] == before[i]);
                assert(now[i + 1] == before[i + 1]);
            } else if space_due(t, n - 1) {
                assert(now[i] == ' ' || now[i + 1] == ' ');
            } else {
                assert(now[i] == t[n - 2]);
                assert(now[i + 1] == t[n - 1]);
            }
        }
    }
}

/// Every finding without length suggests a space, and a text into which the
/// spaces were put has no such finding left.
pub proof fn law_suggested_spaces_suffice(t: Seq<char>)
    ensures
        forall|k: int|
            0 <= k < whole_text_findings(t).len() && (#[trigger] whole_text_findings(t)[k]).length == 0
                ==> whole_text_findings(t)[k].suggestions == seq![" "@],
        forall|k: int|
            0 <= k < whole_text_findings(respaced(t, t.len() as int)).len() ==> (
            #[trigger] whole_text_findings(respaced(t, t.len() as int))[k]).length != 0,
{
    let v = whole_text_findings(t);
    assert forall|k: int| 0 <= k < v.len() && (#[trigger] v[k]).length == 0 implies v[k].suggestions
        == seq![" "@] by {
        let f = spacing_rule(t, Seq::empty());
        let i = lemma_each_source(t.len() as int, f, k);
        assert(f(i) == spacing_at(t, Seq::empty(), i));
        lemma_without_length(t, i, v[k]);
    }
    let s = respaced(t, t.len() as int);
    let w = whole_text_findings(s);
    lemma_respaced(t, t.len() as int);
    assert forall|k: int| 0 <= k < w.len() implies (#[trigger] w[k]).length != 0 by {
        if w[k].length == 0 {
            let f = spacing_rule(s, Seq::empty());
            let i = lemma_each_source(s.len() as int, f, k);
            assert(f(i) == spacing_at(s, Seq::empty(), i));
            lemma_without_length(s, i, w[k]);
            assert(!scripts_meet(s[i], s[i + 1]));
        }
    }
}

/// Every place where a CJK ideograph and an ASCII letter or digit stand directly
/// beside each other, in either order, is reported: a finding without length
/// stands between them and suggests one space. Ranges that are excluded
/// elsewhere do not matter.
pub proof fn law_missing_spaces_are_reported(t: Seq<char>, ex: Seq<ByteRange>, i: int)
    requires
        0 <= i,
        i + 1 < t.len(),
        forall|k: int|
            0 <= k < ex.len() ==> (#[trigger] ex[k]).end <= byte_pos(t, i) || ex[k].start
                >= byte_pos(t, i + 2),
        ({
            let (a, b) = (t[i] as int, t[i + 1] as int);
            ||| cjk_ideograph(t[i]) && (0x30 <= b <= 0x39 || 0x41 <= b <= 0x5A || 0x61 <= b <= 0x7A)
            ||| cjk_ideograph(t[i + 1]) && (0x30 <= a <= 0x39 || 0x41 <= a <= 0x5A || 0x61 <= a
                <= 0x7A)
        }),
    ensures
        suggested(
            each(t.len() as int, spacing_rule(t, ex)),
            byte_pos(t, i + 1),
            byte_pos(t, i + 1),
            seq![seq![' ']],
        ),
{
    reveal_strlit(" ");
    assert(" "@ =~= seq![' ']);
    let f = spacing_rule(t, ex);
    let v = each(t.len() as int, f);
    lemma_byte_pos_monotone(t, i, i + 1);
    lemma_byte_pos_monotone(t, i + 1, i + 2);
    assert(!span_excluded(t, ex, i, i + 1));
    assert(!span_excluded(t, ex, i + 1, i + 2));
    assert(!fullwidth_digit(t[i]));
    assert(!fullwidth_punct(t[i]));
    assert(scripts_meet(t[i], t[i + 1]));
    let w = spacing_at(t, ex, i);
    assert(f(i) == w);
    assert(w[0].length == 0 && w[0].offset == byte_pos(t, i + 1) && w[0].suggestions == seq![" "@]);
    let k = lemma_each_holds(t.len() as int, f, i, 0);
    assert(v[k] == w[0]);
}

/// A full-width digit outside the excluded ranges is reported, and the digit it
/// stands for suggested.
pub proof fn law_fullwidth_digits_are_reported(t: Seq<char>, ex: Seq<ByteRange>, i: int, d: int)
    requires
        0 <= i < t.len(),
        0 <= d <= 9,
        t[i] as int == 0xFF10 + d,
        forall|k: int|
            0 <= k < ex.len() ==> (#[trigger] ex[k]).end <= byte_pos(t, i) || ex[k].start
                >= byte_pos(t, i + 1),
    ensures
        suggested(
            each(t.len() as int, spacing_rule(t, ex)),
            byte_pos(t, i),
            byte_pos(t, i + 1),
            seq![seq![(0x30 + d) as char]],
        ),
{
    let f = spacing_rule(t, ex);
    let v = each(t.len() as int, f);
    lemma_byte_pos_monotone(t, i, i + 1);
    assert(!span_excluded(t, ex, i, i + 1));
    let w = spacing_at(t, ex, i);
    assert(f(i) == w);
    assert(w.len() == 1);
    lemma_one_digit(d);
    let k = lemma_each_holds(t.len() as int, f, i, 0);
    assert(v[k] == w[0]);
}

proof fn lemma_one_digit(d: int)
    requires
        0 <= d <= 9,
    ensures
        decimal(d as nat) =~= seq![(0x30 + d) as char],
{
    reveal_with_fuel(decimal, 2);
}

/// Blanks between a full-width mark and the text before it are reported, all of
/// them as one finding that suggests nothing in their place.
pub proof fn law_blanks_before_marks_are_reported(t: Seq<char>, ex: Seq<ByteRange>, i: int, e: int)
    requires
        0 < i < e < t.len(),
        forall|q: int| i <= q < e ==> #[trigger] t[q] == ' ',
        cjk_ideograph(t[i - 1]) || ascii_letter(t[i - 1]) || ascii_digit(t[i - 1]),
        t[e] == '，' || t[e] == '。' || t[e] == '！' || t[e] == '？' || t[e] == '：' || t[e] == '；'
            || t[e] == '、' || t[e] == '（' || t[e] == '）' || t[e] == '「' || t[e] == '」',
        forall|k: int|
            0 <= k < ex.len() ==> (#[trigger] ex[k]).end <= byte_pos(t, i) || ex[k].start
                >= byte_pos(t, i + 2),
    ensures
        suggested(
            each(t.len() as int, spacing_rule(t, ex)),
            byte_pos(t, i),
            byte_pos(t, e),
            seq![Seq::<char>::empty()],
        ),
{
    reveal_strlit("");
    assert(""@ =~= Seq::<char>::empty());
    let f = spacing_rule(t, ex);
    let v = each(t.len() as int, f);
    lemma_byte_pos_monotone(t, i, i + 1);
    lemma_byte_pos_monotone(t, i + 1, i + 2);
    assert(!span_excluded(t, ex, i, i + 1));
    assert(!span_excluded(t, ex, i + 1, i + 2));
    lemma_past_blanks_is(t, i + 1, e);
    assert(t[i] == ' ');
    let w = spacing_at(t, ex, i);
    assert(f(i) == w);
    assert(blanks_before_punct(t, i));
    assert(w.len() >= 1 && w[0].offset == byte_pos(t, i) && w[0].suggestions == seq![""@]);
    let k = lemma_each_holds(t.len() as int, f, i, 0);
    assert(v[k] == w[0]);
}

/// Blanks between a full-width mark and the text behind it are reported in the
/// same way.
pub proof fn law_blanks_behind_marks_are_reported(t: Seq<char>, ex: Seq<ByteRange>, i: int, e: int)
    requires
        0 <= i,
        i + 1 < e < t.len(),
        forall|q: int| i < q < e ==> #[trigger] t[q] == ' ',
        cjk_ideograph(t[e]) || ascii_letter(t[e]) || ascii_digit(t[e]),
        t[i] == '，' || t[i] == '。' || t[i] == '！' || t[i] == '？' || t[i] == '：' || t[i] == '；'
            || t[i] == '、' || t[i] == '（' || t[i] == '）' || t[i] == '「' || t[i] == '」',
        i > 0 ==> t[i - 1] != t[i],
        forall|k: int|
            0 <= k < ex.len() ==> (#[trigger] ex[k]).end <= byte_pos(t, i) || ex[k].start
                >= byte_pos(t, i + 2),
    ensures
        suggested(
            each(t.len() as int, spacing_rule(t, ex)),
            byte_pos(t, i + 1),
            byte_pos(t, e),
            seq![Seq::<char>::empty()],
        ),
{
    reveal_strlit("");
    assert(""@ =~= Seq::<char>::empty());
    let f = spacing_rule(t, ex);
    let v = each(t.len() as int, f);
    lemma_byte_pos_monotone(t, i, i + 1);
    lemma_byte_pos_monotone(t, i + 1, i + 2);
    assert(!span_excluded(t, ex, i, i + 1));
    assert(!span_excluded(t, ex, i + 1, i + 2));
    lemma_past_blanks_is(t, i + 2, e);
    assert(t[i + 1] == ' ');
    let w = spacing_at(t, ex, i);
    assert(f(i) == w);
    assert(blanks_after_punct(t, i));
    assert(w.len() >= 1 && w[0].offset == byte_pos(t, i + 1) && w[0].suggestions == seq![""@]);
    let k = lemma_each_holds(t.len() as int, f, i, 0);
    assert(v[k] == w[0]);
}

proof fn lemma_past_blanks_is(t: Seq<char>, i: int, e: int)
    requires
        0 <= i <= e < t.len(),
        forall|q: int| i <= q < e ==> #[trigger] t[q] == ' ',
        t[e] != ' ',
    ensures
        past_blanks(t, i) == e,
    decreases e - i,
{
    if i < e {
        assert(t[i] == ' ');
        lemma_past_blanks_is(t, i + 1, e);
    }
}

/// A full-width mark that repeats the one before it is reported; of the marks
/// that are written twice, the ellipsis and the dash, only one that repeats two
/// before it.
pub proof fn law_repeated_marks_are_reported(t: Seq<char>, i: int)
    requires
        0 < i < t.len(),
        t[i - 1] == t[i],
        ({
            ||| t[i] == '，' || t[i] == '。' || t[i] == '！' || t[i] == '？' || t[i] == '：' || t[i]
                == '；' || t[i] == '、'
            ||| (t[i] == '…' || t[i] == '—') && i >= 2 && t[i - 2] == t[i]
        }),
    ensures
        suggested(
            each(t.len() as int, spacing_rule(t, Seq::empty())),
            byte_pos(t, i),
            byte_pos(t, i + 1),
            seq![Seq::<char>::empty()],
        ),
{
    reveal_strlit("");
    assert(""@ =~= Seq::<char>::empty());
    let ex = Seq::<ByteRange>::empty();
    let f = spacing_rule(t, ex);
    assert(!span_excluded(t, ex, i, i + 1));
    assert(!span_excluded(t, ex, i - 1, i));
    reveal_with_fuel(repeats, 3);
    let w = spacing_at(t, ex, i);
    assert(f(i) == w);
    assert(w.len() == 1);
    let k = lemma_each_holds(t.len() as int, f, i, 0);
    assert(whole_text_findings(t)[k] == w[0]);
}

/// Nothing else is reported: each finding asks for a space where two scripts
/// meet, takes a full-width digit or a repeated mark for itself, or takes blanks
/// beside a full-width mark.
pub proof fn law_spacing_findings_have_a_reason(t: Seq<char>, ex: Seq<ByteRange>, k: int) -> (i: int)
    requires
        0 <= k < each(t.len() as int, spacing_rule(t, ex)).len(),
    ensures
        0 <= i < t.len(),
        ({
            let m = each(t.len() as int, spacing_rule(t, ex))[k];
            ||| {
                &&& i > 0
                &&& m.offset == byte_pos(t, i)
                &&& m.length == 0
                &&& m.suggestions == seq![seq![' ']]
                &&& (cjk_ideograph(t[i - 1]) && (t[i] as int) < 0x7B && !cjk_ideograph(t[i])) || (
                cjk_ideograph(t[i]) && (t[i - 1] as int) < 0x7B && !cjk_ideograph(t[i - 1]))
            }
            ||| {
                &&& m.offset == byte_pos(t, i)
                &&& m.offset + m.length == byte_pos(t, i + 1)
                &&& 0xFF10 <= t[i] as int <= 0xFF19 || (i > 0 && t[i - 1] == t[i])
            }
            ||| {
                &&& m.offset == byte_pos(t, i)
                &&& t[i] == ' '
                &&& m.length > 0
                &&& m.suggestions == seq![Seq::<char>::empty()]
            }
        }),
{
    reveal_strlit(" ");
    reveal_strlit("");
    assert(" "@ =~= seq![' ']);
    assert(""@ =~= Seq::<char>::empty());
    let f = spacing_rule(t, ex);
    let m = each(t.len() as int, f)[k];
    let i = lemma_each_source(t.len() as int, f, k);
    let w = spacing_at(t, ex, i);
    assert(f(i) == w);
    let j = choose|j: int| 0 <= j < w.len() && w[j] == m;
    lemma_byte_pos_monotone(t, i, i + 1);
    if fullwidth_digit(t[i]) || (fullwidth_punct(t[i]) && repeats(t, ex, i) > 0) {
        i
    } else {
        assert(i + 1 < t.len());
        lemma_past_blanks(t, i + 1);
        lemma_past_blanks(t, i + 2);
        lemma_byte_pos_monotone(t, i, past_blanks(t, i + 1));
        lemma_byte_pos_monotone(t, i + 1, past_blanks(t, i + 2));
        if m.length == 0 || blanks_after_punct(t, i) && m.offset == byte_pos(t, i + 1) {
            i + 1
        } else {
            i
        }
    }
}

} // verus!
