//! Half-width marks in Chinese text, lists that want 、, curly quotation marks,
//! and marks that stand for a range.
use vstd::prelude::*;

use crate::adjacent::{beside, cjk_after, cjk_before, enclosed, has_cjk_after, has_cjk_before};
use crate::chars::{
    ascii_digit, ascii_letter, cjk_context, cjk_ideograph, is_ascii_digit, is_ascii_letter, within,
};
use crate::emit::{punct_issue, span_excluded, ByteRange, Emitter};
use crate::issue::{IssueModel, Severity};
use crate::lines::{lemma_skip_white, lemma_trim_white_end, skip_white, trim_white_end};
use crate::profile::ProfileConfig;
use crate::quotes::{
    ascending, law_two_double_marks, lemma_plan_of_one, plan_of, plan_quote_conversions, QuoteKind,
    QuoteMark,
};
use crate::bounds::paragraphs_of;
use crate::text::{byte_pos, count_where, lemma_byte_pos_monotone, Text};
use crate::walk::{each, if_so, lemma_each_holds, lemma_each_source, suggested};

verus! {

pub open spec fn ascii_alphanumeric(c: char) -> bool {
    ascii_letter(c) || ascii_digit(c)
}

fn is_ascii_alphanumeric(c: char) -> (r: bool)
    ensures
        r == ascii_alphanumeric(c),
{
    is_ascii_letter(c) || is_ascii_digit(c)
}

pub open spec fn digit_at(t: Seq<char>, i: int) -> bool {
    0 <= i < t.len() && ascii_digit(t[i])
}

pub open spec fn alphanumeric_at(t: Seq<char>, i: int) -> bool {
    0 <= i < t.len() && ascii_alphanumeric(t[i])
}

pub open spec fn char_at(t: Seq<char>, i: int, c: char) -> bool {
    0 <= i < t.len() && t[i] == c
}

pub fn has_char_at(text: &Text<'_>, i: usize, c: char) -> (r: bool)
    requires
        text.wf(),
    ensures
        r == char_at(text@, i as int, c),
{
    i < text.len() && text.ch(i) == c
}

pub fn has_digit_at(text: &Text<'_>, i: usize) -> (r: bool)
    requires
        text.wf(),
    ensures
        r == digit_at(text@, i as int),
{
    i < text.len() && is_ascii_digit(text.ch(i))
}

fn has_alphanumeric_at(text: &Text<'_>, i: usize) -> (r: bool)
    requires
        text.wf(),
    ensures
        r == alphanumeric_at(text@, i as int),
{
    i < text.len() && is_ascii_alphanumeric(text.ch(i))
}

/// The mark at `i` stands between two digits: 1,000 and 12:30.
pub open spec fn between_digits(t: Seq<char>, i: int) -> bool {
    digit_at(t, i - 1) && digit_at(t, i + 1)
}

fn digits_both_sides(text: &Text<'_>, i: usize) -> (r: bool)
    requires
        text.wf(),
        i < text@.len(),
    ensures
        r == between_digits(text@, i as int),
{
    let _n: usize = text.len();
    i > 0 && has_digit_at(text, i - 1) && has_digit_at(text, i + 1)
}

/// Position after the last character before `i` that is neither a blank nor a
/// tab.
pub open spec fn before_blanks(t: Seq<char>, i: int) -> int
    decreases i,
{
    if i > 0 && (t[i - 1] == ' ' || t[i - 1] == '\t') {
        before_blanks(t, i - 1)
    } else {
        i
    }
}

/// Nothing but blanks stands before `i` on its line.
pub open spec fn opens_line(t: Seq<char>, i: int) -> bool {
    let e = before_blanks(t, i);
    e <= 0 || t[e - 1] == '\n' || t[e - 1] == '\r'
}

pub fn at_line_start(text: &Text<'_>, i: usize) -> (r: bool)
    requires
        text.wf(),
        i <= text@.len(),
    ensures
        r == opens_line(text@, i as int),
{
    let mut e: usize = i;
    while e > 0 && (text.ch(e - 1) == ' ' || text.ch(e - 1) == '\t')
        invariant
            text.wf(),
            e <= i <= text@.len(),
            before_blanks(text@, e as int) == before_blanks(text@, i as int),
        decreases e,
    {
        e = e - 1;
    }
    e == 0 || text.ch(e - 1) == '\n' || text.ch(e - 1) == '\r'
}

/// The colon at `i` is notation: a time, a reference that a bracket closes
/// before it, or the marker of a definition.
pub open spec fn notation(t: Seq<char>, i: int) -> bool {
    ||| between_digits(t, i)
    ||| char_at(t, i - 1, ']')
    ||| char_at(t, i + 1, ' ') && opens_line(t, i)
}

fn colon_is_notation(text: &Text<'_>, i: usize) -> (r: bool)
    requires
        text.wf(),
        i < text@.len(),
    ensures
        r == notation(text@, i as int),
{
    let _n: usize = text.len();
    digits_both_sides(text, i) || (i > 0 && has_char_at(text, i - 1, ']')) || (has_char_at(
        text,
        i + 1,
        ' ',
    ) && at_line_start(text, i))
}

/// How far the search for a bracket's partner, or for the start of a run of
/// Latin text, reaches, in bytes.
pub const SEARCH_BYTES: usize = 512;

/// How many words make a run of Latin text a clause.
pub const LATIN_CLAUSE_WORDS: usize = 2;

/// The closing bracket that goes with those open, sought from `j` on: on the
/// same line and not behind byte `limit`.
pub open spec fn closing_partner(t: Seq<char>, limit: int, j: int, depth: int) -> Option<int>
    decreases t.len() - j,
{
    if j >= t.len() || byte_pos(t, j) > limit || t[j] == '\n' {
        None
    } else if t[j] == '(' {
        closing_partner(t, limit, j + 1, depth + 1)
    } else if t[j] == ')' {
        if depth == 1 {
            Some(j)
        } else {
            closing_partner(t, limit, j + 1, depth - 1)
        }
    } else {
        closing_partner(t, limit, j + 1, depth)
    }
}

/// The opening bracket that goes with those to be opened, sought from before
/// `j` back: on the same line and not before byte `limit`.
pub open spec fn opening_partner(t: Seq<char>, limit: int, j: int, depth: int) -> Option<int>
    decreases j,
{
    if j <= 0 || byte_pos(t, j - 1) < limit || t[j - 1] == '\n' {
        None
    } else if t[j - 1] == ')' {
        opening_partner(t, limit, j - 1, depth + 1)
    } else if t[j - 1] == '(' {
        if depth == 1 {
            Some(j - 1)
        } else {
            opening_partner(t, limit, j - 1, depth - 1)
        }
    } else {
        opening_partner(t, limit, j - 1, depth)
    }
}

/// The partner of the bracket at `i`.
pub open spec fn bracket_partner(t: Seq<char>, i: int) -> Option<int> {
    if t[i] == '(' {
        closing_partner(t, byte_pos(t, i) + SEARCH_BYTES, i, 0)
    } else {
        opening_partner(t, byte_pos(t, i) - SEARCH_BYTES, i + 1, 0)
    }
}

/// The bracket at `i` and its partner both stand directly between CJK
/// characters, the partner outside the excluded ranges.
pub open spec fn bracket_converts(t: Seq<char>, ex: Seq<ByteRange>, i: int) -> bool {
    enclosed(t, i, i + 1) && match bracket_partner(t, i) {
        Some(j) => !span_excluded(t, ex, j, j + 1) && enclosed(t, j, j + 1),
        None => false,
    }
}

fn find_closing_partner(text: &Text<'_>, i: usize) -> (r: Option<usize>)
    requires
        text.wf(),
        i < text@.len(),
        text@[i as int] == '(',
    ensures
        match (r, closing_partner(text@, byte_pos(text@, i as int) + SEARCH_BYTES, i as int, 0)) {
            (Some(a), Some(b)) => a == b && a < text@.len(),
            (None, None) => true,
            _ => false,
        },
{
    let n: usize = text.len();
    let at: usize = text.byte(i);
    let ghost limit = byte_pos(text@, i as int) + SEARCH_BYTES;
    let mut depth: usize = 0;
    let mut j: usize = i;
    while j < n
        invariant
            text.wf(),
            n == text@.len(),
            i <= j <= n,
            i < n,
            at == byte_pos(text@, i as int),
            limit == at + SEARCH_BYTES,
            depth <= j - i,
            j > i ==> depth >= 1,
            text@[i as int] == '(',
            closing_partner(text@, limit, j as int, depth as int) == closing_partner(
                text@,
                limit,
                i as int,
                0,
            ),
        decreases n - j,
    {
        proof {
            lemma_byte_pos_monotone(text@, i as int, j as int);
        }
        if text.byte(j) - at > SEARCH_BYTES {
            return None;
        }
        let c = text.ch(j);
        if c == '\n' {
            return None;
        } else if c == '(' {
            depth = depth + 1;
        } else if c == ')' {
            if depth == 1 {
                return Some(j);
            }
            depth = depth - 1;
        }
        j = j + 1;
    }
    None
}

fn find_opening_partner(text: &Text<'_>, i: usize) -> (r: Option<usize>)
    requires
        text.wf(),
        i < text@.len(),
        text@[i as int] == ')',
    ensures
        match (r, opening_partner(text@, byte_pos(text@, i as int) - SEARCH_BYTES, i + 1, 0)) {
            (Some(a), Some(b)) => a == b && a < text@.len(),
            (None, None) => true,
            _ => false,
        },
{
    let _n: usize = text.len();
    let at: usize = text.byte(i);
    let ghost limit = byte_pos(text@, i as int) - SEARCH_BYTES;
    let mut depth: usize = 0;
    let mut j: usize = i + 1;
    while j > 0
        invariant
            text.wf(),
            i < text@.len(),
            j <= i + 1,
            at == byte_pos(text@, i as int),
            limit == at - SEARCH_BYTES,
            depth <= i + 1 - j,
            j <= i ==> depth >= 1,
            text@[i as int] == ')',
            opening_partner(text@, limit, j as int, depth as int) == opening_partner(
                text@,
                limit,
                i + 1,
                0,
            ),
        decreases j,
    {
        proof {
            lemma_byte_pos_monotone(text@, j - 1, i as int);
        }
        if at - text.byte(j - 1) > SEARCH_BYTES {
            return None;
        }
        let c = text.ch(j - 1);
        if c == '\n' {
            return None;
        } else if c == ')' {
            depth = depth + 1;
        } else if c == '(' {
            if depth == 1 {
                return Some(j - 1);
            }
            depth = depth - 1;
        }
        j = j - 1;
    }
    None
}

fn is_enclosed(text: &Text<'_>, i: usize) -> (r: bool)
    requires
        text.wf(),
        i < text@.len(),
    ensures
        r == enclosed(text@, i as int, i + 1),
{
    let _n: usize = text.len();
    has_cjk_before(text, i, 0) && has_cjk_after(text, i + 1, 0)
}

fn paren_converts(em: &Emitter<'_>, i: usize) -> (r: bool)
    requires
        em.wf(),
        i < em.chars().len(),
        em.chars()[i as int] == '(' || em.chars()[i as int] == ')',
    ensures
        r == bracket_converts(em.chars(), em.ex(), i as int),
{
    let _n: usize = em.text.len();
    if !is_enclosed(&em.text, i) {
        return false;
    }
    let partner: Option<usize> = if em.text.ch(i) == '(' {
        find_closing_partner(&em.text, i)
    } else {
        find_opening_partner(&em.text, i)
    };
    match partner {
        Some(j) => !em.excluded_span(j, j + 1) && is_enclosed(&em.text, j),
        None => false,
    }
}

/// The character at `i` ends a run of Latin text that reaches back through it.
pub open spec fn closes_run(t: Seq<char>, i: int) -> bool {
    let c = t[i];
    if c == ',' || c == ';' || c == ':' || c == '!' || c == '?' {
        true
    } else if c == '.' {
        !(alphanumeric_at(t, i - 1) && alphanumeric_at(t, i + 1))
    } else if c == ' ' || c == '\t' {
        false
    } else {
        !within(c, 0x21, 0x7E)
    }
}

fn closes_latin_run(text: &Text<'_>, i: usize) -> (r: bool)
    requires
        text.wf(),
        i < text@.len(),
    ensures
        r == closes_run(text@, i as int),
{
    let _n: usize = text.len();
    let c = text.ch(i);
    if c == ',' || c == ';' || c == ':' || c == '!' || c == '?' {
        true
    } else if c == '.' {
        !(i > 0 && has_alphanumeric_at(text, i - 1) && has_alphanumeric_at(text, i + 1))
    } else if c == ' ' || c == '\t' {
        false
    } else {
        let u: u32 = c as u32;
        !(0x21 <= u && u <= 0x7E)
    }
}

/// End of the excluded text before byte `b`: the greatest end of the first `n`
/// ranges that begin before it, or `b` where one reaches past it.
pub open spec fn excluded_floor(ex: Seq<ByteRange>, b: int, n: int) -> int
    decreases n,
{
    if n <= 0 {
        0
    } else {
        let before = excluded_floor(ex, b, n - 1);
        let r = ex[n - 1];
        let end = if r.end > b {
            b
        } else {
            r.end as int
        };
        if r.start < b && end > before {
            end
        } else {
            before
        }
    }
}

fn excluded_run_floor(excluded: &[ByteRange], b: usize) -> (r: usize)
    ensures
        r == excluded_floor(excluded@, b as int, excluded@.len() as int),
        r <= b,
{
    let mut floor: usize = 0;
    let mut k: usize = 0;
    while k < excluded.len()
        invariant
            k <= excluded@.len(),
            floor == excluded_floor(excluded@, b as int, k as int),
            floor <= b,
        decreases excluded@.len() - k,
    {
        let r = excluded[k];
        let end: usize = if r.end > b {
            b
        } else {
            r.end
        };
        if r.start < b && end > floor {
            floor = end;
        }
        k = k + 1;
    }
    floor
}

/// How far back a run of Latin text that ends at `i` may reach, in bytes.
pub open spec fn run_floor(t: Seq<char>, ex: Seq<ByteRange>, i: int) -> int {
    let at = byte_pos(t, i);
    let by_exclusion = excluded_floor(ex, at, ex.len() as int);
    if at - SEARCH_BYTES > by_exclusion {
        at - SEARCH_BYTES
    } else {
        by_exclusion
    }
}

/// Start of the run of Latin text that ends at `i`.
pub open spec fn run_start(t: Seq<char>, floor: int, i: int) -> int
    decreases i,
{
    if i > 0 && byte_pos(t, i) > floor && !closes_run(t, i - 1) {
        run_start(t, floor, i - 1)
    } else {
        i
    }
}

/// The word that goes on at `p` has a letter before it.
pub open spec fn in_word(t: Seq<char>, from: int, p: int) -> bool
    decreases p - from,
{
    if p <= from || t[p - 1] == ' ' || t[p - 1] == '\t' {
        false
    } else {
        ascii_letter(t[p - 1]) || in_word(t, from, p - 1)
    }
}

/// The first letter of a word stands at `p`. A word is what blanks divide,
/// where it holds a letter.
pub open spec fn heads_word(t: Seq<char>, from: int) -> spec_fn(int) -> bool {
    |p: int| ascii_letter(t[p]) && !in_word(t, from, p)
}

/// The mark at `i` ends a clause in Latin script: a run of at least two words,
/// one of which begins in lower case.
pub open spec fn ends_latin_clause(t: Seq<char>, ex: Seq<ByteRange>, i: int) -> bool {
    let from = run_start(t, run_floor(t, ex, i), i);
    &&& count_where(from, i, heads_word(t, from)) >= LATIN_CLAUSE_WORDS
    &&& exists|p: int|
        from <= p < i && #[trigger] heads_word(t, from)(p) && within(t[p], 0x61, 0x7A)
}

fn in_latin_clause(em: &Emitter<'_>, i: usize) -> (r: bool)
    requires
        em.wf(),
        i <= em.chars().len(),
    ensures
        r == ends_latin_clause(em.chars(), em.ex(), i as int),
{
    let ghost t = em.chars();
    let at: usize = em.text.byte(i);
    let by_exclusion: usize = excluded_run_floor(em.excluded.as_slice(), at);
    let floor: usize = if at > SEARCH_BYTES && at - SEARCH_BYTES > by_exclusion {
        at - SEARCH_BYTES
    } else {
        by_exclusion
    };
    assert(floor == run_floor(t, em.ex(), i as int));
    let mut start: usize = i;
    while start > 0 && em.text.byte(start) > floor && !closes_latin_run(&em.text, start - 1)
        invariant
            em.wf(),
            t == em.chars(),
            start <= i <= t.len(),
            run_start(t, floor as int, start as int) == run_start(t, floor as int, i as int),
        decreases start,
    {
        start = start - 1;
    }
    let ghost from = start as int;
    let ghost f = heads_word(t, from);
    let mut words: usize = 0;
    let mut lower: bool = false;
    let mut within_word: bool = false;
    let mut p: usize = start;
    while p < i
        invariant
            em.wf(),
            t == em.chars(),
            from == start,
            f == heads_word(t, from),
            start <= p <= i <= t.len(),
            words == count_where(from, p as int, f),
            words <= p - start,
            within_word == in_word(t, from, p as int),
            lower == exists|q: int|
                from <= q < p && #[trigger] f(q) && within(t[q], 0x61, 0x7A),
        decreases i - p,
    {
        let c = em.text.ch(p);
        let ghost was = lower;
        if is_ascii_letter(c) && !within_word {
            words = words + 1;
            let u: u32 = c as u32;
            if 0x61 <= u && u <= 0x7A {
                assert(f(p as int));
                lower = true;
            }
        }
        proof {
            if was {
                let q = choose|q: int|
                    from <= q < p && #[trigger] f(q) && within(t[q], 0x61, 0x7A);
                assert(f(q));
            }
        }
        within_word = c != ' ' && c != '\t' && (is_ascii_letter(c) || within_word);
        p = p + 1;
    }
    words >= LATIN_CLAUSE_WORDS && lower
}

/// The Chinese text around the mark at `i` owns it: there is some beside it,
/// and the mark ends no Latin clause.
pub open spec fn chinese_mark(t: Seq<char>, ex: Seq<ByteRange>, i: int) -> bool {
    beside(t, i, i + 1) && !ends_latin_clause(t, ex, i)
}

fn mark_is_chinese_owned(em: &Emitter<'_>, i: usize) -> (r: bool)
    requires
        em.wf(),
        i < em.chars().len(),
    ensures
        r == chinese_mark(em.chars(), em.ex(), i as int),
{
    let _n: usize = em.text.len();
    (has_cjk_before(&em.text, i, usize::MAX) || has_cjk_after(&em.text, i + 1, usize::MAX))
        && !in_latin_clause(em, i)
}

/// The plan's mark at position `i`.
pub open spec fn planned(plan: Seq<QuoteMark>, i: int) -> Option<QuoteMark> {
    if exists|k: int| 0 <= k < plan.len() && (#[trigger] plan[k]).pos == i {
        Some(plan[choose|k: int| 0 <= k < plan.len() && (#[trigger] plan[k]).pos == i])
    } else {
        None
    }
}

/// A warning to write the mark at `i` another way.
pub open spec fn rewrite(t: Seq<char>, i: int, suggestion: Seq<char>, said: Seq<char>) -> IssueModel {
    punct_issue(t, i, i + 1, suggestion, Severity::Warning, said)
}

/// What is wrong with the character `i`, the straight quotation marks of
/// `plan` being those that convert.
pub open spec fn punctuation_at(
    t: Seq<char>,
    ex: Seq<ByteRange>,
    colons: bool,
    plan: Seq<QuoteMark>,
    i: int,
) -> Seq<IssueModel> {
    let c = t[i];
    if span_excluded(t, ex, i, i + 1) {
        Seq::empty()
    } else if c == ',' {
        if_so(
            !between_digits(t, i) && chinese_mark(t, ex, i),
            rewrite(t, i, "，"@, "繁體中文應使用全形逗號「，」而非半形逗號「,」"@),
        )
    } else if c == '.' {
        if_so(
            !char_at(t, i - 1, '.') && !char_at(t, i + 1, '.') && !alphanumeric_at(t, i + 1)
                && cjk_before(t, i, usize::MAX as int),
            rewrite(t, i, "。"@, "繁體中文應使用全形句號「。」而非半形句號「.」"@),
        )
    } else if c == '!' {
        if_so(
            !char_at(t, i + 1, '[') && chinese_mark(t, ex, i),
            rewrite(t, i, "！"@, "繁體中文應使用全形驚嘆號「！」而非半形「!」"@),
        )
    } else if c == '?' {
        if_so(
            chinese_mark(t, ex, i),
            rewrite(t, i, "？"@, "繁體中文應使用全形問號「？」而非半形「?」"@),
        )
    } else if c == ';' {
        if_so(
            chinese_mark(t, ex, i),
            rewrite(t, i, "；"@, "繁體中文應使用全形分號「；」而非半形「;」"@),
        )
    } else if c == '(' {
        if_so(
            bracket_converts(t, ex, i),
            rewrite(t, i, "（"@, "繁體中文應使用全形左括號「（」而非半形「(」"@),
        )
    } else if c == ')' {
        if_so(
            bracket_converts(t, ex, i),
            rewrite(t, i, "）"@, "繁體中文應使用全形右括號「）」而非半形「)」"@),
        )
    } else if c == ':' {
        if_so(
            colons && !notation(t, i) && chinese_mark(t, ex, i),
            rewrite(t, i, "："@, "繁體中文應使用全形冒號「：」而非半形「:」"@),
        )
    } else if c == '"' {
        match planned(plan, i) {
            Some(mark) => seq![
                rewrite(
                    t,
                    i,
                    if mark.opening {
                        "「"@
                    } else {
                        "」"@
                    },
                    "繁體中文應使用「」引號而非半形雙引號「\"」"@,
                ),
            ],
            None => Seq::empty(),
        }
    } else {
        Seq::empty()
    }
}

pub open spec fn punctuation_rule(
    t: Seq<char>,
    ex: Seq<ByteRange>,
    colons: bool,
    plan: Seq<QuoteMark>,
) -> spec_fn(int) -> Seq<IssueModel> {
    |i: int| punctuation_at(t, ex, colons, plan, i)
}

/// The marks of one kind that convert in the whole text.
pub open spec fn whole_plan(t: Seq<char>, ex: Seq<ByteRange>, kind: QuoteKind) -> Seq<QuoteMark> {
    plan_of(t, ex, kind, paragraphs_of(t), paragraphs_of(t).len() as int)
}

fn warn(em: &mut Emitter<'_>, i: usize, suggestion: &str, said: &str)
    requires
        old(em).wf(),
        i < old(em).chars().len(),
    ensures
        final(em).wf(),
        final(em).extends(
            old(em),
            seq![rewrite(old(em).chars(), i as int, suggestion@, said@)],
        ),
{
    let _n: usize = em.text.len();
    em.report_punctuation(i, i + 1, suggestion.to_owned(), Severity::Warning, said);
}

/// Checks a mark other than a quotation mark.
fn check_mark(em: &mut Emitter<'_>, i: usize, colons: bool, Ghost(plan): Ghost<Seq<QuoteMark>>)
    requires
        old(em).wf(),
        i < old(em).chars().len(),
        !span_excluded(old(em).chars(), old(em).ex(), i as int, i + 1),
        old(em).chars()[i as int] != '"',
    ensures
        final(em).wf(),
        final(em).extends(
            old(em),
            punctuation_at(old(em).chars(), old(em).ex(), colons, plan, i as int),
        ),
{
    let ghost start = *em;
    let _n: usize = em.text.len();
    let c = em.text.ch(i);
    if c == ',' {
        if !digits_both_sides(&em.text, i) && mark_is_chinese_owned(em, i) {
            warn(em, i, "，", "繁體中文應使用全形逗號「，」而非半形逗號「,」");
        }
    } else if c == '.' {
        if !(i > 0 && has_char_at(&em.text, i - 1, '.')) && !has_char_at(&em.text, i + 1, '.')
            && !has_alphanumeric_at(&em.text, i + 1) && has_cjk_before(
            &em.text,
            i,
            usize::MAX,
        ) {
            warn(em, i, "。", "繁體中文應使用全形句號「。」而非半形句號「.」");
        }
    } else if c == '!' {
        if !has_char_at(&em.text, i + 1, '[') && mark_is_chinese_owned(em, i) {
            warn(em, i, "！", "繁體中文應使用全形驚嘆號「！」而非半形「!」");
        }
    } else if c == '?' {
        if mark_is_chinese_owned(em, i) {
            warn(em, i, "？", "繁體中文應使用全形問號「？」而非半形「?」");
        }
    } else if c == ';' {
        if mark_is_chinese_owned(em, i) {
            warn(em, i, "；", "繁體中文應使用全形分號「；」而非半形「;」");
        }
    } else if c == '(' {
        if paren_converts(em, i) {
            warn(em, i, "（", "繁體中文應使用全形左括號「（」而非半形「(」");
        }
    } else if c == ')' {
        if paren_converts(em, i) {
            warn(em, i, "）", "繁體中文應使用全形右括號「）」而非半形「)」");
        }
    } else if c == ':' {
        if colons && !colon_is_notation(&em.text, i) && mark_is_chinese_owned(em, i) {
            warn(em, i, "：", "繁體中文應使用全形冒號「：」而非半形「:」");
        }
    }
    assert(em.out() =~= start.out() + punctuation_at(
        start.chars(),
        start.ex(),
        colons,
        plan,
        i as int,
    ));
}

/// Half-width marks that Chinese text writes full-width.
pub fn scan_punctuation(em: &mut Emitter<'_>, cfg: &ProfileConfig)
    requires
        old(em).wf(),
    ensures
        final(em).wf(),
        final(em).extends(
            old(em),
            each(
                old(em).chars().len() as int,
                punctuation_rule(
                    old(em).chars(),
                    old(em).ex(),
                    cfg.colon_enforcement,
                    whole_plan(old(em).chars(), old(em).ex(), QuoteKind::AsciiDouble),
                ),
            ),
        ),
{
    let ghost start = *em;
    let n: usize = em.text.len();
    let plan = plan_quote_conversions(&em.text, em.excluded.as_slice(), QuoteKind::AsciiDouble);
    let ghost f = punctuation_rule(em.chars(), em.ex(), cfg.colon_enforcement, plan@);
    let mut cursor: usize = 0;
    let mut i: usize = 0;
    assert(em.out() =~= start.out() + each(0, f));
    while i < n
        invariant
            em.wf(),
            n == em.chars().len(),
            i <= n,
            f == punctuation_rule(start.chars(), start.ex(), cfg.colon_enforcement, plan@),
            ascending(plan@),
            cursor <= plan@.len(),
            forall|k: int| 0 <= k < cursor ==> (#[trigger] plan@[k]).pos < i,
            forall|k: int| cursor <= k < plan@.len() ==> (#[trigger] plan@[k]).pos >= i,
            em.extends(&start, each(i as int, f)),
        decreases n - i,
    {
        let ghost here = *em;
        let here_planned: bool = cursor < plan.len() && plan[cursor].pos == i;
        proof {
            if here_planned {
                assert(plan@[cursor as int].pos == i);
                let k = choose|k: int| 0 <= k < plan@.len() && (#[trigger] plan@[k]).pos == i;
                assert(k == cursor);
            } else {
                assert forall|k: int| 0 <= k < plan@.len() implies (#[trigger] plan@[k]).pos
                    != i by {
                    if k > cursor {
                        assert(plan@[cursor as int].pos < plan@[k].pos);
                    }
                }
            }
        }
        if !em.excluded_span(i, i + 1) {
            if em.text.ch(i) == '"' {
                if here_planned {
                    let opening: bool = plan[cursor].opening;
                    warn(
                        em,
                        i,
                        if opening {
                            "「"
                        } else {
                            "」"
                        },
                        "繁體中文應使用「」引號而非半形雙引號「\"」",
                    );
                }
            } else {
                check_mark(em, i, cfg.colon_enforcement, Ghost(plan@));
            }
        }
        assert(f(i as int) == punctuation_at(
            start.chars(),
            start.ex(),
            cfg.colon_enforcement,
            plan@,
            i as int,
        ));
        assert(em.out() =~= start.out() + (each(i as int, f) + f(i as int)));
        if here_planned {
            proof {
                assert forall|k: int| cursor + 1 <= k < plan@.len() implies (#[trigger] plan@[k]).pos
                    >= i + 1 by {
                    assert(plan@[cursor as int].pos < plan@[k].pos);
                }
            }
            cursor = cursor + 1;
        }
        i = i + 1;
    }
}

/// How many more brackets open than close within `a..b`.
spec fn net(t: Seq<char>, a: int, b: int) -> int
    decreases b - a,
{
    if b <= a {
        0
    } else {
        net(t, a, b - 1) + (if t[b - 1] == '(' {
            1int
        } else if t[b - 1] == ')' {
            -1int
        } else {
            0int
        })
    }
}

proof fn lemma_net_split(t: Seq<char>, a: int, m: int, b: int)
    requires
        a <= m <= b,
    ensures
        net(t, a, b) == net(t, a, m) + net(t, m, b),
    decreases b - m,
{
    if m < b {
        lemma_net_split(t, a, m, b - 1);
    }
}

/// The bracket at `j` closes the one at `i`: on one line, and nothing between
/// them closes it before.
spec fn closes(t: Seq<char>, i: int, j: int) -> bool {
    &&& 0 <= i < j < t.len()
    &&& t[i] == '('
    &&& t[j] == ')'
    &&& forall|k: int| i <= k <= j ==> #[trigger] t[k] != '\n'
    &&& forall|k: int| i < k <= j ==> #[trigger] net(t, i, k) >= 1
    &&& net(t, i, j) == 1
}

proof fn lemma_forward_finds(t: Seq<char>, limit: int, i: int, k: int)
    requires
        0 <= i < k,
        t[i] == '(',
        forall|m: int| i <= m < k && m < t.len() ==> #[trigger] t[m] != '\n',
        forall|m: int| i < m <= k ==> #[trigger] net(t, i, m) >= 1,
        closing_partner(t, limit, k, net(t, i, k)) is Some,
    ensures
        closes(t, i, closing_partner(t, limit, k, net(t, i, k))->0),
        byte_pos(t, closing_partner(t, limit, k, net(t, i, k))->0) <= limit,
    decreases t.len() - k,
{
    let d = net(t, i, k);
    assert(d >= 1);
    assert(net(t, i, k + 1) == d + (if t[k] == '(' {
        1int
    } else if t[k] == ')' {
        -1int
    } else {
        0int
    }));
    if !(t[k] == ')' && d == 1) {
        lemma_forward_finds(t, limit, i, k + 1);
    }
}

proof fn lemma_backward_reaches(t: Seq<char>, limit: int, i: int, j: int, k: int)
    requires
        closes(t, i, j),
        i < k <= j,
        byte_pos(t, i) >= limit,
    ensures
        opening_partner(t, limit, k, net(t, i, k)) == Some(i),
    decreases k - i,
{
    lemma_byte_pos_monotone(t, i, k - 1);
    assert(t[k - 1] != '\n');
    assert(net(t, i, k) >= 1);
    if k - 1 > i {
        assert(net(t, i, k - 1) >= 1);
        lemma_backward_reaches(t, limit, i, j, k - 1);
    } else {
        assert(net(t, i, i) == 0);
    }
}

proof fn lemma_backward_finds(t: Seq<char>, limit: int, j: int, k: int)
    requires
        0 <= k <= j < t.len(),
        t[j] == ')',
        forall|m: int| k <= m <= j ==> #[trigger] t[m] != '\n',
        forall|m: int| k <= m <= j ==> #[trigger] net(t, m, j + 1) <= -1,
        opening_partner(t, limit, k, -net(t, k, j + 1)) is Some,
    ensures
        closes(t, opening_partner(t, limit, k, -net(t, k, j + 1))->0, j),
        byte_pos(t, opening_partner(t, limit, k, -net(t, k, j + 1))->0) >= limit,
    decreases k,
{
    let d = -net(t, k, j + 1);
    lemma_net_split(t, k - 1, k, j + 1);
    assert(net(t, k - 1, k) == (if t[k - 1] == '(' {
        1int
    } else if t[k - 1] == ')' {
        -1int
    } else {
        0int
    })) by {
        assert(net(t, k - 1, k - 1) == 0);
    }
    if t[k - 1] == '(' && d == 1 {
        let i = k - 1;
        assert(net(t, i, j + 1) == 0);
        assert forall|m: int| i < m <= j implies #[trigger] net(t, i, m) >= 1 by {
            lemma_net_split(t, i, m, j + 1);
            assert(net(t, m, j + 1) <= -1);
        }
        lemma_net_split(t, i, j, j + 1);
        assert(net(t, j, j + 1) == -1) by {
            assert(net(t, j, j) == 0);
        }
    } else {
        lemma_backward_finds(t, limit, j, k - 1);
    }
}

proof fn lemma_forward_reaches(t: Seq<char>, limit: int, i: int, j: int, k: int)
    requires
        closes(t, i, j),
        i < k <= j,
        byte_pos(t, j) <= limit,
    ensures
        closing_partner(t, limit, k, net(t, i, k)) == Some(j),
    decreases j - k,
{
    lemma_byte_pos_monotone(t, k, j);
    assert(t[k] != '\n');
    assert(net(t, i, k) >= 1);
    if k < j {
        assert(net(t, i, k + 1) >= 1);
        lemma_forward_reaches(t, limit, i, j, k + 1);
    }
}

/// A bracket that converts has a partner that converts with it.
pub proof fn law_brackets_convert_together(t: Seq<char>, ex: Seq<ByteRange>, i: int)
    requires
        0 <= i < t.len(),
        t[i] == '(' || t[i] == ')',
        !span_excluded(t, ex, i, i + 1),
        bracket_converts(t, ex, i),
    ensures
        bracket_partner(t, i) is Some,
        ({
            let j = bracket_partner(t, i)->0;
            &&& 0 <= j < t.len()
            &&& t[j] == (if t[i] == '(' { ')' } else { '(' })
            &&& bracket_partner(t, j) == Some(i)
            &&& bracket_converts(t, ex, j)
        }),
{
    let j = bracket_partner(t, i)->0;
    if t[i] == '(' {
        let limit = byte_pos(t, i) + SEARCH_BYTES;
        assert(net(t, i, i) == 0);
        assert(net(t, i, i + 1) == 1);
        assert(closing_partner(t, limit, i, 0) == closing_partner(t, limit, i + 1, 1));
        lemma_forward_finds(t, limit, i, i + 1);
        let back = byte_pos(t, j) - SEARCH_BYTES;
        lemma_backward_reaches(t, back, i, j, j);
        lemma_byte_pos_monotone(t, i, j);
        assert(opening_partner(t, back, j + 1, 0) == opening_partner(t, back, j, 1));
    } else {
        let limit = byte_pos(t, i) - SEARCH_BYTES;
        assert(net(t, i, i) == 0);
        assert(net(t, i, i + 1) == -1);
        assert(opening_partner(t, limit, i + 1, 0) == opening_partner(t, limit, i, 1));
        lemma_backward_finds(t, limit, i, i);
        let ahead = byte_pos(t, j) + SEARCH_BYTES;
        assert(net(t, j, j) == 0);
        assert(net(t, j, j + 1) == 1);
        lemma_byte_pos_monotone(t, j, i);
        lemma_forward_reaches(t, ahead, j, i, j + 1);
        assert(closing_partner(t, ahead, j, 0) == closing_partner(t, ahead, j + 1, 1));
    }
}

/// The full-width mark that stands for a half-width one.
pub open spec fn full_width_of(c: char) -> Seq<char> {
    if c == ',' {
        seq!['，']
    } else if c == '.' {
        seq!['。']
    } else if c == '!' {
        seq!['！']
    } else if c == '?' {
        seq!['？']
    } else if c == ';' {
        seq!['；']
    } else {
        seq!['：']
    }
}

proof fn lemma_no_heads(t: Seq<char>, from: int, i: int, to: int)
    requires
        from <= i <= to,
        forall|q: int| i <= q < to ==> !ascii_letter(#[trigger] t[q]),
    ensures
        count_where(from, to, heads_word(t, from)) == count_where(from, i, heads_word(t, from)),
    decreases to - i,
{
    if i < to {
        assert(!ascii_letter(t[to - 1]));
        assert(!heads_word(t, from)(to - 1));
        lemma_no_heads(t, from, i, to - 1);
    }
}

proof fn lemma_run_start(t: Seq<char>, floor: int, i: int)
    ensures
        run_start(t, floor, i) <= i,
        i >= 0 ==> run_start(t, floor, i) >= 0,
    decreases i,
{
    if i > 0 && byte_pos(t, i) > floor && !closes_run(t, i - 1) {
        lemma_run_start(t, floor, i - 1);
    }
}

proof fn lemma_mark_reported(
    t: Seq<char>,
    ex: Seq<ByteRange>,
    colons: bool,
    plan: Seq<QuoteMark>,
    i: int,
    to: Seq<char>,
)
    requires
        0 <= i < t.len(),
        punctuation_at(t, ex, colons, plan, i).len() == 1,
        punctuation_at(t, ex, colons, plan, i)[0].offset == byte_pos(t, i),
        punctuation_at(t, ex, colons, plan, i)[0].length == byte_pos(t, i + 1) - byte_pos(t, i),
        punctuation_at(t, ex, colons, plan, i)[0].suggestions == seq![to],
    ensures
        suggested(
            each(t.len() as int, punctuation_rule(t, ex, colons, plan)),
            byte_pos(t, i),
            byte_pos(t, i + 1),
            seq![to],
        ),
{
    let f = punctuation_rule(t, ex, colons, plan);
    assert(f(i) == punctuation_at(t, ex, colons, plan, i));
    let k = lemma_each_holds(t.len() as int, f, i, 0);
    assert(each(t.len() as int, f)[k] == f(i)[0]);
}

/// A half-width comma, exclamation mark, question mark, semicolon, colon or full
/// stop behind a CJK ideograph, with at most blanks between, is reported, with its full-width form as
/// the suggestion. A full stop has to end what it stands in, an exclamation mark
/// may not open an image, and colons count where the profile says so.
pub proof fn law_half_width_marks_behind_chinese(
    t: Seq<char>,
    ex: Seq<ByteRange>,
    colons: bool,
    plan: Seq<QuoteMark>,
    j: int,
    i: int,
)
    requires
        0 <= j < i < t.len(),
        t.len() <= usize::MAX,
        cjk_ideograph(t[j]),
        forall|q: int| j < q < i ==> #[trigger] t[q] == ' ',
        forall|k: int|
            0 <= k < ex.len() ==> (#[trigger] ex[k]).end <= byte_pos(t, i) || ex[k].start
                >= byte_pos(t, i + 1),
        ({
            ||| t[i] == ',' || t[i] == '?' || t[i] == ';'
            ||| t[i] == '!' && (i + 1 < t.len() ==> t[i + 1] != '[')
            ||| t[i] == ':' && colons
            ||| t[i] == '.' && (i + 1 < t.len() ==> t[i + 1] != '.' && !ascii_letter(t[i + 1])
                && !ascii_digit(t[i + 1]))
        }),
    ensures
        suggested(
            each(t.len() as int, punctuation_rule(t, ex, colons, plan)),
            byte_pos(t, i),
            byte_pos(t, i + 1),
            seq![full_width_of(t[i])],
        ),
{
    lemma_full_width_strings();
    lemma_byte_pos_monotone(t, i, i + 1);
    assert(!span_excluded(t, ex, i, i + 1));
    assert(closes_run(t, j));
    let from = run_start(t, run_floor(t, ex, i), i);
    lemma_run_stops(t, run_floor(t, ex, i), j + 1, i);
    assert forall|q: int| from <= q < i implies !ascii_letter(#[trigger] t[q]) by {
        assert(t[q] == ' ');
    }
    lemma_no_heads(t, from, from, i);
    assert(count_where(from, from, heads_word(t, from)) == 0);
    assert(!ends_latin_clause(t, ex, i));
    lemma_trimmed_to(t, j, i);
    lemma_byte_pos_monotone(t, 0, i);
    assert(i - (j + 1) <= usize::MAX);
    assert(cjk_before(t, i, usize::MAX as int));
    assert(beside(t, i, i + 1));
    assert(chinese_mark(t, ex, i));
    lemma_blanks_to(t, j, i);
    assert(i > j + 1 ==> t[i - 1] == ' ');
    lemma_mark_reported(t, ex, colons, plan, i, full_width_of(t[i]));
}

proof fn lemma_trimmed_to(t: Seq<char>, j: int, i: int)
    requires
        0 <= j < i <= t.len(),
        cjk_ideograph(t[j]),
        forall|q: int| j < q < i ==> #[trigger] t[q] == ' ',
    ensures
        trim_white_end(t, 0, i) == j + 1,
    decreases i - j,
{
    if j + 1 < i {
        assert(t[i - 1] == ' ');
        lemma_trimmed_to(t, j, i - 1);
    }
}

proof fn lemma_blanks_to(t: Seq<char>, j: int, i: int)
    requires
        0 <= j < i <= t.len(),
        cjk_ideograph(t[j]),
        forall|q: int| j < q < i ==> #[trigger] t[q] == ' ',
    ensures
        before_blanks(t, i) == j + 1,
    decreases i - j,
{
    if j + 1 < i {
        assert(t[i - 1] == ' ');
        lemma_blanks_to(t, j, i - 1);
    }
}

proof fn lemma_full_width_strings()
    ensures
        "，"@ =~= seq!['，'],
        "。"@ =~= seq!['。'],
        "！"@ =~= seq!['！'],
        "？"@ =~= seq!['？'],
        "；"@ =~= seq!['；'],
        "："@ =~= seq!['：'],
        "（"@ =~= seq!['（'],
        "）"@ =~= seq!['）'],
        "「"@ =~= seq!['「'],
        "」"@ =~= seq!['」'],
{
    reveal_strlit("，");
    reveal_strlit("。");
    reveal_strlit("！");
    reveal_strlit("？");
    reveal_strlit("；");
    reveal_strlit("：");
    reveal_strlit("（");
    reveal_strlit("）");
    reveal_strlit("「");
    reveal_strlit("」");
}

/// The same marks right before a CJK ideograph are reported where no Latin
/// letter stands before them, and a comma or colon not where a digit stands on
/// either side.
pub proof fn law_half_width_marks_before_chinese(
    t: Seq<char>,
    ex: Seq<ByteRange>,
    colons: bool,
    plan: Seq<QuoteMark>,
    i: int,
)
    requires
        0 < i,
        i + 1 < t.len(),
        cjk_ideograph(t[i + 1]),
        forall|q: int|
            0 <= q < i ==> !(0x41 <= (#[trigger] t[q]) as int <= 0x5A) && !(0x61 <= t[q] as int
                <= 0x7A),
        forall|k: int|
            0 <= k < ex.len() ==> (#[trigger] ex[k]).end <= byte_pos(t, i) || ex[k].start
                >= byte_pos(t, i + 1),
        ({
            ||| t[i] == ',' || t[i] == '?' || t[i] == ';' || t[i] == '!'
            ||| t[i] == ':' && colons && t[i - 1] != ']'
        }),
    ensures
        suggested(
            each(t.len() as int, punctuation_rule(t, ex, colons, plan)),
            byte_pos(t, i),
            byte_pos(t, i + 1),
            seq![full_width_of(t[i])],
        ),
{
    lemma_full_width_strings();
    lemma_byte_pos_monotone(t, i, i + 1);
    assert(!span_excluded(t, ex, i, i + 1));
    let from = run_start(t, run_floor(t, ex, i), i);
    lemma_run_start(t, run_floor(t, ex, i), i);
    lemma_no_heads(t, from, from, i);
    assert(count_where(from, from, heads_word(t, from)) == 0);
    assert(!ends_latin_clause(t, ex, i));
    assert(skip_white(t, i + 1, t.len() as int) == i + 1);
    assert(cjk_after(t, i + 1, usize::MAX as int));
    assert(beside(t, i, i + 1));
    assert(chinese_mark(t, ex, i));
    lemma_mark_reported(t, ex, colons, plan, i, full_width_of(t[i]));
}

/// A comma or a colon between two digits is left alone.
pub proof fn law_marks_within_numbers_stay(
    t: Seq<char>,
    ex: Seq<ByteRange>,
    colons: bool,
    plan: Seq<QuoteMark>,
    i: int,
)
    requires
        0 < i,
        i + 1 < t.len(),
        t[i] == ',' || t[i] == ':',
        0x30 <= t[i - 1] as int <= 0x39,
        0x30 <= t[i + 1] as int <= 0x39,
    ensures
        forall|k: int|
            0 <= k < each(t.len() as int, punctuation_rule(t, ex, colons, plan)).len() ==> (
            #[trigger] each(t.len() as int, punctuation_rule(t, ex, colons, plan))[k]).offset
                != byte_pos(t, i),
{
    let f = punctuation_rule(t, ex, colons, plan);
    let v = each(t.len() as int, f);
    assert forall|k: int| 0 <= k < v.len() implies (#[trigger] v[k]).offset != byte_pos(t, i) by {
        let j = lemma_each_source(t.len() as int, f, k);
        assert(f(j) == punctuation_at(t, ex, colons, plan, j));
        let w = f(j);
        let x = choose|x: int| 0 <= x < w.len() && w[x] == v[k];
        assert(v[k].offset == byte_pos(t, j));
        if j < i {
            lemma_byte_pos_monotone(t, j, i);
        } else if i < j {
            lemma_byte_pos_monotone(t, i, j);
        }
    }
}

/// A text without CJK characters and marks has its half-width marks left alone.
pub proof fn law_foreign_text_keeps_its_marks(
    t: Seq<char>,
    ex: Seq<ByteRange>,
    colons: bool,
)
    requires
        forall|q: int| 0 <= q < t.len() ==> !cjk_context(#[trigger] t[q]),
    ensures
        each(
            t.len() as int,
            punctuation_rule(t, ex, colons, Seq::empty()),
        ) == Seq::<IssueModel>::empty(),
{
    let f = punctuation_rule(t, ex, colons, Seq::empty());
    let v = each(t.len() as int, f);
    if v.len() > 0 {
        let i = lemma_each_source(t.len() as int, f, 0);
        assert(f(i) == punctuation_at(t, ex, colons, Seq::empty(), i));
        lemma_nothing_beside(t, i);
        assert(planned(Seq::empty(), i) is None);
        assert(f(i).len() == 0);
    }
    assert(v =~= Seq::empty());
}

proof fn lemma_nothing_beside(t: Seq<char>, i: int)
    requires
        0 <= i < t.len(),
        forall|q: int| 0 <= q < t.len() ==> !cjk_context(#[trigger] t[q]),
    ensures
        !cjk_before(t, i, usize::MAX as int),
        !beside(t, i, i + 1),
        !enclosed(t, i, i + 1),
{
    lemma_trim_white_end(t, 0, i);
    lemma_skip_white(t, i + 1, t.len() as int);
}

/// An opening and a closing half-width bracket directly between CJK characters,
/// with neither a bracket nor a line feed between them and at most 512 bytes
/// apart, are both reported, with their full-width forms.
pub proof fn law_a_bracket_pair_converts(
    t: Seq<char>,
    ex: Seq<ByteRange>,
    colons: bool,
    plan: Seq<QuoteMark>,
    i: int,
    j: int,
)
    requires
        0 < i,
        i + 1 < j,
        j + 1 < t.len(),
        t[i] == '(',
        t[j] == ')',
        forall|q: int|
            i < q < j ==> #[trigger] t[q] != '(' && t[q] != ')' && t[q] != '\n',
        cjk_context(t[i - 1]) && cjk_context(t[i + 1]) && cjk_context(t[j - 1]) && cjk_context(
            t[j + 1],
        ),
        byte_pos(t, j) - byte_pos(t, i) <= 512,
        forall|k: int|
            0 <= k < ex.len() ==> ((#[trigger] ex[k]).end <= byte_pos(t, i) || ex[k].start
                >= byte_pos(t, i + 1)) && (ex[k].end <= byte_pos(t, j) || ex[k].start >= byte_pos(
                t,
                j + 1,
            )),
    ensures
        suggested(
            each(t.len() as int, punctuation_rule(t, ex, colons, plan)),
            byte_pos(t, i),
            byte_pos(t, i + 1),
            seq![seq!['（']],
        ),
        suggested(
            each(t.len() as int, punctuation_rule(t, ex, colons, plan)),
            byte_pos(t, j),
            byte_pos(t, j + 1),
            seq![seq!['）']],
        ),
{
    lemma_full_width_strings();
    lemma_byte_pos_monotone(t, i, i + 1);
    lemma_byte_pos_monotone(t, j, j + 1);
    assert(!span_excluded(t, ex, i, i + 1));
    assert(!span_excluded(t, ex, j, j + 1));
    lemma_closing_at(t, byte_pos(t, i) + SEARCH_BYTES, i + 1, j);
    lemma_opening_at(t, byte_pos(t, j) - SEARCH_BYTES, j, i);
    lemma_enclosed(t, i);
    lemma_enclosed(t, j);
    assert(bracket_partner(t, i) == Some(j));
    assert(bracket_partner(t, j) == Some(i));
    lemma_mark_reported(t, ex, colons, plan, i, seq!['（']);
    lemma_mark_reported(t, ex, colons, plan, j, seq!['）']);
}

proof fn lemma_enclosed(t: Seq<char>, i: int)
    requires
        0 < i,
        i + 1 < t.len(),
        cjk_context(t[i - 1]),
        cjk_context(t[i + 1]),
    ensures
        enclosed(t, i, i + 1),
{
    assert(trim_white_end(t, 0, i) == i);
    assert(skip_white(t, i + 1, t.len() as int) == i + 1);
}

proof fn lemma_closing_at(t: Seq<char>, limit: int, k: int, j: int)
    requires
        0 <= k <= j < t.len(),
        t[j] == ')',
        forall|q: int|
            k <= q < j ==> #[trigger] t[q] != '(' && t[q] != ')' && t[q] != '\n',
        byte_pos(t, j) <= limit,
    ensures
        closing_partner(t, limit, k, 1) == Some(j),
    decreases j - k,
{
    lemma_byte_pos_monotone(t, k, j);
    if k < j {
        assert(t[k] != '(' && t[k] != ')');
        lemma_closing_at(t, limit, k + 1, j);
    }
}

proof fn lemma_opening_at(t: Seq<char>, limit: int, k: int, i: int)
    requires
        0 <= i < k <= t.len(),
        t[i] == '(',
        forall|q: int|
            i < q < k ==> #[trigger] t[q] != '(' && t[q] != ')' && t[q] != '\n',
        byte_pos(t, i) >= limit,
    ensures
        opening_partner(t, limit, k, 1) == Some(i),
    decreases k - i,
{
    lemma_byte_pos_monotone(t, i, k - 1);
    if i < k - 1 {
        assert(t[k - 1] != '(' && t[k - 1] != ')');
        lemma_opening_at(t, limit, k - 1, i);
    }
}

/// In a text of one paragraph with two straight double quotation marks, around
/// Chinese and with no Latin letter or with Chinese outside, the first mark
/// becomes 「 and the second 」.
pub proof fn law_straight_quotation_becomes_corner_brackets(
    t: Seq<char>,
    ex: Seq<ByteRange>,
    colons: bool,
    o: int,
    c: int,
    x: int,
)
    requires
        0 <= o < x < c < t.len(),
        t.len() <= usize::MAX,
        forall|q: int| 0 <= q < t.len() ==> #[trigger] t[q] != '\n' && t[q] != '\r',
        forall|q: int|
            0 <= q < t.len() ==> (#[trigger] t[q] == '"' && !span_excluded(t, ex, q, q + 1)) == (q
                == o || q == c),
        cjk_context(t[x]),
        !span_excluded(t, ex, x, x + 1),
        ({
            ||| forall|q: int|
                0 <= q < t.len() && (q < o || c < q) ==> !(0x41 <= (#[trigger] t[q]) as int <= 0x5A)
                    && !(0x61 <= t[q] as int <= 0x7A)
            ||| exists|q: int|
                0 <= q < t.len() && (q < o || c < q) && cjk_context(#[trigger] t[q])
                    && !span_excluded(t, ex, q, q + 1)
        }),
    ensures
        ({
            let v = each(
                t.len() as int,
                punctuation_rule(t, ex, colons, whole_plan(t, ex, QuoteKind::AsciiDouble)),
            );
            &&& suggested(v, byte_pos(t, o), byte_pos(t, o + 1), seq![seq!['「']])
            &&& suggested(v, byte_pos(t, c), byte_pos(t, c + 1), seq![seq!['」']])
        }),
{
    lemma_full_width_strings();
    let plan = whole_plan(t, ex, QuoteKind::AsciiDouble);
    lemma_plan_of_one(t, ex, QuoteKind::AsciiDouble);
    law_two_double_marks(t, ex, QuoteKind::AsciiDouble, 0, t.len() as int, o, c);
    assert(cjk_context(t[x]) && !span_excluded(t, ex, x, x + 1));
    assert(plan.len() == 2);
    assert(t[o] == '"' && t[c] == '"');
    assert(plan[0].pos == o && plan[1].pos == c);
    assert(planned(plan, o) == Some(plan[0]));
    assert(planned(plan, c) == Some(plan[1]));
    lemma_mark_reported(t, ex, colons, plan, o, seq!['「']);
    lemma_mark_reported(t, ex, colons, plan, c, seq!['」']);
}

/// Letters and blanks do not close a run of Latin text.
proof fn lemma_run_reaches(t: Seq<char>, floor: int, a: int, i: int)
    requires
        0 <= a <= i <= t.len(),
        byte_pos(t, a) >= floor,
        forall|q: int| a <= q < i ==> ascii_letter(#[trigger] t[q]) || t[q] == ' ',
    ensures
        0 <= run_start(t, floor, i) <= a,
    decreases i - a,
{
    if a < i {
        lemma_byte_pos_monotone(t, a, i);
        assert(ascii_letter(t[i - 1]) || t[i - 1] == ' ');
        assert(!closes_run(t, i - 1));
        lemma_run_reaches(t, floor, a, i - 1);
    } else {
        lemma_run_start(t, floor, i);
    }
}

/// A letter has the head of its word at its place or before.
proof fn lemma_word_counted(t: Seq<char>, from: int, a: int)
    requires
        0 <= from <= a < t.len(),
        ascii_letter(t[a]),
    ensures
        count_where(from, a + 1, heads_word(t, from)) >= 1,
    decreases a - from,
{
    if !heads_word(t, from)(a) {
        assert(in_word(t, from, a));
        lemma_word_has_head(t, from, a);
    }
}

proof fn lemma_word_has_head(t: Seq<char>, from: int, p: int)
    requires
        0 <= from <= p < t.len(),
        in_word(t, from, p),
    ensures
        count_where(from, p, heads_word(t, from)) >= 1,
    decreases p - from,
{
    if !(ascii_letter(t[p - 1]) && !in_word(t, from, p - 1)) {
        if in_word(t, from, p - 1) {
            lemma_word_has_head(t, from, p - 1);
        }
    } else {
        assert(heads_word(t, from)(p - 1));
    }
}

proof fn lemma_count_grows(from: int, m: int, to: int, f: spec_fn(int) -> bool)
    requires
        from <= m <= to,
    ensures
        count_where(from, m, f) <= count_where(from, to, f),
    decreases to - m,
{
    if m < to {
        lemma_count_grows(from, m, to - 1, f);
    }
}

/// The half-width mark behind two Latin words, the second of which begins in lower
/// case, ends a Latin clause and is left alone, whatever follows.
pub proof fn law_latin_clauses_keep_their_marks(
    t: Seq<char>,
    colons: bool,
    plan: Seq<QuoteMark>,
    a: int,
    b: int,
    i: int,
)
    requires
        0 <= a < b,
        b + 1 < i < t.len(),
        i - a <= 512,
        t[i] == ',' || t[i] == '!' || t[i] == '?' || t[i] == ';' || t[i] == ':',
        t[b] == ' ',
        forall|q: int|
            a <= q < i && q != b ==> 0x41 <= (#[trigger] t[q]) as int <= 0x5A || 0x61 <= t[q] as int
                <= 0x7A,
        0x61 <= t[b + 1] as int <= 0x7A,
    ensures
        punctuation_at(t, Seq::empty(), colons, plan, i).len() == 0,
{
    let ex = Seq::<ByteRange>::empty();
    lemma_ascii_bytes(t, a, i);
    lemma_byte_pos_monotone(t, 0, a);
    let floor = run_floor(t, ex, i);
    assert(excluded_floor(ex, byte_pos(t, i), 0) == 0);
    assert(byte_pos(t, a) >= floor);
    assert forall|q: int| a <= q < i implies ascii_letter(#[trigger] t[q]) || t[q] == ' ' by {}
    lemma_run_reaches(t, floor, a, i);
    let from = run_start(t, floor, i);
    let f = heads_word(t, from);
    assert(ascii_letter(t[b - 1]));
    lemma_word_counted(t, from, b - 1);
    assert(!in_word(t, from, b + 1));
    assert(ascii_letter(t[b + 1]));
    assert(f(b + 1));
    lemma_count_grows(from, b, b + 1, f);
    assert(count_where(from, b + 2, f) == count_where(from, b + 1, f) + 1);
    lemma_count_grows(from, b + 2, i, f);
    assert(within(t[b + 1], 0x61, 0x7A));
    assert(ends_latin_clause(t, ex, i));
}

proof fn lemma_ascii_bytes(t: Seq<char>, a: int, i: int)
    requires
        0 <= a <= i <= t.len(),
        forall|q: int| a <= q < i ==> 0x20 <= (#[trigger] t[q]) as int <= 0x7A,
    ensures
        byte_pos(t, i) == byte_pos(t, a) + (i - a),
    decreases i - a,
{
    if a < i {
        lemma_ascii_bytes(t, a, i - 1);
        assert(0x20 <= t[i - 1] as int <= 0x7A);
    }
}

/// A colon that closes a reference, or that marks a definition at the beginning of
/// its line, is notation and is left alone.
pub proof fn law_colons_of_notation_stay(
    t: Seq<char>,
    ex: Seq<ByteRange>,
    colons: bool,
    plan: Seq<QuoteMark>,
    i: int,
)
    requires
        0 <= i < t.len(),
        t[i] == ':',
        (i > 0 && t[i - 1] == ']') || (i + 1 < t.len() && t[i + 1] == ' ' && (i == 0 || t[i - 1]
            == '\n')) || !colons,
    ensures
        punctuation_at(t, ex, colons, plan, i).len() == 0,
{
    assert(before_blanks(t, i) == i || (i > 0 && (t[i - 1] == ' ' || t[i - 1] == '\t')));
}

/// Only the first letter of a word heads it.
proof fn lemma_one_word(t: Seq<char>, a: int, i: int)
    requires
        0 <= a < i <= t.len(),
        forall|q: int| a <= q < i ==> ascii_letter(#[trigger] t[q]),
    ensures
        count_where(a, i, heads_word(t, a)) == 1,
        i > a ==> in_word(t, a, i),
    decreases i - a,
{
    assert(ascii_letter(t[i - 1]));
    if i - 1 > a {
        lemma_one_word(t, a, i - 1);
        assert(!heads_word(t, a)(i - 1));
    } else {
        assert(!in_word(t, a, a));
        assert(heads_word(t, a)(a));
        assert(count_where(a, a, heads_word(t, a)) == 0);
    }
}

/// A half-width mark behind a single Latin word within Chinese, with an ideograph
/// before the word and one behind the mark, is reported.
pub proof fn law_marks_behind_a_latin_word_within_chinese(
    t: Seq<char>,
    ex: Seq<ByteRange>,
    colons: bool,
    plan: Seq<QuoteMark>,
    a: int,
    i: int,
)
    requires
        0 < a < i,
        i + 1 < t.len(),
        cjk_ideograph(t[a - 1]),
        cjk_ideograph(t[i + 1]),
        forall|q: int|
            a <= q < i ==> 0x41 <= (#[trigger] t[q]) as int <= 0x5A || 0x61 <= t[q] as int <= 0x7A,
        t[i] == ',' || t[i] == '!' || t[i] == '?' || t[i] == ';' || (t[i] == ':' && colons),
        forall|k: int|
            0 <= k < ex.len() ==> (#[trigger] ex[k]).end <= byte_pos(t, i) || ex[k].start
                >= byte_pos(t, i + 1),
    ensures
        suggested(
            each(t.len() as int, punctuation_rule(t, ex, colons, plan)),
            byte_pos(t, i),
            byte_pos(t, i + 1),
            seq![full_width_of(t[i])],
        ),
{
    lemma_full_width_strings();
    lemma_byte_pos_monotone(t, i, i + 1);
    assert(!span_excluded(t, ex, i, i + 1));
    assert(closes_run(t, a - 1));
    let floor = run_floor(t, ex, i);
    assert forall|q: int| a <= q < i implies ascii_letter(#[trigger] t[q]) by {}
    let from = run_start(t, floor, i);
    lemma_run_stops(t, floor, a, i);
    if from < i {
        lemma_one_word(t, from, i);
    } else {
        assert(count_where(i, i, heads_word(t, from)) == 0);
    }
    assert(!ends_latin_clause(t, ex, i));
    assert(skip_white(t, i + 1, t.len() as int) == i + 1);
    assert(cjk_after(t, i + 1, usize::MAX as int));
    assert(chinese_mark(t, ex, i));
    assert(ascii_letter(t[i - 1]));
    lemma_mark_reported(t, ex, colons, plan, i, full_width_of(t[i]));
}

proof fn lemma_run_stops(t: Seq<char>, floor: int, a: int, i: int)
    requires
        0 < a <= i <= t.len(),
        closes_run(t, a - 1),
    ensures
        a <= run_start(t, floor, i) <= i,
    decreases i - a,
{
    if a < i && byte_pos(t, i) > floor && !closes_run(t, i - 1) {
        lemma_run_stops(t, floor, a, i - 1);
    }
}

/// A bracket with no bracket and no line feed behind it, and one whose partner
/// stands more than 512 bytes away with none between, is left alone.
pub proof fn law_far_brackets_stay(
    t: Seq<char>,
    ex: Seq<ByteRange>,
    colons: bool,
    plan: Seq<QuoteMark>,
    i: int,
    j: int,
)
    requires
        0 <= i < j <= t.len(),
        t[i] == '(',
        forall|q: int| i < q < j ==> #[trigger] t[q] != '(' && t[q] != ')',
        j == t.len() || byte_pos(t, j) - byte_pos(t, i) > 512,
    ensures
        punctuation_at(t, ex, colons, plan, i).len() == 0,
{
    let limit = byte_pos(t, i) + SEARCH_BYTES;
    lemma_no_partner(t, limit, i + 1, j);
    assert(closing_partner(t, limit, i, 0) == closing_partner(t, limit, i + 1, 1) || closing_partner(
        t,
        limit,
        i,
        0,
    ) is None);
    assert(bracket_partner(t, i) is None);
}

proof fn lemma_no_partner(t: Seq<char>, limit: int, k: int, j: int)
    requires
        0 <= k <= j <= t.len(),
        forall|q: int| k <= q < j ==> #[trigger] t[q] != '(' && t[q] != ')',
        j == t.len() || byte_pos(t, j) > limit,
    ensures
        closing_partner(t, limit, k, 1) is None,
    decreases j - k,
{
    if k < j {
        assert(t[k] != '(' && t[k] != ')');
        lemma_no_partner(t, limit, k + 1, j);
    }
}

} // verus!
