//! Classes of characters.
use vstd::prelude::*;

use crate::text::listed;

verus! {

pub open spec fn within(c: char, lo: int, hi: int) -> bool {
    lo <= c as int <= hi
}

/// A CJK ideograph: unified, an extension, compatibility, or bopomofo.
pub open spec fn cjk_ideograph(c: char) -> bool {
    ||| within(c, 0x3100, 0x312F)
    ||| within(c, 0x3400, 0x4DBF)
    ||| within(c, 0x4E00, 0x9FFF)
    ||| within(c, 0xF900, 0xFAFF)
    ||| within(c, 0x20000, 0x2A6DF)
    ||| within(c, 0x2A700, 0x2B73F)
    ||| within(c, 0x2B740, 0x2B81F)
    ||| within(c, 0x2B820, 0x2CEAF)
    ||| within(c, 0x2CEB0, 0x2EBEF)
    ||| within(c, 0x2EBF0, 0x2EE5F)
    ||| within(c, 0x30000, 0x3134F)
    ||| within(c, 0x31350, 0x323AF)
}

fn between(u: u32, lo: u32, hi: u32) -> (r: bool)
    ensures
        r == (lo <= u <= hi),
{
    lo <= u && u <= hi
}

/// Whether `ch` is a CJK ideograph. CJK symbols and punctuation are not.
pub fn is_cjk_ideograph(ch: char) -> (r: bool)
    ensures
        r == cjk_ideograph(ch),
{
    let u: u32 = ch as u32;
    between(u, 0x3100, 0x312F) || between(u, 0x3400, 0x4DBF) || between(u, 0x4E00, 0x9FFF)
        || between(u, 0xF900, 0xFAFF) || between(u, 0x20000, 0x2A6DF) || between(
        u,
        0x2A700,
        0x2B73F,
    ) || between(u, 0x2B740, 0x2B81F) || between(u, 0x2B820, 0x2CEAF) || between(
        u,
        0x2CEB0,
        0x2EBEF,
    ) || between(u, 0x2EBF0, 0x2EE5F) || between(u, 0x30000, 0x3134F) || between(
        u,
        0x31350,
        0x323AF,
    )
}

/// A CJK ideograph, or a CJK punctuation mark or bracket.
pub open spec fn cjk_context(c: char) -> bool {
    ||| cjk_ideograph(c)
    ||| within(c, 0x3001, 0x303F)
    ||| within(c, 0xFF01, 0xFF60)
    ||| within(c, 0xFF61, 0xFF65)
    ||| within(c, 0xFE30, 0xFE4F)
}

/// Whether `ch` makes its neighbourhood CJK text.
pub fn is_cjk_context(ch: char) -> (r: bool)
    ensures
        r == cjk_context(ch),
{
    let u: u32 = ch as u32;
    is_cjk_ideograph(ch) || between(u, 0x3001, 0x303F) || between(u, 0xFF01, 0xFF60) || between(
        u,
        0xFF61,
        0xFF65,
    ) || between(u, 0xFE30, 0xFE4F)
}

pub open spec fn whitespace(c: char) -> bool {
    ||| within(c, 0x09, 0x0D)
    ||| c as int == 0x20
    ||| c as int == 0x85
    ||| c as int == 0xA0
    ||| c as int == 0x1680
    ||| within(c, 0x2000, 0x200A)
    ||| c as int == 0x2028
    ||| c as int == 0x2029
    ||| c as int == 0x202F
    ||| c as int == 0x205F
    ||| c as int == 0x3000
}

/// Whether `ch` has the Unicode property `White_Space`.
pub fn is_whitespace(ch: char) -> (r: bool)
    ensures
        r == whitespace(ch),
{
    let u: u32 = ch as u32;
    between(u, 0x09, 0x0D) || u == 0x20 || u == 0x85 || u == 0xA0 || u == 0x1680 || between(
        u,
        0x2000,
        0x200A,
    ) || u == 0x2028 || u == 0x2029 || u == 0x202F || u == 0x205F || u == 0x3000
}

pub open spec fn ascii_digit(c: char) -> bool {
    within(c, 0x30, 0x39)
}

pub fn is_ascii_digit(ch: char) -> (r: bool)
    ensures
        r == ascii_digit(ch),
{
    between(ch as u32, 0x30, 0x39)
}

pub open spec fn ascii_letter(c: char) -> bool {
    within(c, 0x41, 0x5A) || within(c, 0x61, 0x7A)
}

pub fn is_ascii_letter(ch: char) -> (r: bool)
    ensures
        r == ascii_letter(ch),
{
    between(ch as u32, 0x41, 0x5A) || between(ch as u32, 0x61, 0x7A)
}

/// Marks that end a sentence.
pub const SENTENCE_ENDS: [char; 6] = ['。', '！', '？', '!', '?', '\n'];

/// Marks that end a sentence other than a line feed.
pub const TERMINALS: [char; 5] = ['。', '！', '？', '!', '?'];

/// Marks that end a clause: commas, semicolons, and what ends a sentence.
pub const CLAUSE_MARKS: [char; 9] = ['，', '。', '；', ',', '\n', '！', '？', '!', '?'];

pub fn is_clause_boundary_char(ch: char) -> (r: bool)
    ensures
        r == CLAUSE_MARKS@.contains(ch),
{
    listed(CLAUSE_MARKS.as_slice(), ch)
}

/// The blocks that hold ideographs: every character of the common block is one,
/// and so are those of the first extension, of the compatibility block and of the
/// phonetic letters; no ASCII character is, nor a CJK mark, a kana or a full-width
/// form.
pub proof fn law_ideographs(c: char)
    ensures
        0x4E00 <= c as int <= 0x9FFF ==> cjk_ideograph(c),
        0x3400 <= c as int <= 0x4DBF ==> cjk_ideograph(c),
        0xF900 <= c as int <= 0xFAFF ==> cjk_ideograph(c),
        0x3100 <= c as int <= 0x312F ==> cjk_ideograph(c),
        0x20000 <= c as int <= 0x2A6DF ==> cjk_ideograph(c),
        (c as int) < 0x3100 ==> !cjk_ideograph(c),
        0x3130 <= c as int <= 0x33FF ==> !cjk_ideograph(c),
        0xA000 <= c as int <= 0xF8FF ==> !cjk_ideograph(c),
        0xFB00 <= c as int <= 0x1FFFF ==> !cjk_ideograph(c),
        cjk_ideograph(c) ==> cjk_context(c) && !whitespace(c) && !ascii_letter(c) && !ascii_digit(
            c,
        ),
{
}

/// Chinese marks and full-width forms make their neighbourhood Chinese, and
/// neither ASCII characters nor white space do.
pub proof fn law_chinese_neighbourhood(c: char)
    ensures
        c == '，' || c == '。' || c == '、' || c == '！' || c == '？' || c == '：' || c == '；' || c == '「'
            || c == '」' || c == '『' || c == '』' || c == '《' || c == '》' || c == '（' || c == '）'
            ==> cjk_context(c) && !cjk_ideograph(c),
        (c as int) < 0x3001 ==> !cjk_context(c),
        whitespace(c) ==> !cjk_context(c),
        cjk_context(c) ==> !ascii_letter(c) && !ascii_digit(c),
{
}

/// The white space of ASCII, the no-break space and the ideographic space are
/// white space; letters, digits and ASCII marks are not.
pub proof fn law_white_space(c: char)
    ensures
        c == ' ' || c == '\t' || c == '\n' || c == '\r' || c == '\u{A0}' || c == '\u{3000}'
            ==> whitespace(c),
        0x21 <= c as int <= 0x7E ==> !whitespace(c),
        c == '\u{200B}' ==> !whitespace(c),
{
}

/// The marks that end a sentence, and those that end a clause.
pub proof fn law_marks_that_end(c: char)
    ensures
        TERMINALS@.contains(c) == (c == '。' || c == '！' || c == '？' || c == '!' || c == '?'),
        SENTENCE_ENDS@.contains(c) == (TERMINALS@.contains(c) || c == '\n'),
        CLAUSE_MARKS@.contains(c) == (SENTENCE_ENDS@.contains(c) || c == '，' || c == '；' || c
            == ','),
{
    let (a, b, d) = (TERMINALS@, SENTENCE_ENDS@, CLAUSE_MARKS@);
    assert(a.len() == 5 && a[0] == '。' && a[1] == '！' && a[2] == '？' && a[3] == '!' && a[4] == '?');
    assert(b.len() == 6 && b[0] == '。' && b[1] == '！' && b[2] == '？' && b[3] == '!' && b[4] == '?'
        && b[5] == '\n');
    assert(d.len() == 9 && d[0] == '，' && d[1] == '。' && d[2] == '；' && d[3] == ',' && d[4] == '\n'
        && d[5] == '！' && d[6] == '？' && d[7] == '!' && d[8] == '?');
    if a.contains(c) {
        let i = choose|i: int| 0 <= i < a.len() && a[i] == c;
        assert(i == 0 || i == 1 || i == 2 || i == 3 || i == 4);
    }
    if b.contains(c) {
        let i = choose|i: int| 0 <= i < b.len() && b[i] == c;
        assert(i == 0 || i == 1 || i == 2 || i == 3 || i == 4 || i == 5);
    }
    if d.contains(c) {
        let i = choose|i: int| 0 <= i < d.len() && d[i] == c;
        assert(i == 0 || i == 1 || i == 2 || i == 3 || i == 4 || i == 5 || i == 6 || i == 7 || i
            == 8);
    }
}

} // verus!
