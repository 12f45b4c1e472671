//! How formal a document is, and what of it is read to tell.
use vstd::prelude::*;
use vstd::string::*;

use crate::chars::{is_whitespace, whitespace};
use crate::emit::ByteRange;
use crate::issue::Register;
use crate::profile::RegisterMode;
use crate::ranges::{covers, holds};
use crate::text::{byte_pos, Text};

verus! {

/// The character at `i` as a reader sees it: one in an excluded range is a
/// blank.
pub open spec fn seen(t: Seq<char>, ex: Seq<ByteRange>, i: int) -> char {
    if covers(ex, byte_pos(t, i)) && !whitespace(t[i]) {
        ' '
    } else {
        t[i]
    }
}

/// The text with blanks in place of what is excluded. Nothing moves, so that
/// words on the two sides do not meet.
pub open spec fn visible(t: Seq<char>, ex: Seq<ByteRange>) -> Seq<char> {
    Seq::new(t.len(), |i: int| seen(t, ex, i))
}

fn is_covered(ranges: &[ByteRange], b: usize) -> (r: bool)
    ensures
        r == covers(ranges@, b as int),
{
    let mut k: usize = 0;
    while k < ranges.len()
        invariant
            k <= ranges@.len(),
            forall|j: int| 0 <= j < k ==> !#[trigger] holds(ranges@[j], b as int),
        decreases ranges@.len() - k,
    {
        if ranges[k].start <= b && b < ranges[k].end {
            assert(holds(ranges@[k as int], b as int));
            return true;
        }
        k = k + 1;
    }
    false
}

/// Appends the characters `from..to` of the text.
fn copy_run(out: &mut String, text: &Text<'_>, from: usize, to: usize)
    requires
        text.wf(),
        from <= to <= text@.len(),
    ensures
        final(out)@ == old(out)@ + text@.subrange(from as int, to as int),
{
    if from < to {
        out.append(text.slice(from, to).as_str());
    }
    assert(out@ =~= old(out)@ + text@.subrange(from as int, to as int));
}

/// The text with blanks in place of what is excluded.
pub fn visible_text(text: &Text<'_>, excluded: &[ByteRange]) -> (r: String)
    requires
        text.wf(),
    ensures
        r@ == visible(text@, excluded@),
{
    let ghost t = text@;
    let ghost ex = excluded@;
    let n: usize = text.len();
    let mut out: String = String::new();
    let mut from: usize = 0;
    let mut i: usize = 0;
    proof {
        reveal_strlit(" ");
        assert(out@ + t.subrange(0, 0) =~= visible(t, ex).subrange(0, 0));
    }
    while i < n
        invariant
            text.wf(),
            t == text@,
            ex == excluded@,
            n == t.len(),
            from <= i <= n,
            " "@ =~= seq![' '],
            out@ + t.subrange(from as int, i as int) == visible(t, ex).subrange(0, i as int),
        decreases n - i,
    {
        let ghost before = out@;
        let ghost first = from as int;
        let c = text.ch(i);
        if !is_whitespace(c) && is_covered(excluded, text.byte(i)) {
            copy_run(&mut out, text, from, i);
            out.append(" ");
            from = i + 1;
            assert(out@ =~= visible(t, ex).subrange(0, i as int).push(' '));
        }
        i = i + 1;
        assert(visible(t, ex).subrange(0, i as int) =~= visible(t, ex).subrange(0, i - 1).push(
            seen(t, ex, i - 1),
        ));
        assert(out@ + t.subrange(from as int, i as int) =~= visible(t, ex).subrange(0, i as int))
            by {
            if from < i {
                assert(t.subrange(from as int, i as int) =~= t.subrange(from as int, i - 1).push(
                    t[i - 1],
                ));
            }
        }
    }
    copy_run(&mut out, text, from, n);
    assert(visible(t, ex).subrange(0, n as int) =~= visible(t, ex));
    out
}

/// The prose that has to be read to tell the register, where the profile
/// leaves that to the document.
pub fn register_prose(text: &Text<'_>, excluded: &[ByteRange], mode: RegisterMode) -> (r: Option<
    String,
>)
    requires
        text.wf(),
    ensures
        r is Some == (mode is Auto),
        r matches Some(s) ==> s@ == visible(text@, excluded@),
{
    match mode {
        RegisterMode::Auto => Some(visible_text(text, excluded)),
        _ => None,
    }
}

/// The register under a mode, for a document that reads as `detected`.
pub open spec fn register_under(mode: RegisterMode, detected: Register) -> Register {
    match mode {
        RegisterMode::Auto => detected,
        RegisterMode::Casual => Register::Casual,
        RegisterMode::Formal => Register::Formal,
    }
}

/// The register of a document. `detected` is what its visible prose reads as.
pub fn resolve_register(mode: RegisterMode, detected: Register) -> (r: Register)
    ensures
        r == register_under(mode, detected),
{
    match mode {
        RegisterMode::Auto => detected,
        RegisterMode::Casual => Register::Casual,
        RegisterMode::Formal => Register::Formal,
    }
}

/// Nothing that is excluded can be seen, and where nothing is, the text is
/// seen as it stands.
pub proof fn law_excluded_prose_is_not_seen(t: Seq<char>, ex: Seq<ByteRange>, i: int)
    requires
        0 <= i < t.len(),
    ensures
        covers(ex, byte_pos(t, i)) ==> whitespace(visible(t, ex)[i]),
        !covers(ex, byte_pos(t, i)) ==> visible(t, ex)[i] == t[i],
{
}

} // verus!
