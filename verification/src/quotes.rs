//! Quotation marks: which of them are written the Chinese way, at what depth,
//! and whether brackets nest.
use vstd::prelude::*;

use crate::adjacent::{cjk_after, cjk_before, has_cjk_after, has_cjk_before};
use crate::bounds::{
    lemma_paragraphs_ordered, paragraph_spans, paragraphs_from, paragraphs_of, spans,
};
use crate::chars::{
    ascii_letter, cjk_context, is_ascii_letter, is_cjk_context, is_whitespace, whitespace,
};
use crate::emit::{is_excluded, span_excluded, ByteRange};
use crate::issue::opt_int;
use crate::keep::{kept, lemma_kept_origin, retain};
use crate::text::Text;

verus! {

/// The shapes of quotation mark that are converted. Each pairs on its own
/// terms.
#[derive(Clone, Copy, Debug, PartialEq, Eq, Structural)]
pub enum QuoteKind {
    /// “ and ”. They carry a direction, but a text may write both halves with
    /// one of the two.
    CurlyDouble,
    /// ‘ and ’. They carry a direction, and nothing else pairs them: ’ is the
    /// English apostrophe too.
    CurlySingle,
    /// The straight mark, which carries no direction.
    AsciiDouble,
}

impl QuoteKind {
    pub open spec fn opener(self) -> char {
        match self {
            QuoteKind::CurlyDouble => '\u{201c}',
            QuoteKind::CurlySingle => '\u{2018}',
            QuoteKind::AsciiDouble => '"',
        }
    }

    pub open spec fn closer(self) -> char {
        match self {
            QuoteKind::CurlyDouble => '\u{201d}',
            QuoteKind::CurlySingle => '\u{2019}',
            QuoteKind::AsciiDouble => '"',
        }
    }

    pub fn open(self) -> (r: char)
        ensures
            r == self.opener(),
    {
        match self {
            QuoteKind::CurlyDouble => '\u{201c}',
            QuoteKind::CurlySingle => '\u{2018}',
            QuoteKind::AsciiDouble => '"',
        }
    }

    pub fn close(self) -> (r: char)
        ensures
            r == self.closer(),
    {
        match self {
            QuoteKind::CurlyDouble => '\u{201d}',
            QuoteKind::CurlySingle => '\u{2019}',
            QuoteKind::AsciiDouble => '"',
        }
    }

    /// Whether marks without a usable direction still pair by position.
    pub fn positional_fallback(self) -> (r: bool)
        ensures
            r == !(self is CurlySingle),
    {
        match self {
            QuoteKind::CurlySingle => false,
            _ => true,
        }
    }
}

/// A quotation mark, by its character position.
#[derive(Clone, Copy, Debug, PartialEq, Eq, Structural)]
pub struct QuoteMark {
    pub pos: usize,
    pub opening: bool,
    /// Whether it is a quotation mark at all. An apostrophe is none and cannot
    /// convert, yet it pairs.
    pub eligible: bool,
}

/// How the marks of a paragraph pair.
#[derive(Clone, Copy, Debug, PartialEq, Eq, Structural)]
pub enum PairingMode {
    /// Each closing mark goes with the last opening mark that is still open.
    Directional,
    /// The marks alternate.
    Positional,
    /// No two go together.
    Alone,
}

/// How many more marks open than close among the first `n`.
pub open spec fn depth_after(openings: Seq<bool>, n: int) -> int
    decreases n,
{
    if n <= 0 {
        0
    } else {
        depth_after(openings, n - 1) + (if openings[n - 1] {
            1int
        } else {
            -1int
        })
    }
}

/// The marks carry a usable direction: both halves are written, and none
/// closes what was not opened.
pub open spec fn direction_usable(openings: Seq<bool>) -> bool {
    &&& openings.contains(true)
    &&& openings.contains(false)
    &&& forall|n: int| 0 <= n <= openings.len() ==> #[trigger] depth_after(openings, n) >= 0
}

/// Whether the marks carry a usable direction.
pub fn direction_is_usable(openings: &Vec<bool>) -> (r: bool)
    ensures
        r == direction_usable(openings@),
{
    let mut depth: usize = 0;
    let mut saw_open: bool = false;
    let mut saw_close: bool = false;
    let mut i: usize = 0;
    while i < openings.len()
        invariant
            i <= openings@.len(),
            depth <= i,
            depth == depth_after(openings@, i as int),
            forall|n: int| 0 <= n <= i ==> #[trigger] depth_after(openings@, n) >= 0,
            saw_open ==> openings@.contains(true),
            saw_close ==> openings@.contains(false),
            !saw_open ==> forall|k: int| 0 <= k < i ==> !#[trigger] openings@[k],
            !saw_close ==> forall|k: int| 0 <= k < i ==> #[trigger] openings@[k],
        decreases openings@.len() - i,
    {
        if openings[i] {
            assert(openings@[i as int] == true);
            saw_open = true;
            depth = depth + 1;
        } else {
            assert(openings@[i as int] == false);
            saw_close = true;
            if depth == 0 {
                assert(depth_after(openings@, i + 1) < 0);
                return false;
            }
            depth = depth - 1;
        }
        i = i + 1;
    }
    saw_open && saw_close
}

/// What each mark opens on.
pub open spec fn openings_of(marks: Seq<QuoteMark>) -> Seq<bool> {
    Seq::new(marks.len(), |i: int| marks[i].opening)
}

pub open spec fn mode_of(kind: QuoteKind, openings: Seq<bool>) -> PairingMode {
    if kind.opener() != kind.closer() && direction_usable(openings) {
        PairingMode::Directional
    } else if kind is CurlySingle {
        PairingMode::Alone
    } else {
        PairingMode::Positional
    }
}

fn pairing_mode(kind: QuoteKind, openings: &Vec<bool>) -> (r: PairingMode)
    ensures
        r == mode_of(kind, openings@),
{
    if kind.open() != kind.close() && direction_is_usable(openings) {
        PairingMode::Directional
    } else if kind.positional_fallback() {
        PairingMode::Positional
    } else {
        PairingMode::Alone
    }
}

/// The opening marks among the first `n` that are still open.
pub open spec fn still_open(openings: Seq<bool>, n: int) -> Seq<int>
    decreases n,
{
    if n <= 0 {
        Seq::empty()
    } else {
        let before = still_open(openings, n - 1);
        if openings[n - 1] {
            before.push(n - 1)
        } else if before.len() > 0 {
            before.drop_last()
        } else {
            before
        }
    }
}

/// The partner of each of the first `n` marks, by direction.
pub open spec fn partners_by_direction(openings: Seq<bool>, n: int) -> Seq<Option<int>>
    decreases n,
{
    if n <= 0 {
        Seq::empty()
    } else {
        let before = partners_by_direction(openings, n - 1);
        let open = still_open(openings, n - 1);
        if openings[n - 1] || open.len() == 0 {
            before.push(None)
        } else {
            before.update(open.last(), Some(n - 1)).push(Some(open.last()))
        }
    }
}

/// The partner of each mark.
pub open spec fn partners(mode: PairingMode, openings: Seq<bool>) -> Seq<Option<int>> {
    match mode {
        PairingMode::Directional => partners_by_direction(openings, openings.len() as int),
        PairingMode::Positional => Seq::new(
            openings.len(),
            |i: int|
                if i % 2 == 1 {
                    Some(i - 1)
                } else if i + 1 < openings.len() {
                    Some(i + 1)
                } else {
                    None
                },
        ),
        PairingMode::Alone => Seq::new(openings.len(), |i: int| None),
    }
}

/// The first `n` marks: each that is still open is an opening mark without a
/// partner, they stand in order, and two partners have each other.
proof fn lemma_partners(openings: Seq<bool>, n: int)
    requires
        0 <= n <= openings.len(),
    ensures
        partners_by_direction(openings, n).len() == n,
        forall|k: int|
            0 <= k < still_open(openings, n).len() ==> {
                let o = #[trigger] still_open(openings, n)[k];
                0 <= o < n && openings[o] && partners_by_direction(openings, n)[o] is None
            },
        forall|k: int, m: int|
            0 <= k < m < still_open(openings, n).len() ==> (#[trigger] still_open(openings, n)[k])
                < (#[trigger] still_open(openings, n)[m]),
        forall|i: int|
            0 <= i < n ==> match #[trigger] partners_by_direction(openings, n)[i] {
                Some(j) => 0 <= j < n && partners_by_direction(openings, n)[j] == Some(i) && (if i
                    < j {
                    openings[i] && !openings[j]
                } else {
                    j < i && openings[j] && !openings[i]
                }),
                None => true,
            },
    decreases n,
{
    if n > 0 {
        lemma_partners(openings, n - 1);
        let before = partners_by_direction(openings, n - 1);
        let open = still_open(openings, n - 1);
        let now = partners_by_direction(openings, n);
        if !openings[n - 1] && open.len() > 0 {
            let o = open.last();
            assert(open[open.len() - 1] == o);
            assert(now[o] == Some(n - 1));
            assert(now[n - 1] == Some(o));
            assert forall|i: int| 0 <= i < n - 1 && i != o implies #[trigger] now[i]
                == before[i] by {}
            assert forall|i: int| 0 <= i < n implies match #[trigger] now[i] {
                Some(j) => 0 <= j < n && now[j] == Some(i) && (if i < j {
                    openings[i] && !openings[j]
                } else {
                    j < i && openings[j] && !openings[i]
                }),
                None => true,
            } by {
                if i < n - 1 && i != o && before[i] is Some {
                    assert(before[before[i]->0] == Some(i));
                    assert(before[i]->0 != o);
                }
            }
        }
    }
}

/// Two marks that go together name each other, and the first of them opens
/// what the other closes.
pub proof fn law_pairs_are_mutual(mode: PairingMode, openings: Seq<bool>, i: int)
    requires
        0 <= i < openings.len(),
        partners(mode, openings)[i] is Some,
    ensures
        ({
            let j = partners(mode, openings)[i]->0;
            &&& 0 <= j < openings.len()
            &&& j != i
            &&& partners(mode, openings)[j] == Some(i)
            &&& mode is Directional ==> openings[if i < j { i } else { j }]
            &&& mode is Directional ==> !openings[if i < j { j } else { i }]
        }),
{
    lemma_partners(openings, openings.len() as int);
    match mode {
        PairingMode::Directional => {
            assert(partners_by_direction(openings, openings.len() as int)[i] is Some);
        },
        _ => {},
    }
}

/// Which mark each mark goes with.
fn pair_marks(mode: PairingMode, openings: &Vec<bool>) -> (r: Vec<Option<usize>>)
    ensures
        r@.len() == openings@.len(),
        partners(mode, openings@).len() == openings@.len(),
        forall|i: int|
            0 <= i < r@.len() ==> opt_int(#[trigger] r@[i]) == partners(mode, openings@)[i],
{
    let n: usize = openings.len();
    let mut r: Vec<Option<usize>> = Vec::new();
    match mode {
        PairingMode::Directional => {
            let mut stack: Vec<usize> = Vec::new();
            let mut i: usize = 0;
            while i < n
                invariant
                    n == openings@.len(),
                    i <= n,
                    r@.len() == i,
                    stack@.len() == still_open(openings@, i as int).len(),
                    forall|k: int|
                        0 <= k < stack@.len() ==> #[trigger] stack@[k] == still_open(
                            openings@,
                            i as int,
                        )[k],
                    forall|k: int|
                        0 <= k < i ==> opt_int(#[trigger] r@[k]) == partners_by_direction(
                            openings@,
                            i as int,
                        )[k],
                decreases n - i,
            {
                proof {
                    lemma_partners(openings@, i as int);
                    lemma_partners(openings@, i + 1);
                }
                if openings[i] {
                    stack.push(i);
                    r.push(None);
                } else {
                    match stack.pop() {
                        Some(opener) => {
                            assert(opener == still_open(openings@, i as int).last());
                            r.set(opener, Some(i));
                            r.push(Some(opener));
                        },
                        None => {
                            r.push(None);
                        },
                    }
                }
                i = i + 1;
            }
            proof {
                lemma_partners(openings@, n as int);
            }
        },
        PairingMode::Positional => {
            let mut i: usize = 0;
            while i < n
                invariant
                    n == openings@.len(),
                    mode is Positional,
                    i <= n,
                    r@.len() == i,
                    forall|k: int|
                        0 <= k < i ==> opt_int(#[trigger] r@[k]) == partners(mode, openings@)[k],
                decreases n - i,
            {
                if i % 2 == 1 {
                    r.push(Some(i - 1));
                } else if i + 1 < n {
                    r.push(Some(i + 1));
                } else {
                    r.push(None);
                }
                i = i + 1;
            }
        },
        PairingMode::Alone => {
            let mut i: usize = 0;
            while i < n
                invariant
                    n == openings@.len(),
                    mode is Alone,
                    i <= n,
                    r@.len() == i,
                    forall|k: int|
                        0 <= k < i ==> opt_int(#[trigger] r@[k]) == partners(mode, openings@)[k],
                decreases n - i,
            {
                r.push(None);
                i = i + 1;
            }
        },
    }
    r
}

/// An ASCII letter stands directly beside the mark at `p`.
pub open spec fn letter_beside(t: Seq<char>, p: int) -> bool {
    (p > 0 && ascii_letter(t[p - 1])) || (p + 1 < t.len() && ascii_letter(t[p + 1]))
}

fn ascii_letter_adjacent(text: &Text<'_>, p: usize) -> (r: bool)
    requires
        text.wf(),
        p < text@.len(),
    ensures
        r == letter_beside(text@, p as int),
{
    let n: usize = text.len();
    (p > 0 && is_ascii_letter(text.ch(p - 1))) || (p + 1 < n && is_ascii_letter(text.ch(p + 1)))
}

/// The marks of one kind among the characters `from..i` that are not excluded.
pub open spec fn marks_in(t: Seq<char>, ex: Seq<ByteRange>, kind: QuoteKind, from: int, i: int) -> Seq<
    QuoteMark,
>
    decreases i - from,
{
    if i <= from {
        Seq::empty()
    } else {
        let before = marks_in(t, ex, kind, from, i - 1);
        let c = t[i - 1];
        if (c == kind.opener() || c == kind.closer()) && !span_excluded(t, ex, i - 1, i) {
            before.push(
                QuoteMark {
                    pos: (i - 1) as usize,
                    opening: c == kind.opener(),
                    eligible: !(kind is CurlySingle) || !letter_beside(t, i - 1),
                },
            )
        } else {
            before
        }
    }
}

proof fn lemma_marks(t: Seq<char>, ex: Seq<ByteRange>, kind: QuoteKind, from: int, i: int)
    requires
        0 <= from <= i <= t.len(),
        t.len() <= usize::MAX,
    ensures
        forall|k: int|
            0 <= k < marks_in(t, ex, kind, from, i).len() ==> from <= (#[trigger] marks_in(
                t,
                ex,
                kind,
                from,
                i,
            )[k]).pos < i,
        forall|k: int, m: int|
            0 <= k < m < marks_in(t, ex, kind, from, i).len() ==> (#[trigger] marks_in(
                t,
                ex,
                kind,
                from,
                i,
            )[k]).pos < (#[trigger] marks_in(t, ex, kind, from, i)[m]).pos,
    decreases i - from,
{
    if from < i {
        lemma_marks(t, ex, kind, from, i - 1);
        let before = marks_in(t, ex, kind, from, i - 1);
        let now = marks_in(t, ex, kind, from, i);
        assert(forall|k: int| 0 <= k < before.len() ==> #[trigger] now[k] == before[k]);
        assert(now.len() == before.len() || (now.len() == before.len() + 1
            && now[before.len() as int].pos == i - 1));
        assert forall|k: int| 0 <= k < now.len() implies from <= (#[trigger] now[k]).pos < i by {
            if k < before.len() {
                assert(from <= before[k].pos < i - 1);
            }
        }
        assert forall|k: int, m: int| 0 <= k < m < now.len() implies (#[trigger] now[k]).pos < (
        #[trigger] now[m]).pos by {
            if m < before.len() {
                assert(before[k].pos < before[m].pos);
            } else {
                assert(from <= before[k].pos < i - 1);
            }
        }
    }
}

fn collect_marks(
    text: &Text<'_>,
    excluded: &[ByteRange],
    kind: QuoteKind,
    from: usize,
    to: usize,
) -> (r: Vec<QuoteMark>)
    requires
        text.wf(),
        from <= to <= text@.len(),
    ensures
        r@ == marks_in(text@, excluded@, kind, from as int, to as int),
{
    let _n: usize = text.len();
    let mut r: Vec<QuoteMark> = Vec::new();
    let mut i: usize = from;
    while i < to
        invariant
            text.wf(),
            from <= i <= to <= text@.len(),
            r@ == marks_in(text@, excluded@, kind, from as int, i as int),
        decreases to - i,
    {
        let c = text.ch(i);
        if (c == kind.open() || c == kind.close()) && !is_excluded(
            text.byte(i),
            text.byte(i + 1),
            excluded,
        ) {
            let single: bool = match kind {
                QuoteKind::CurlySingle => true,
                _ => false,
            };
            r.push(
                QuoteMark {
                    pos: i,
                    opening: c == kind.open(),
                    eligible: !single || !ascii_letter_adjacent(text, i),
                },
            );
        }
        i = i + 1;
    }
    r
}

/// What a stretch of text holds, as far as pairs of marks are concerned.
#[derive(Clone, Copy, Debug, PartialEq, Eq, Structural)]
pub struct GapContent {
    pub cjk: bool,
    pub latin: bool,
}

/// The characters `from..to` outside the excluded ranges hold CJK text.
pub open spec fn holds_cjk(t: Seq<char>, ex: Seq<ByteRange>, from: int, to: int) -> bool {
    exists|p: int|
        from <= p < to && cjk_context(#[trigger] t[p]) && !span_excluded(t, ex, p, p + 1)
}

/// The characters `from..to` outside the excluded ranges hold Latin letters.
pub open spec fn holds_latin(t: Seq<char>, ex: Seq<ByteRange>, from: int, to: int) -> bool {
    exists|p: int|
        from <= p < to && ascii_letter(#[trigger] t[p]) && !span_excluded(t, ex, p, p + 1)
}

/// What the characters `from..to` hold outside the excluded ranges. A
/// character that a range cuts in two is excluded.
pub fn range_content(text: &Text<'_>, from: usize, to: usize, excluded: &[ByteRange]) -> (r:
    GapContent)
    requires
        text.wf(),
        from <= to <= text@.len(),
    ensures
        r.cjk == holds_cjk(text@, excluded@, from as int, to as int),
        r.latin == holds_latin(text@, excluded@, from as int, to as int),
{
    let mut found = GapContent { cjk: false, latin: false };
    let mut i: usize = from;
    while i < to
        invariant
            text.wf(),
            from <= i <= to <= text@.len(),
            found.cjk == holds_cjk(text@, excluded@, from as int, i as int),
            found.latin == holds_latin(text@, excluded@, from as int, i as int),
        decreases to - i,
    {
        let c = text.ch(i);
        let cjk: bool = is_cjk_context(c);
        let latin: bool = is_ascii_letter(c);
        let ghost was = found;
        if (cjk || latin) && !is_excluded(text.byte(i), text.byte(i + 1), excluded) {
            found = GapContent { cjk: found.cjk || cjk, latin: found.latin || latin };
        }
        proof {
            let t = text@;
            if was.cjk {
                let p = choose|p: int|
                    from <= p < i && cjk_context(#[trigger] t[p]) && !span_excluded(
                        t,
                        excluded@,
                        p,
                        p + 1,
                    );
                assert(cjk_context(t[p]));
            }
            if was.latin {
                let p = choose|p: int|
                    from <= p < i && ascii_letter(#[trigger] t[p]) && !span_excluded(
                        t,
                        excluded@,
                        p,
                        p + 1,
                    );
                assert(ascii_letter(t[p]));
            }
            assert(t[i as int] == c);
        }
        i = i + 1;
    }
    found
}

/// Whether a pair of marks at `o` and `c`, in the paragraph `from..to`, is
/// owned by Chinese prose: there is some outside the pair, or no Latin prose
/// is.
pub open spec fn chinese_owned(
    t: Seq<char>,
    ex: Seq<ByteRange>,
    from: int,
    to: int,
    o: int,
    c: int,
) -> bool {
    ||| holds_cjk(t, ex, from, o)
    ||| holds_cjk(t, ex, c + 1, to)
    ||| !(holds_latin(t, ex, from, o) || holds_latin(t, ex, c + 1, to))
}

/// CJK text stands within three white-space characters of the mark at `p`.
pub open spec fn lone_converts(t: Seq<char>, p: int) -> bool {
    cjk_before(t, p, 3) || cjk_after(t, p + 1, 3)
}

fn unpaired_mark_converts(text: &Text<'_>, p: usize) -> (r: bool)
    requires
        text.wf(),
        p < text@.len(),
    ensures
        r == lone_converts(text@, p as int),
{
    let _n: usize = text.len();
    has_cjk_before(text, p, 3) || has_cjk_after(text, p + 1, 3)
}

/// No white space stands between the marks, and CJK text stands beside one of
/// them: the pair encloses a term, not a quotation.
pub open spec fn term_between(t: Seq<char>, o: int, c: int) -> bool {
    (forall|p: int| o < p < c ==> !whitespace(#[trigger] t[p])) && (lone_converts(t, o)
        || lone_converts(t, c))
}

fn quoted_term(text: &Text<'_>, o: usize, c: usize) -> (r: bool)
    requires
        text.wf(),
        o < c < text@.len(),
    ensures
        r == term_between(text@, o as int, c as int),
{
    let mut i: usize = o + 1;
    while i < c
        invariant
            text.wf(),
            o < i <= c < text@.len(),
            forall|p: int| o < p < i ==> !whitespace(#[trigger] text@[p]),
        decreases c - i,
    {
        if is_whitespace(text.ch(i)) {
            return false;
        }
        i = i + 1;
    }
    unpaired_mark_converts(text, o) || unpaired_mark_converts(text, c)
}

/// The marks at `o` and `c` convert, both of them.
pub open spec fn pair_converts(
    t: Seq<char>,
    ex: Seq<ByteRange>,
    from: int,
    to: int,
    o: QuoteMark,
    c: QuoteMark,
) -> bool {
    &&& o.eligible && c.eligible
    &&& chinese_owned(t, ex, from, to, o.pos as int, c.pos as int)
    &&& holds_cjk(t, ex, o.pos + 1, c.pos as int) || term_between(t, o.pos as int, c.pos as int)
}

/// Whether the mark `i` converts: with its partner, or, where it has none, by
/// what stands beside it.
pub open spec fn converts(
    t: Seq<char>,
    ex: Seq<ByteRange>,
    from: int,
    to: int,
    marks: Seq<QuoteMark>,
    partner: Seq<Option<int>>,
    i: int,
) -> bool {
    match partner[i] {
        Some(j) => if i < j {
            pair_converts(t, ex, from, to, marks[i], marks[j])
        } else {
            pair_converts(t, ex, from, to, marks[j], marks[i])
        },
        None => marks[i].eligible && lone_converts(t, marks[i].pos as int),
    }
}

/// The mark `i` with its direction settled: a mark that pairs by position
/// opens what its partner closes.
pub open spec fn settled(
    mode: PairingMode,
    marks: Seq<QuoteMark>,
    partner: Seq<Option<int>>,
    i: int,
) -> QuoteMark {
    match (mode, partner[i]) {
        (PairingMode::Positional, Some(j)) => QuoteMark { opening: i < j, ..marks[i] },
        _ => marks[i],
    }
}

/// The marks of the paragraph `from..to` that convert.
pub open spec fn paragraph_plan(
    t: Seq<char>,
    ex: Seq<ByteRange>,
    kind: QuoteKind,
    from: int,
    to: int,
) -> Seq<QuoteMark> {
    let marks = marks_in(t, ex, kind, from, to);
    let mode = mode_of(kind, openings_of(marks));
    let partner = partners(mode, openings_of(marks));
    kept(
        Seq::new(marks.len(), |i: int| settled(mode, marks, partner, i)),
        Seq::new(marks.len(), |i: int| converts(t, ex, from, to, marks, partner, i)),
        marks.len() as int,
    )
}

/// The marks of the first `n` paragraphs that convert.
pub open spec fn plan_of(
    t: Seq<char>,
    ex: Seq<ByteRange>,
    kind: QuoteKind,
    p: Seq<(int, int)>,
    n: int,
) -> Seq<QuoteMark>
    decreases n,
{
    if n <= 0 {
        Seq::empty()
    } else {
        plan_of(t, ex, kind, p, n - 1) + paragraph_plan(t, ex, kind, p[n - 1].0, p[n - 1].1)
    }
}

/// Each mark stands behind the one before it.
pub open spec fn ascending(marks: Seq<QuoteMark>) -> bool {
    forall|k: int, m: int|
        0 <= k < m < marks.len() ==> (#[trigger] marks[k]).pos < (#[trigger] marks[m]).pos
}

/// Of a pair of marks both convert, or neither does.
pub proof fn law_pairs_convert_together(
    t: Seq<char>,
    ex: Seq<ByteRange>,
    kind: QuoteKind,
    from: int,
    to: int,
    i: int,
)
    requires
        0 <= i < marks_in(t, ex, kind, from, to).len(),
    ensures
        ({
            let marks = marks_in(t, ex, kind, from, to);
            let partner = partners(mode_of(kind, openings_of(marks)), openings_of(marks));
            partner[i] matches Some(j) ==> converts(t, ex, from, to, marks, partner, i)
                == converts(t, ex, from, to, marks, partner, j)
        }),
{
    let openings = openings_of(marks_in(t, ex, kind, from, to));
    let mode = mode_of(kind, openings);
    if partners(mode, openings)[i] is Some {
        law_pairs_are_mutual(mode, openings, i);
    }
}

/// A count for every position of `from..=to` that grows where the class is
/// met.
spec fn counts(v: Seq<usize>, from: int, to: int, holds: spec_fn(int, int) -> bool) -> bool {
    &&& from <= to
    &&& v.len() == to - from + 1
    &&& forall|k: int| 0 <= k < v.len() ==> #[trigger] v[k] <= k && v[k] <= v[v.len() - 1]
    &&& forall|a: int, b: int|
        from <= a <= b <= to ==> (#[trigger] holds(a, b) == (v[a - from] < v[b - from]))
}

proof fn lemma_counts_push(
    v: Seq<usize>,
    from: int,
    to: int,
    holds: spec_fn(int, int) -> bool,
    x: usize,
)
    requires
        counts(v, from, to, holds),
        forall|a: int, m: int, b: int|
            a <= m <= b ==> holds(a, b) == (#[trigger] holds(a, m) || #[trigger] holds(m, b)),
        !holds(to + 1, to + 1),
        x == v[to - from] + (if holds(to, to + 1) {
            1int
        } else {
            0int
        }),
    ensures
        counts(v.push(x), from, to + 1, holds),
{
    let w = v.push(x);
    assert forall|a: int, b: int| from <= a <= b <= to + 1 implies (#[trigger] holds(a, b) == (w[a
        - from] < w[b - from])) by {
        if b <= to {
            assert(w[a - from] == v[a - from]);
            assert(w[b - from] == v[b - from]);
        } else if a <= to {
            assert(holds(a, to) == (v[a - from] < v[to - from]));
            assert(holds(a, b) == (holds(a, to) || holds(to, b)));
            assert(w[a - from] == v[a - from]);
            assert(w[b - from] == x);
        }
    }
}

spec fn cjk_between(t: Seq<char>, ex: Seq<ByteRange>) -> spec_fn(int, int) -> bool {
    |a: int, b: int| holds_cjk(t, ex, a, b)
}

spec fn latin_between(t: Seq<char>, ex: Seq<ByteRange>) -> spec_fn(int, int) -> bool {
    |a: int, b: int| holds_latin(t, ex, a, b)
}

/// The marks of the first `n` paragraphs stand in ascending order, within
/// their text.
proof fn lemma_plan_ascends(
    t: Seq<char>,
    ex: Seq<ByteRange>,
    kind: QuoteKind,
    p: Seq<(int, int)>,
    n: int,
)
    requires
        0 <= n <= p.len(),
        t.len() <= usize::MAX,
        forall|k: int| 0 <= k < p.len() ==> 0 <= (#[trigger] p[k]).0 <= p[k].1 <= t.len(),
        forall|k: int, m: int| 0 <= k < m < p.len() ==> (#[trigger] p[k]).1 <= (#[trigger] p[m]).0,
    ensures
        ascending(plan_of(t, ex, kind, p, n)),
        forall|k: int|
            0 <= k < plan_of(t, ex, kind, p, n).len() ==> (#[trigger] plan_of(
                t,
                ex,
                kind,
                p,
                n,
            )[k]).pos < (if n > 0 {
                p[n - 1].1
            } else {
                0
            }),
    decreases n,
{
    if n > 0 {
        lemma_plan_ascends(t, ex, kind, p, n - 1);
        let (from, to) = p[n - 1];
        let marks = marks_in(t, ex, kind, from, to);
        let mode = mode_of(kind, openings_of(marks));
        let partner = partners(mode, openings_of(marks));
        let labelled = Seq::new(marks.len(), |i: int| settled(mode, marks, partner, i));
        let flags = Seq::new(
            marks.len(),
            |i: int| converts(t, ex, from, to, marks, partner, i),
        );
        lemma_marks(t, ex, kind, from, to);
        let here = paragraph_plan(t, ex, kind, from, to);
        let at = lemma_kept_origin(labelled, flags, marks.len() as int);
        assert forall|k: int| 0 <= k < here.len() implies from <= (#[trigger] here[k]).pos < to by {
            assert(here[k] == labelled[at[k]]);
            assert(from <= marks[at[k]].pos < to);
        }
        assert forall|k: int, m: int| 0 <= k < m < here.len() implies (#[trigger] here[k]).pos < (
        #[trigger] here[m]).pos by {
            assert(here[k] == labelled[at[k]]);
            assert(here[m] == labelled[at[m]]);
            assert(marks[at[k]].pos < marks[at[m]].pos);
        }
        let before = plan_of(t, ex, kind, p, n - 1);
        if n > 1 {
            assert(p[n - 2].1 <= p[n - 1].0);
        }
        assert forall|k: int, m: int| 0 <= k < m < (before + here).len() implies (#[trigger] (before
            + here)[k]).pos < (#[trigger] (before + here)[m]).pos by {
            if m < before.len() {
                assert(before[k].pos < before[m].pos);
            } else if k >= before.len() {
                assert(here[k - before.len()].pos < here[m - before.len()].pos);
            } else {
                assert(before[k].pos < from);
                assert(from <= here[m - before.len()].pos);
            }
        }
        assert forall|k: int| 0 <= k < (before + here).len() implies (#[trigger] (before
            + here)[k]).pos < to by {
            if k < before.len() {
                assert(before[k].pos < from);
            }
        }
    }
}

/// How much of each class the characters from `from` on hold, up to every
/// position.
struct Readable {
    from: usize,
    cjk: Vec<usize>,
    latin: Vec<usize>,
}

impl Readable {
    spec fn of(&self, t: Seq<char>, ex: Seq<ByteRange>, to: int) -> bool {
        &&& counts(self.cjk@, self.from as int, to, cjk_between(t, ex))
        &&& counts(self.latin@, self.from as int, to, latin_between(t, ex))
    }

    fn build(text: &Text<'_>, excluded: &[ByteRange], from: usize, to: usize) -> (r: Self)
        requires
            text.wf(),
            from <= to <= text@.len(),
        ensures
            r.from == from,
            r.of(text@, excluded@, to as int),
    {
        let mut cjk: Vec<usize> = Vec::new();
        let mut latin: Vec<usize> = Vec::new();
        cjk.push(0);
        latin.push(0);
        let ghost f = cjk_between(text@, excluded@);
        let ghost g = latin_between(text@, excluded@);
        let mut i: usize = from;
        while i < to
            invariant
                text.wf(),
                from <= i <= to <= text@.len(),
                f == cjk_between(text@, excluded@),
                g == latin_between(text@, excluded@),
                counts(cjk@, from as int, i as int, f),
                counts(latin@, from as int, i as int, g),
            decreases to - i,
        {
            let here = range_content(text, i, i + 1, excluded);
            let c: usize = cjk[i - from];
            let l: usize = latin[i - from];
            let c2: usize = if here.cjk {
                c + 1
            } else {
                c
            };
            let l2: usize = if here.latin {
                l + 1
            } else {
                l
            };
            proof {
                assert forall|a: int, m: int, b: int| a <= m <= b implies f(a, b) == (#[trigger] f(
                    a,
                    m,
                ) || #[trigger] f(m, b)) by {
                    lemma_holds_split(text@, excluded@, a, m, b);
                }
                assert forall|a: int, m: int, b: int| a <= m <= b implies g(a, b) == (#[trigger] g(
                    a,
                    m,
                ) || #[trigger] g(m, b)) by {
                    lemma_holds_split(text@, excluded@, a, m, b);
                }
                lemma_counts_push(cjk@, from as int, i as int, f, c2);
                lemma_counts_push(latin@, from as int, i as int, g, l2);
            }
            cjk.push(c2);
            latin.push(l2);
            i = i + 1;
        }
        Readable { from, cjk, latin }
    }

    fn has_cjk(
        &self,
        a: usize,
        b: usize,
        Ghost(t): Ghost<Seq<char>>,
        Ghost(ex): Ghost<Seq<ByteRange>>,
        Ghost(to): Ghost<int>,
    ) -> (r: bool)
        requires
            self.of(t, ex, to),
            self.from <= a <= b <= to,
        ensures
            r == holds_cjk(t, ex, a as int, b as int),
    {
        assert(cjk_between(t, ex)(a as int, b as int) == holds_cjk(t, ex, a as int, b as int));
        self.cjk[a - self.from] < self.cjk[b - self.from]
    }

    fn has_latin(
        &self,
        a: usize,
        b: usize,
        Ghost(t): Ghost<Seq<char>>,
        Ghost(ex): Ghost<Seq<ByteRange>>,
        Ghost(to): Ghost<int>,
    ) -> (r: bool)
        requires
            self.of(t, ex, to),
            self.from <= a <= b <= to,
        ensures
            r == holds_latin(t, ex, a as int, b as int),
    {
        assert(latin_between(t, ex)(a as int, b as int) == holds_latin(
            t,
            ex,
            a as int,
            b as int,
        ));
        self.latin[a - self.from] < self.latin[b - self.from]
    }
}

proof fn lemma_holds_split(t: Seq<char>, ex: Seq<ByteRange>, a: int, m: int, b: int)
    requires
        a <= m <= b,
    ensures
        holds_cjk(t, ex, a, b) == (holds_cjk(t, ex, a, m) || holds_cjk(t, ex, m, b)),
        holds_latin(t, ex, a, b) == (holds_latin(t, ex, a, m) || holds_latin(t, ex, m, b)),
{
    if holds_cjk(t, ex, a, m) {
        let p = choose|p: int|
            a <= p < m && cjk_context(#[trigger] t[p]) && !span_excluded(t, ex, p, p + 1);
        assert(cjk_context(t[p]));
    }
    if holds_cjk(t, ex, m, b) {
        let p = choose|p: int|
            m <= p < b && cjk_context(#[trigger] t[p]) && !span_excluded(t, ex, p, p + 1);
        assert(cjk_context(t[p]));
    }
    if holds_latin(t, ex, a, m) {
        let p = choose|p: int|
            a <= p < m && ascii_letter(#[trigger] t[p]) && !span_excluded(t, ex, p, p + 1);
        assert(ascii_letter(t[p]));
    }
    if holds_latin(t, ex, m, b) {
        let p = choose|p: int|
            m <= p < b && ascii_letter(#[trigger] t[p]) && !span_excluded(t, ex, p, p + 1);
        assert(ascii_letter(t[p]));
    }
}

/// Whether the pair of marks `o` and `c` converts.
fn pair_is_converted(
    text: &Text<'_>,
    Ghost(ex): Ghost<Seq<ByteRange>>,
    readable: &Readable,
    from: usize,
    to: usize,
    o: QuoteMark,
    c: QuoteMark,
) -> (r: bool)
    requires
        text.wf(),
        from <= o.pos < c.pos < to <= text@.len(),
        readable.from == from,
        readable.of(text@, ex, to as int),
    ensures
        r == pair_converts(text@, ex, from as int, to as int, o, c),
{
    let ghost t = text@;
    let ghost end = to as int;
    if !o.eligible || !c.eligible {
        return false;
    }
    let cjk_before_pair: bool = readable.has_cjk(from, o.pos, Ghost(t), Ghost(ex), Ghost(end));
    let cjk_after_pair: bool = readable.has_cjk(c.pos + 1, to, Ghost(t), Ghost(ex), Ghost(end));
    let latin_before: bool = readable.has_latin(from, o.pos, Ghost(t), Ghost(ex), Ghost(end));
    let latin_after: bool = readable.has_latin(c.pos + 1, to, Ghost(t), Ghost(ex), Ghost(end));
    let within: bool = readable.has_cjk(o.pos + 1, c.pos, Ghost(t), Ghost(ex), Ghost(end));
    (cjk_before_pair || cjk_after_pair || !(latin_before || latin_after)) && (within
        || quoted_term(text, o.pos, c.pos))
}

/// The marks of one paragraph that convert.
fn plan_paragraph(text: &Text<'_>, excluded: &[ByteRange], kind: QuoteKind, from: usize, to: usize)
    -> (r: Vec<QuoteMark>)
    requires
        text.wf(),
        from <= to <= text@.len(),
    ensures
        r@ == paragraph_plan(text@, excluded@, kind, from as int, to as int),
{
    let _n: usize = text.len();
    let mut marks = collect_marks(text, excluded, kind, from, to);
    let ghost all = marks@;
    proof {
        lemma_marks(text@, excluded@, kind, from as int, to as int);
    }
    if marks.len() == 0 {
        return marks;
    }
    let mut openings: Vec<bool> = Vec::new();
    let mut k: usize = 0;
    while k < marks.len()
        invariant
            k <= marks@.len(),
            openings@.len() == k,
            forall|j: int| 0 <= j < k ==> #[trigger] openings@[j] == marks@[j].opening,
        decreases marks@.len() - k,
    {
        openings.push(marks[k].opening);
        k = k + 1;
    }
    assert(openings@ =~= openings_of(all));
    let mode = pairing_mode(kind, &openings);
    let partner = pair_marks(mode, &openings);
    let ghost mates = partners(mode, openings@);
    let readable = Readable::build(text, excluded, from, to);
    let mut keep: Vec<bool> = Vec::new();
    let ghost labelled = Seq::new(all.len(), |i: int| settled(mode, all, mates, i));
    let ghost flags = Seq::new(
        all.len(),
        |i: int| converts(text@, excluded@, from as int, to as int, all, mates, i),
    );
    let mut i: usize = 0;
    while i < marks.len()
        invariant
            text.wf(),
            from <= to <= text@.len(),
            i <= marks@.len(),
            marks@.len() == all.len(),
            partner@.len() == all.len(),
            mates.len() == all.len(),
            openings@.len() == all.len(),
            mates == partners(mode, openings@),
            readable.from == from,
            readable.of(text@, excluded@, to as int),
            forall|j: int| 0 <= j < all.len() ==> opt_int(#[trigger] partner@[j]) == mates[j],
            forall|j: int| 0 <= j < all.len() ==> from <= (#[trigger] all[j]).pos < to,
            forall|a: int, b: int|
                0 <= a < b < all.len() ==> (#[trigger] all[a]).pos < (#[trigger] all[b]).pos,
            keep@.len() == i,
            flags == Seq::new(
                all.len(),
                |i: int| converts(text@, excluded@, from as int, to as int, all, mates, i),
            ),
            labelled == Seq::new(all.len(), |i: int| settled(mode, all, mates, i)),
            forall|j: int| 0 <= j < i ==> #[trigger] keep@[j] == flags[j],
            forall|j: int| 0 <= j < i ==> #[trigger] marks@[j] == labelled[j],
            forall|j: int| i <= j < all.len() ==> #[trigger] marks@[j] == all[j],
            forall|j: int| 0 <= j < all.len() ==> (#[trigger] marks@[j]).pos == all[j].pos
                && marks@[j].eligible == all[j].eligible,
        decreases marks@.len() - i,
    {
        let m = marks[i];
        assert(m == all[i as int]);
        match partner[i] {
            Some(j) => {
                proof {
                    assert(mates[i as int] == opt_int(partner@[i as int]));
                    law_pairs_are_mutual(mode, openings@, i as int);
                    assert(all[i as int].pos == m.pos);
                }
                let other = marks[j];
                let first = if i < j { m } else { other };
                let second = if i < j { other } else { m };
                let both: bool = pair_is_converted(
                    text,
                    Ghost(excluded@),
                    &readable,
                    from,
                    to,
                    first,
                    second,
                );
                proof {
                    let (o, c) = if i < j { (i as int, j as int) } else { (j as int, i as int) };
                    assert(both == pair_converts(
                        text@,
                        excluded@,
                        from as int,
                        to as int,
                        all[o],
                        all[c],
                    ));
                    assert(both == flags[i as int]);
                }
                keep.push(both);
                let positional: bool = match mode {
                    PairingMode::Positional => true,
                    _ => false,
                };
                if positional {
                    marks.set(i, QuoteMark { pos: m.pos, opening: i < j, eligible: m.eligible });
                }
            },
            None => {
                assert(mates[i as int] == opt_int(partner@[i as int]));
                let alone: bool = m.eligible && unpaired_mark_converts(text, m.pos);
                assert(alone == flags[i as int]);
                keep.push(alone);
            },
        }
        assert(marks@[i as int] == labelled[i as int]);
        i = i + 1;
    }
    assert(marks@ =~= labelled);
    assert(keep@ =~= flags);
    retain(&mut marks, &keep);
    marks
}

/// Decides which quotation marks of one kind convert. Marks pair within their
/// paragraph; of a pair both convert or neither does; a mark without a partner
/// goes by what stands beside it. The marks come in ascending order.
pub fn plan_quote_conversions(text: &Text<'_>, excluded: &[ByteRange], kind: QuoteKind) -> (r: Vec<
    QuoteMark,
>)
    requires
        text.wf(),
    ensures
        r@ == plan_of(
            text@,
            excluded@,
            kind,
            paragraphs_of(text@),
            paragraphs_of(text@).len() as int,
        ),
        ascending(r@),
        forall|k: int| 0 <= k < r@.len() ==> (#[trigger] r@[k]).pos < text@.len(),
{
    let _n: usize = text.len();
    let paragraphs = paragraph_spans(text);
    let ghost p = paragraphs_of(text@);
    let mut plan: Vec<QuoteMark> = Vec::new();
    let mut k: usize = 0;
    while k < paragraphs.len()
        invariant
            text.wf(),
            k <= paragraphs@.len(),
            spans(paragraphs@) == p,
            forall|j: int|
                0 <= j < paragraphs@.len() ==> (#[trigger] paragraphs@[j]).start
                    <= paragraphs@[j].end <= text@.len(),
            plan@ == plan_of(text@, excluded@, kind, p, k as int),
        decreases paragraphs@.len() - k,
    {
        let b = paragraphs[k];
        let mut more = plan_paragraph(text, excluded, kind, b.start, b.end);
        assert(p[k as int] == (b.start as int, b.end as int));
        plan.append(&mut more);
        k = k + 1;
    }
    proof {
        lemma_paragraphs_ordered(text@, 0, 0);
        lemma_plan_ascends(text@, excluded@, kind, p, p.len() as int);
    }
    plan
}

/// The character is a mark of the kind.
pub open spec fn is_mark(kind: QuoteKind, c: char) -> bool {
    match kind {
        QuoteKind::CurlyDouble => c == '\u{201c}' || c == '\u{201d}',
        QuoteKind::CurlySingle => c == '\u{2018}' || c == '\u{2019}',
        QuoteKind::AsciiDouble => c == '"',
    }
}

/// Characters that are no marks add none.
proof fn lemma_no_marks(t: Seq<char>, ex: Seq<ByteRange>, kind: QuoteKind, from: int, a: int, b: int)
    requires
        from <= a <= b,
        forall|q: int|
            a <= q < b ==> !(is_mark(kind, #[trigger] t[q]) && !span_excluded(t, ex, q, q + 1)),
    ensures
        marks_in(t, ex, kind, from, b) == marks_in(t, ex, kind, from, a),
    decreases b - a,
{
    if a < b {
        assert(!(is_mark(kind, t[b - 1]) && !span_excluded(t, ex, b - 1, b)));
        lemma_no_marks(t, ex, kind, from, a, b - 1);
    }
}

/// The marks of a stretch that holds two.
proof fn lemma_two_marks(
    t: Seq<char>,
    ex: Seq<ByteRange>,
    kind: QuoteKind,
    from: int,
    to: int,
    o: int,
    c: int,
)
    requires
        0 <= from <= o < c < to <= t.len(),
        t.len() <= usize::MAX,
        forall|q: int|
            from <= q < to ==> (is_mark(kind, #[trigger] t[q]) && !span_excluded(t, ex, q, q + 1))
                == (q == o || q == c),
    ensures
        ({
            let marks = marks_in(t, ex, kind, from, to);
            &&& marks.len() == 2
            &&& marks[0].pos == o
            &&& marks[1].pos == c
            &&& marks[0].opening == (t[o] == kind.opener())
            &&& marks[1].opening == (t[c] == kind.opener())
            &&& marks[0].eligible == (!(kind is CurlySingle) || !letter_beside(t, o))
            &&& marks[1].eligible == (!(kind is CurlySingle) || !letter_beside(t, c))
        }),
{
    lemma_no_marks(t, ex, kind, from, from, o);
    assert(is_mark(kind, t[o]) && !span_excluded(t, ex, o, o + 1));
    let first = marks_in(t, ex, kind, from, o + 1);
    assert(marks_in(t, ex, kind, from, from) =~= Seq::empty());
    assert(first.len() == 1);
    lemma_no_marks(t, ex, kind, from, o + 1, c);
    assert(is_mark(kind, t[c]) && !span_excluded(t, ex, c, c + 1));
    lemma_no_marks(t, ex, kind, from, c + 1, to);
}

/// Two double marks go together, whichever way they are written.
pub(crate) proof fn lemma_two_partners(kind: QuoteKind, openings: Seq<bool>)
    requires
        openings.len() == 2,
        !(kind is CurlySingle) || (openings[0] && !openings[1]),
    ensures
        ({
            let partner = partners(mode_of(kind, openings), openings);
            partner.len() == 2 && partner[0] == Some(1int) && partner[1] == Some(0int)
        }),
        mode_of(kind, openings) is Directional ==> openings[0] && !openings[1],
        !(mode_of(kind, openings) is Alone),
{
    reveal_with_fuel(depth_after, 3);
    reveal_with_fuel(partners_by_direction, 3);
    reveal_with_fuel(still_open, 3);
    assert(depth_after(openings, 0) == 0);
    assert(depth_after(openings, 1) == (if openings[0] { 1int } else { -1int }));
    if openings[0] && !openings[1] {
        assert(openings.contains(true));
        assert(openings.contains(false));
        assert forall|n: int| 0 <= n <= openings.len() implies #[trigger] depth_after(openings, n)
            >= 0 by {
            assert(n == 0 || n == 1 || n == 2);
        }
        assert(direction_usable(openings));
    }
    if direction_usable(openings) {
        let k = choose|k: int| 0 <= k < openings.len() && openings[k] == false;
        assert(k == 1);
    }
}

/// The plan of a paragraph with two marks, where they go together.
proof fn lemma_plan_of_two(
    t: Seq<char>,
    ex: Seq<ByteRange>,
    kind: QuoteKind,
    from: int,
    to: int,
    o: int,
    c: int,
)
    requires
        0 <= from <= o < c < to <= t.len(),
        t.len() <= usize::MAX,
        !(kind is CurlySingle) || (t[o] == '\u{2018}' && t[c] == '\u{2019}'),
        forall|q: int|
            from <= q < to ==> (is_mark(kind, #[trigger] t[q]) && !span_excluded(t, ex, q, q + 1))
                == (q == o || q == c),
    ensures
        ({
            let marks = marks_in(t, ex, kind, from, to);
            let plan = paragraph_plan(t, ex, kind, from, to);
            if pair_converts(t, ex, from, to, marks[0], marks[1]) {
                &&& plan.len() == 2
                &&& plan[0].pos == o && plan[0].opening
                &&& plan[1].pos == c && !plan[1].opening
            } else {
                plan.len() == 0
            }
        }),
{
    lemma_two_marks(t, ex, kind, from, to, o, c);
    let marks = marks_in(t, ex, kind, from, to);
    let openings = openings_of(marks);
    lemma_two_partners(kind, openings);
    let mode = mode_of(kind, openings);
    let partner = partners(mode, openings);
    let labelled = Seq::new(marks.len(), |i: int| settled(mode, marks, partner, i));
    let flags = Seq::new(marks.len(), |i: int| converts(t, ex, from, to, marks, partner, i));
    reveal_with_fuel(kept, 3);
    assert(flags[0] == flags[1]);
    assert(labelled[0].opening && !labelled[1].opening);
    assert(kept(labelled, flags, 0) =~= Seq::empty());
}

/// Two double quotation marks that are the only ones of their kind in a
/// paragraph convert together, the first to open and the second to close, where
/// Chinese stands between them and no Latin letter outside them, or Chinese both
/// between them and outside them; also around a single term that Chinese stands
/// right beside. Neither converts where only Latin prose stands outside, nor
/// where the words between them are several and not Chinese.
pub proof fn law_two_double_marks(
    t: Seq<char>,
    ex: Seq<ByteRange>,
    kind: QuoteKind,
    from: int,
    to: int,
    o: int,
    c: int,
)
    requires
        0 <= from <= o < c < to <= t.len(),
        t.len() <= usize::MAX,
        kind is CurlyDouble || kind is AsciiDouble,
        forall|q: int|
            from <= q < to ==> ((if kind is CurlyDouble {
                #[trigger] t[q] == '\u{201c}' || t[q] == '\u{201d}'
            } else {
                t[q] == '"'
            }) && !span_excluded(t, ex, q, q + 1)) == (q == o || q == c),
    ensures
        ({
            let plan = paragraph_plan(t, ex, kind, from, to);
            let chinese_inside = exists|q: int|
                o < q < c && cjk_context(#[trigger] t[q]) && !span_excluded(t, ex, q, q + 1);
            let chinese_outside = exists|q: int|
                from <= q < to && (q < o || c < q) && cjk_context(#[trigger] t[q])
                    && !span_excluded(t, ex, q, q + 1);
            let latin_outside = exists|q: int|
                from <= q < to && (q < o || c < q) && (0x41 <= (#[trigger] t[q]) as int <= 0x5A
                    || 0x61 <= t[q] as int <= 0x7A) && !span_excluded(t, ex, q, q + 1);
            let blank_inside = exists|q: int| o < q < c && #[trigger] t[q] == ' ';
            let chinese_beside = (o > 0 && cjk_context(t[o - 1])) || (c + 1 < t.len()
                && cjk_context(t[c + 1]));
            let white_inside = exists|q: int| o < q < c && whitespace(#[trigger] t[q]);
            &&& chinese_inside && (chinese_outside || !latin_outside) ==> {
                &&& plan.len() == 2
                &&& plan[0].pos == o && plan[0].opening
                &&& plan[1].pos == c && !plan[1].opening
            }
            &&& chinese_outside && chinese_beside && !white_inside ==> {
                &&& plan.len() == 2
                &&& plan[0].pos == o && plan[0].opening
                &&& plan[1].pos == c && !plan[1].opening
            }
            &&& latin_outside && !chinese_outside ==> plan.len() == 0
            &&& !chinese_inside && blank_inside ==> plan.len() == 0
        }),
{
    assert forall|q: int| from <= q < to implies (is_mark(kind, #[trigger] t[q]) && !span_excluded(
        t,
        ex,
        q,
        q + 1,
    )) == (q == o || q == c) by {}
    lemma_two_marks(t, ex, kind, from, to, o, c);
    lemma_plan_of_two(t, ex, kind, from, to, o, c);
    if exists|q: int|
        from <= q < to && (q < o || c < q) && cjk_context(#[trigger] t[q]) && !span_excluded(
            t,
            ex,
            q,
            q + 1,
        ) {
        let q = choose|q: int|
            from <= q < to && (q < o || c < q) && cjk_context(#[trigger] t[q]) && !span_excluded(
                t,
                ex,
                q,
                q + 1,
            );
        assert(holds_cjk(t, ex, from, o) || holds_cjk(t, ex, c + 1, to));
    }
    if exists|q: int|
        from <= q < to && (q < o || c < q) && (0x41 <= (#[trigger] t[q]) as int <= 0x5A || 0x61
            <= t[q] as int <= 0x7A) && !span_excluded(t, ex, q, q + 1) {
        let q = choose|q: int|
            from <= q < to && (q < o || c < q) && (0x41 <= (#[trigger] t[q]) as int <= 0x5A || 0x61
                <= t[q] as int <= 0x7A) && !span_excluded(t, ex, q, q + 1);
        assert(ascii_letter(t[q]));
        assert(holds_latin(t, ex, from, o) || holds_latin(t, ex, c + 1, to));
    }
    if exists|q: int| o < q < c && #[trigger] t[q] == ' ' {
        let q = choose|q: int| o < q < c && #[trigger] t[q] == ' ';
        assert(whitespace(t[q]));
        assert(!term_between(t, o, c));
    }
    lemma_beside(t, o);
    lemma_beside(t, c);
}

/// CJK text right beside a mark is near it.
proof fn lemma_beside(t: Seq<char>, p: int)
    requires
        0 <= p < t.len(),
    ensures
        p > 0 && cjk_context(t[p - 1]) ==> lone_converts(t, p),
        p + 1 < t.len() && cjk_context(t[p + 1]) ==> lone_converts(t, p),
{
}

/// A text without line ends is one paragraph.
pub proof fn lemma_one_paragraph(t: Seq<char>)
    requires
        t.len() > 0,
        forall|q: int| 0 <= q < t.len() ==> #[trigger] t[q] != '\n' && t[q] != '\r',
    ensures
        paragraphs_of(t) == seq![(0int, t.len() as int)],
{
    lemma_one_paragraph_from(t, 0);
}

proof fn lemma_one_paragraph_from(t: Seq<char>, i: int)
    requires
        t.len() > 0,
        0 <= i <= t.len(),
        forall|q: int| 0 <= q < t.len() ==> #[trigger] t[q] != '\n' && t[q] != '\r',
    ensures
        paragraphs_from(t, 0, i) == seq![(0int, t.len() as int)],
    decreases t.len() - i,
{
    if i < t.len() {
        assert(t[i] != '\n');
        lemma_one_paragraph_from(t, i + 1);
    } else {
        assert(t[t.len() - 1] != '\n');
    }
}

/// The plan of a text that is one paragraph.
pub proof fn lemma_plan_of_one(t: Seq<char>, ex: Seq<ByteRange>, kind: QuoteKind)
    requires
        t.len() > 0,
        forall|q: int| 0 <= q < t.len() ==> #[trigger] t[q] != '\n' && t[q] != '\r',
    ensures
        plan_of(t, ex, kind, paragraphs_of(t), paragraphs_of(t).len() as int) == paragraph_plan(
            t,
            ex,
            kind,
            0,
            t.len() as int,
        ),
{
    lemma_one_paragraph(t);
    reveal_with_fuel(plan_of, 2);
    assert(plan_of(t, ex, kind, paragraphs_of(t), 1) =~= paragraph_plan(
        t,
        ex,
        kind,
        0,
        t.len() as int,
    ));
}

/// A single opening mark and a single closing mark that are the only ones of
/// their kind in a paragraph convert together, where no Latin letter stands right
/// beside either, Chinese stands between them, and Chinese or no Latin letter
/// stands outside them. A letter beside one of them makes an apostrophe of it,
/// and neither converts.
pub proof fn law_two_single_marks(
    t: Seq<char>,
    ex: Seq<ByteRange>,
    from: int,
    to: int,
    o: int,
    c: int,
)
    requires
        0 <= from <= o < c < to <= t.len(),
        t.len() <= usize::MAX,
        t[o] == '\u{2018}',
        t[c] == '\u{2019}',
        forall|q: int|
            from <= q < to ==> ((#[trigger] t[q] == '\u{2018}' || t[q] == '\u{2019}')
                && !span_excluded(t, ex, q, q + 1)) == (q == o || q == c),
    ensures
        ({
            let plan = paragraph_plan(t, ex, QuoteKind::CurlySingle, from, to);
            let letter = |q: int|
                0 <= q < t.len() && (0x41 <= t[q] as int <= 0x5A || 0x61 <= t[q] as int <= 0x7A);
            let apostrophe = letter(o - 1) || letter(o + 1) || letter(c - 1) || letter(c + 1);
            let chinese_inside = exists|q: int|
                o < q < c && cjk_context(#[trigger] t[q]) && !span_excluded(t, ex, q, q + 1);
            let chinese_outside = exists|q: int|
                from <= q < to && (q < o || c < q) && cjk_context(#[trigger] t[q])
                    && !span_excluded(t, ex, q, q + 1);
            let latin_outside = exists|q: int|
                from <= q < to && (q < o || c < q) && (0x41 <= (#[trigger] t[q]) as int <= 0x5A
                    || 0x61 <= t[q] as int <= 0x7A) && !span_excluded(t, ex, q, q + 1);
            &&& !apostrophe && chinese_inside && (chinese_outside || !latin_outside) ==> {
                &&& plan.len() == 2
                &&& plan[0].pos == o && plan[0].opening
                &&& plan[1].pos == c && !plan[1].opening
            }
            &&& apostrophe ==> plan.len() == 0
            &&& latin_outside && !chinese_outside ==> plan.len() == 0
        }),
{
    let kind = QuoteKind::CurlySingle;
    assert forall|q: int| from <= q < to implies (is_mark(kind, #[trigger] t[q]) && !span_excluded(
        t,
        ex,
        q,
        q + 1,
    )) == (q == o || q == c) by {}
    lemma_two_marks(t, ex, kind, from, to, o, c);
    lemma_plan_of_two(t, ex, kind, from, to, o, c);
    if exists|q: int|
        from <= q < to && (q < o || c < q) && cjk_context(#[trigger] t[q]) && !span_excluded(
            t,
            ex,
            q,
            q + 1,
        ) {
        let q = choose|q: int|
            from <= q < to && (q < o || c < q) && cjk_context(#[trigger] t[q]) && !span_excluded(
                t,
                ex,
                q,
                q + 1,
            );
        assert(holds_cjk(t, ex, from, o) || holds_cjk(t, ex, c + 1, to));
    }
    if exists|q: int|
        from <= q < to && (q < o || c < q) && (0x41 <= (#[trigger] t[q]) as int <= 0x5A || 0x61
            <= t[q] as int <= 0x7A) && !span_excluded(t, ex, q, q + 1) {
        let q = choose|q: int|
            from <= q < to && (q < o || c < q) && (0x41 <= (#[trigger] t[q]) as int <= 0x5A || 0x61
                <= t[q] as int <= 0x7A) && !span_excluded(t, ex, q, q + 1);
        assert(ascii_letter(t[q]));
        assert(holds_latin(t, ex, from, o) || holds_latin(t, ex, c + 1, to));
    }
}

/// A mark that is alone of its kind in a paragraph keeps the direction that it is
/// written with, and converts where Chinese stands right beside it.
pub proof fn law_a_lone_mark(
    t: Seq<char>,
    ex: Seq<ByteRange>,
    kind: QuoteKind,
    from: int,
    to: int,
    p: int,
)
    requires
        0 <= from <= p < to <= t.len(),
        t.len() <= usize::MAX,
        kind is CurlyDouble || kind is AsciiDouble,
        forall|q: int|
            from <= q < to ==> ((if kind is CurlyDouble {
                #[trigger] t[q] == '\u{201c}' || t[q] == '\u{201d}'
            } else {
                t[q] == '"'
            }) && !span_excluded(t, ex, q, q + 1)) == (q == p),
    ensures
        ({
            let plan = paragraph_plan(t, ex, kind, from, to);
            &&& (p > 0 && cjk_context(t[p - 1])) || (p + 1 < t.len() && cjk_context(t[p + 1])) ==> {
                &&& plan.len() == 1
                &&& plan[0].pos == p
                &&& plan[0].opening == (t[p] != '\u{201d}')
            }
            &&& (p == 0 || 0x41 <= t[p - 1] as int <= 0x5A || 0x61 <= t[p - 1] as int <= 0x7A) && (p
                + 1 == t.len() || 0x41 <= t[p + 1] as int <= 0x5A || 0x61 <= t[p + 1] as int <= 0x7A)
                ==> plan.len() == 0
        }),
{
    assert forall|q: int| from <= q < to implies (is_mark(kind, #[trigger] t[q]) && !span_excluded(
        t,
        ex,
        q,
        q + 1,
    )) == (q == p) by {}
    lemma_no_marks(t, ex, kind, from, from, p);
    assert(is_mark(kind, t[p]) && !span_excluded(t, ex, p, p + 1));
    assert(marks_in(t, ex, kind, from, from) =~= Seq::empty());
    lemma_no_marks(t, ex, kind, from, p + 1, to);
    let marks = marks_in(t, ex, kind, from, to);
    assert(marks.len() == 1);
    let openings = openings_of(marks);
    reveal_with_fuel(partners_by_direction, 2);
    reveal_with_fuel(still_open, 2);
    assert(openings.len() == 1);
    assert(!direction_usable(openings)) by {
        if direction_usable(openings) {
            let a = choose|a: int| 0 <= a < openings.len() && openings[a] == true;
            let b = choose|b: int| 0 <= b < openings.len() && openings[b] == false;
            assert(a == b);
        }
    }
    let mode = mode_of(kind, openings);
    let partner = partners(mode, openings);
    assert(partner[0] is None);
    let labelled = Seq::new(marks.len(), |i: int| settled(mode, marks, partner, i));
    let flags = Seq::new(marks.len(), |i: int| converts(t, ex, from, to, marks, partner, i));
    reveal_with_fuel(kept, 2);
    assert(flags[0] == lone_converts(t, p));
    lemma_beside(t, p);
    assert(kept(labelled, flags, 0) =~= Seq::empty());
}

/// Once two marks go together, what follows does not part them.
proof fn lemma_pair_stays(openings: Seq<bool>, i: int, n: int)
    requires
        0 <= i,
        i + 2 <= n <= openings.len(),
        openings[i],
        !openings[i + 1],
    ensures
        partners_by_direction(openings, n)[i] == Some(i + 1),
        partners_by_direction(openings, n)[i + 1] == Some(i),
    decreases n,
{
    lemma_partners(openings, n - 1);
    lemma_partners(openings, n);
    if n == i + 2 {
        let open = still_open(openings, i + 1);
        lemma_partners(openings, i + 1);
        assert(open.last() == i);
    } else {
        lemma_pair_stays(openings, i, n - 1);
        let before = partners_by_direction(openings, n - 1);
        let open = still_open(openings, n - 1);
        if !openings[n - 1] && open.len() > 0 {
            let o = open.last();
            assert(open[open.len() - 1] == o);
            assert(before[o] is None);
            assert(o != i && o != i + 1);
        }
    }
}

/// A curly mark that opens and one right behind it that closes, of those that
/// carry a usable direction, go together.
pub proof fn law_adjacent_marks_go_together(kind: QuoteKind, openings: Seq<bool>, i: int)
    requires
        kind is CurlyDouble || kind is CurlySingle,
        direction_usable(openings),
        0 <= i,
        i + 1 < openings.len(),
        openings[i],
        !openings[i + 1],
    ensures
        partners(mode_of(kind, openings), openings)[i] == Some(i + 1),
        partners(mode_of(kind, openings), openings)[i + 1] == Some(i),
{
    lemma_pair_stays(openings, i, openings.len() as int);
}

/// Straight marks alternate: the first goes with the second, the third with the
/// fourth, and so on. So do curly double marks without a usable direction; curly
/// single marks without one go with none.
pub proof fn law_marks_without_direction(kind: QuoteKind, openings: Seq<bool>, k: int)
    requires
        0 <= k,
        2 * k + 1 < openings.len(),
        kind is AsciiDouble || !direction_usable(openings),
    ensures
        ({
            let partner = partners(mode_of(kind, openings), openings);
            if kind is CurlySingle {
                partner[2 * k] is None && partner[2 * k + 1] is None
            } else {
                partner[2 * k] == Some(2 * k + 1) && partner[2 * k + 1] == Some(2 * k)
            }
        }),
{
}

/// CJK text before a mark counts up to three blanks away, and not farther.
pub proof fn law_how_near_chinese_has_to_be(t: Seq<char>, j: int, p: int)
    requires
        0 <= j < p < t.len(),
        cjk_context(t[j]),
        forall|q: int| j < q < p ==> #[trigger] t[q] == ' ',
        p + 1 == t.len() || 0x21 <= t[p + 1] as int <= 0x7E,
    ensures
        lone_converts(t, p) == (p - j - 1 <= 3),
{
    lemma_trims_to(t, j, p);
    if p + 1 < t.len() {
        assert(!whitespace(t[p + 1]));
    }
}

proof fn lemma_trims_to(t: Seq<char>, j: int, p: int)
    requires
        0 <= j < p <= t.len(),
        cjk_context(t[j]),
        forall|q: int| j < q < p ==> #[trigger] t[q] == ' ',
    ensures
        crate::lines::trim_white_end(t, 0, p) == j + 1,
    decreases p - j,
{
    if j + 1 < p {
        assert(t[p - 1] == ' ');
        lemma_trims_to(t, j, p - 1);
    }
}

} // verus!
