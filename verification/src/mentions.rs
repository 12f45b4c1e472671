//! Phrases that a document names rather than uses.
use vstd::prelude::*;

use crate::emit::ByteRange;
use crate::grammar::ai_list::{list_marker, marker_len};
use crate::issue::{models, Issue, IssueModel, IssueType};
use crate::keep::{kept, lemma_kept_contains, lemma_kept_models, lemma_kept_origin, retain};
use crate::lines::{past_white, skip_white};
use crate::overlap::span_end;
use crate::ranges::{covers, holds, merge_ranges, separate};
use crate::text::{byte_pos, count_where, floor_pos, listed, next_of, Text};

verus! {

/// Beginning of the line in which position `i` lies.
pub open spec fn line_begin(t: Seq<char>, i: int) -> int
    decreases i,
{
    if i <= 0 || t[i - 1] == '\n' {
        i
    } else {
        line_begin(t, i - 1)
    }
}

/// End of the line that begins at `i`, behind its line feed.
pub open spec fn line_close(t: Seq<char>, i: int) -> int {
    let f = next_of(t, seq!['\n'], i, t.len() as int);
    if f < t.len() {
        f + 1
    } else {
        t.len() as int
    }
}

pub open spec fn bullet_mark(c: char) -> bool {
    c == '-' || c == '*' || c == '+'
}

/// Where the list or quotation marker at `a` ends, if one stands there.
pub open spec fn container_end(t: Seq<char>, a: int, to: int) -> Option<int> {
    if a < to && t[a] == '>' {
        Some(a + 1)
    } else if a + 2 <= to && bullet_mark(t[a]) && t[a + 1] == ' ' {
        Some(a + 2)
    } else {
        match marker_len(t, a, to) {
            Some(k) => Some(a + k),
            None => None,
        }
    }
}

/// Where the content begins behind all list and quotation markers.
pub open spec fn peeled(t: Seq<char>, a: int, to: int) -> int
    decreases to - a,
{
    match container_end(t, a, to) {
        None => a,
        Some(e) => {
            let next = skip_white(t, e, to);
            if a < next <= to {
                peeled(t, next, to)
            } else {
                a
            }
        },
    }
}

/// A box to tick, or the mark of a specimen.
pub open spec fn label_at(t: Seq<char>, a: int, to: int) -> bool {
    ||| (a + 3 <= to && t[a] == '[' && (t[a + 1] == ' ' || t[a + 1] == 'x' || t[a + 1] == 'X')
        && t[a + 2] == ']')
    ||| (a < to && (t[a] == '❌' || t[a] == '✅' || t[a] == '✓' || t[a] == '✗'))
}

/// The line `a..to` labels a phrase rather than using one.
pub open spec fn marker_line(t: Seq<char>, a: int, to: int) -> bool {
    label_at(t, peeled(t, skip_white(t, a, to), to), to)
}

fn container(text: &Text<'_>, a: usize, to: usize) -> (r: Option<usize>)
    requires
        text.wf(),
        a <= to <= text@.len(),
    ensures
        match (r, container_end(text@, a as int, to as int)) {
            (Some(x), Some(y)) => x == y && a < x <= to,
            (None, None) => true,
            _ => false,
        },
{
    let _n: usize = text.len();
    if a < to && text.ch(a) == '>' {
        return Some(a + 1);
    }
    if to - a >= 2 && text.ch(a + 1) == ' ' {
        let c = text.ch(a);
        if c == '-' || c == '*' || c == '+' {
            return Some(a + 2);
        }
    }
    match list_marker(text, a, to) {
        Some(k) => Some(a + k),
        None => None,
    }
}

/// Whether a line labels a phrase: behind the markers of lists and quotations,
/// a box to tick or the mark of a specimen.
pub fn is_mention_marker_line(text: &Text<'_>, from: usize, to: usize) -> (r: bool)
    requires
        text.wf(),
        from <= to <= text@.len(),
    ensures
        r == marker_line(text@, from as int, to as int),
{
    let _n: usize = text.len();
    let mut a: usize = past_white(text, from, to);
    let ghost goal = peeled(text@, a as int, to as int);
    let mut more: bool = true;
    while more
        invariant
            text.wf(),
            a <= to <= text@.len(),
            if more {
                peeled(text@, a as int, to as int) == goal
            } else {
                a == goal
            },
        decreases
                to - a + (if more {
                    1int
                } else {
                    0int
                }),
    {
        match container(text, a, to) {
            None => {
                more = false;
            },
            Some(e) => {
                a = past_white(text, e, to);
            },
        }
    }
    if to - a >= 3 && text.ch(a) == '[' && text.ch(a + 2) == ']' {
        let c = text.ch(a + 1);
        if c == ' ' || c == 'x' || c == 'X' {
            return true;
        }
    }
    if a < to {
        let c = text.ch(a);
        c == '❌' || c == '✅' || c == '✓' || c == '✗'
    } else {
        false
    }
}

pub open spec fn opener(c: char) -> bool {
    c == '「' || c == '『'
}

pub open spec fn closer(c: char) -> bool {
    c == '」' || c == '』'
}

pub open spec fn opens(t: Seq<char>) -> spec_fn(int) -> bool {
    |i: int| opener(t[i])
}

pub open spec fn closes(t: Seq<char>) -> spec_fn(int) -> bool {
    |i: int| closer(t[i])
}

pub open spec fn straights(t: Seq<char>) -> spec_fn(int) -> bool {
    |i: int| t[i] == '"'
}

/// More quotations opened than closed between the beginning of the line and
/// `p`.
pub open spec fn deep_at(t: Seq<char>, p: int) -> bool {
    let a = line_begin(t, p);
    count_where(a, p, opens(t)) > count_where(a, p, closes(t))
}

/// An odd number of straight quotes between the beginning of the line and `p`.
pub open spec fn odd_at(t: Seq<char>, p: int) -> bool {
    count_where(line_begin(t, p), p, straights(t)) % 2 == 1
}

/// The last position from `i` on in its line at which `f` holds.
pub open spec fn last_in_line(t: Seq<char>, f: spec_fn(int) -> bool, i: int) -> Option<int>
    decreases t.len() - i,
{
    if i >= t.len() || i < 0 {
        None
    } else {
        let later = if t[i] == '\n' {
            None
        } else {
            last_in_line(t, f, i + 1)
        };
        if later is Some {
            later
        } else if f(i) {
            Some(i)
        } else {
            None
        }
    }
}

/// A position that lies at byte `end` or behind it.
pub open spec fn reaches(t: Seq<char>, q: Option<int>, end: int) -> bool {
    q matches Some(k) && byte_pos(t, k) >= end
}

/// What begins at position `p` and ends at byte `end` stands in a quotation
/// that closes on its line.
pub open spec fn quoted(t: Seq<char>, p: int, end: int) -> bool {
    if deep_at(t, p) {
        reaches(t, last_in_line(t, closes(t), p), end)
    } else {
        odd_at(t, p) && reaches(t, last_in_line(t, straights(t), p), end)
    }
}

/// The finding could be a phrase that is named: a phrase of machine style,
/// not a habit of the whole document, and not mere invisible characters.
pub open spec fn mention_candidate(m: IssueModel, invisible: Seq<char>) -> bool {
    &&& m.rule_type is AiStyle
    &&& m.length > 0
    &&& m.structural_family is None
    &&& exists|i: int| 0 <= i < m.found.len() && !invisible.contains(#[trigger] m.found[i])
}

/// The finding names a phrase rather than using it.
pub open spec fn mentioned(t: Seq<char>, invisible: Seq<char>, m: IssueModel) -> bool {
    let p = floor_pos(t, m.offset);
    let a = line_begin(t, p);
    &&& mention_candidate(m, invisible)
    &&& p < t.len()
    &&& byte_pos(t, p) == m.offset
    &&& marker_line(t, a, line_close(t, a)) || quoted(t, p, m.offset + m.length)
}

/// Whether the finding could be a phrase that is named. `invisible` lists the
/// characters that have no shape.
pub fn is_mention_candidate(issue: &Issue, invisible: &[char]) -> (r: bool)
    ensures
        r == mention_candidate(issue@, invisible@),
{
    match issue.rule_type {
        IssueType::AiStyle => {},
        _ => {
            return false;
        },
    }
    if issue.length == 0 || issue.structural_family.is_some() {
        return false;
    }
    let found = Text::new(issue.found.as_str());
    let n: usize = found.len();
    let mut i: usize = 0;
    while i < n
        invariant
            found.wf(),
            found@ == issue@.found,
            issue@.rule_type is AiStyle,
            issue@.length > 0,
            issue@.structural_family is None,
            n == found@.len(),
            i <= n,
            forall|k: int| 0 <= k < i ==> invisible@.contains(#[trigger] issue@.found[k]),
        decreases n - i,
    {
        if !listed(invisible, found.ch(i)) {
            assert(!invisible@.contains(issue@.found[i as int]));
            return true;
        }
        i = i + 1;
    }
    false
}

/// What is known of each position of a text: whether its line labels a phrase,
/// whether a quotation is open there, and the last closing marks behind it.
struct Ledger {
    labelled: Vec<bool>,
    deep: Vec<bool>,
    odd: Vec<bool>,
    last_closer: Vec<Option<usize>>,
    last_straight: Vec<Option<usize>>,
}

spec fn opt(o: Option<usize>) -> Option<int> {
    match o {
        Some(x) => Some(x as int),
        None => None,
    }
}

spec fn below(o: Option<usize>, t: Seq<char>) -> bool {
    o matches Some(q) ==> q < t.len()
}

impl Ledger {
    spec fn wf(&self, t: Seq<char>) -> bool {
        &&& self.labelled@.len() == t.len()
        &&& self.deep@.len() == t.len()
        &&& self.odd@.len() == t.len()
        &&& self.last_closer@.len() == t.len()
        &&& self.last_straight@.len() == t.len()
        &&& forall|i: int|
            0 <= i < t.len() ==> #[trigger] self.labelled@[i] == marker_line(
                t,
                line_begin(t, i),
                line_close(t, line_begin(t, i)),
            )
        &&& forall|i: int| 0 <= i < t.len() ==> #[trigger] self.deep@[i] == deep_at(t, i)
        &&& forall|i: int| 0 <= i < t.len() ==> #[trigger] self.odd@[i] == odd_at(t, i)
        &&& forall|i: int|
            0 <= i < t.len() ==> opt(#[trigger] self.last_closer@[i]) == last_in_line(
                t,
                closes(t),
                i,
            )
        &&& forall|i: int|
            0 <= i < t.len() ==> opt(#[trigger] self.last_straight@[i]) == last_in_line(
                t,
                straights(t),
                i,
            )
        &&& forall|i: int| 0 <= i < t.len() ==> below(#[trigger] self.last_closer@[i], t)
        &&& forall|i: int| 0 <= i < t.len() ==> below(#[trigger] self.last_straight@[i], t)
    }
}

fn line_end(text: &Text<'_>, i: usize) -> (r: usize)
    requires
        text.wf(),
        i <= text@.len(),
    ensures
        r == line_close(text@, i as int),
        i <= r <= text@.len(),
{
    let feeds: [char; 1] = ['\n'];
    assert(feeds@ =~= seq!['\n']);
    let n: usize = text.len();
    let f: usize = text.next(feeds.as_slice(), i, n);
    if f < n {
        f + 1
    } else {
        n
    }
}

/// The last closing marks, found from the end of the text.
fn last_marks(text: &Text<'_>, straight: bool) -> (r: Vec<Option<usize>>)
    requires
        text.wf(),
    ensures
        r@.len() == text@.len(),
        forall|i: int|
            0 <= i < text@.len() ==> opt(#[trigger] r@[i]) == last_in_line(
                text@,
                if straight {
                    straights(text@)
                } else {
                    closes(text@)
                },
                i,
            ),
        forall|i: int| 0 <= i < text@.len() ==> below(#[trigger] r@[i], text@),
{
    let ghost t = text@;
    let ghost f = if straight {
        straights(t)
    } else {
        closes(t)
    };
    let n: usize = text.len();
    let mut r: Vec<Option<usize>> = Vec::new();
    let mut k: usize = 0;
    while k < n
        invariant
            n == t.len(),
            k <= n,
            r@.len() == k,
            forall|j: int| 0 <= j < k ==> (#[trigger] r@[j]) is None,
        decreases n - k,
    {
        r.push(None);
        k = k + 1;
    }
    let mut last: Option<usize> = None;
    let mut i: usize = n;
    while i > 0
        invariant
            text.wf(),
            t == text@,
            f == (if straight {
                straights(t)
            } else {
                closes(t)
            }),
            n == t.len(),
            i <= n,
            r@.len() == n,
            opt(last) == last_in_line(t, f, i as int),
            below(last, t),
            forall|j: int| i <= j < n ==> opt(#[trigger] r@[j]) == last_in_line(t, f, j),
            forall|j: int| i <= j < n ==> below(#[trigger] r@[j], t),
        decreases i,
    {
        i = i - 1;
        let c = text.ch(i);
        if c == '\n' {
            last = None;
        }
        let here: bool = if straight {
            c == '"'
        } else {
            c == '」' || c == '』'
        };
        assert(here == f(i as int));
        if last.is_none() && here {
            last = Some(i);
        }
        r.set(i, last);
    }
    r
}

fn ledger_of(text: &Text<'_>) -> (r: Ledger)
    requires
        text.wf(),
    ensures
        r.wf(text@),
{
    let ghost t = text@;
    let n: usize = text.len();
    let mut labelled: Vec<bool> = Vec::new();
    let mut deep: Vec<bool> = Vec::new();
    let mut odd: Vec<bool> = Vec::new();
    let mut label: bool = if n > 0 {
        let e: usize = line_end(text, 0);
        is_mention_marker_line(text, 0, e)
    } else {
        false
    };
    let mut opened: usize = 0;
    let mut closed: usize = 0;
    let mut parity: bool = false;
    let ghost mut a: int = 0;
    let mut i: usize = 0;
    while i < n
        invariant
            text.wf(),
            t == text@,
            n == t.len(),
            i <= n,
            0 <= a <= i,
            a == line_begin(t, i as int),
            i < n ==> label == marker_line(t, a, line_close(t, a)),
            opened == count_where(a, i as int, opens(t)),
            closed == count_where(a, i as int, closes(t)),
            parity == (count_where(a, i as int, straights(t)) % 2 == 1),
            opened <= i,
            closed <= i,
            labelled@.len() == i,
            deep@.len() == i,
            odd@.len() == i,
            forall|k: int|
                0 <= k < i ==> #[trigger] labelled@[k] == marker_line(
                    t,
                    line_begin(t, k),
                    line_close(t, line_begin(t, k)),
                ),
            forall|k: int| 0 <= k < i ==> #[trigger] deep@[k] == deep_at(t, k),
            forall|k: int| 0 <= k < i ==> #[trigger] odd@[k] == odd_at(t, k),
        decreases n - i,
    {
        labelled.push(label);
        deep.push(opened > closed);
        odd.push(parity);
        let c = text.ch(i);
        if c == '\n' {
            proof {
                a = i + 1;
            }
            opened = 0;
            closed = 0;
            parity = false;
            if i + 1 < n {
                let e: usize = line_end(text, i + 1);
                label = is_mention_marker_line(text, i + 1, e);
            }
        } else {
            if c == '「' || c == '『' {
                opened = opened + 1;
            }
            if c == '」' || c == '』' {
                closed = closed + 1;
            }
            if c == '"' {
                parity = !parity;
            }
        }
        i = i + 1;
    }
    let last_closer = last_marks(text, false);
    let last_straight = last_marks(text, true);
    Ledger { labelled, deep, odd, last_closer, last_straight }
}

fn does_reach(text: &Text<'_>, q: Option<usize>, issue: &Issue) -> (r: bool)
    requires
        text.wf(),
        below(q, text@),
    ensures
        r == reaches(text@, opt(q), issue@.offset + issue@.length),
{
    match q {
        Some(k) => {
            let at: usize = text.byte(k);
            at >= issue.offset && at - issue.offset >= issue.length
        },
        None => false,
    }
}

fn is_mentioned(text: &Text<'_>, ledger: &Ledger, invisible: &[char], issue: &Issue) -> (r: bool)
    requires
        text.wf(),
        ledger.wf(text@),
    ensures
        r == mentioned(text@, invisible@, issue@),
{
    if !is_mention_candidate(issue, invisible) {
        return false;
    }
    let p: usize = text.floor(issue.offset);
    if p >= text.len() || text.byte(p) != issue.offset {
        return false;
    }
    if ledger.labelled[p] {
        return true;
    }
    if ledger.deep[p] {
        does_reach(text, ledger.last_closer[p], issue)
    } else {
        ledger.odd[p] && does_reach(text, ledger.last_straight[p], issue)
    }
}

/// Which findings use the phrase.
pub open spec fn used(t: Seq<char>, invisible: Seq<char>, v: Seq<IssueModel>) -> Seq<bool> {
    Seq::new(v.len(), |i: int| !mentioned(t, invisible, v[i]))
}

/// The byte lies in a phrase that is named.
pub open spec fn mention_byte(
    t: Seq<char>,
    invisible: Seq<char>,
    v: Seq<IssueModel>,
    b: int,
) -> bool {
    exists|i: int|
        0 <= i < v.len() && mentioned(t, invisible, #[trigger] v[i]) && v[i].offset <= b < span_end(v[i])
}

/// Takes out the style findings that name a phrase rather than use it, and
/// gives the bytes that they stood on.
pub fn drop_mentioned_style_findings(
    text: &Text<'_>,
    issues: &mut Vec<Issue>,
    invisible: &[char],
) -> (r: Vec<ByteRange>)
    requires
        text.wf(),
    ensures
        models(final(issues)@) == kept(
            models(old(issues)@),
            used(text@, invisible@, models(old(issues)@)),
            old(issues)@.len() as int,
        ),
        separate(r@),
        forall|b: int| #[trigger]
            covers(r@, b) == mention_byte(text@, invisible@, models(old(issues)@), b),
{
    let ghost t = text@;
    let ghost v = models(issues@);
    let ledger = ledger_of(text);
    let mut keep: Vec<bool> = Vec::new();
    let mut named: Vec<ByteRange> = Vec::new();
    let mut i: usize = 0;
    while i < issues.len()
        invariant
            text.wf(),
            t == text@,
            ledger.wf(t),
            i <= issues@.len(),
            v == models(issues@),
            keep@.len() == i,
            forall|k: int| 0 <= k < i ==> #[trigger] keep@[k] == !mentioned(t, invisible@, v[k]),
            forall|b: int| #[trigger]
                covers(named@, b) == exists|k: int|
                    0 <= k < i && mentioned(t, invisible@, #[trigger] v[k]) && v[k].offset <= b
                        < span_end(v[k]),
        decreases issues@.len() - i,
    {
        assert(v[i as int] == issues@[i as int]@);
        let hit: bool = is_mentioned(text, &ledger, invisible, &issues[i]);
        let ghost before = named@;
        if hit {
            let start: usize = issues[i].offset;
            let length: usize = issues[i].length;
            let end: usize = if length > usize::MAX - start {
                usize::MAX
            } else {
                start + length
            };
            named.push(ByteRange { start, end });
            proof {
                assert forall|b: int| #[trigger]
                    covers(named@, b) == exists|k: int|
                        0 <= k < i + 1 && mentioned(t, invisible@, #[trigger] v[k]) && v[k].offset
                            <= b < span_end(v[k]) by {
                    if covers(named@, b) {
                        let k = choose|k: int|
                            0 <= k < named@.len() && #[trigger] holds(named@[k], b);
                        if k < before.len() {
                            assert(holds(before[k], b));
                            assert(covers(before, b));
                        } else {
                            assert(mentioned(t, invisible@, v[i as int]));
                        }
                    }
                    if covers(before, b) {
                        let k = choose|k: int| 0 <= k < before.len() && #[trigger] holds(before[k], b);
                        assert(holds(named@[k], b));
                    }
                    if v[i as int].offset <= b < span_end(v[i as int]) {
                        assert(holds(named@[before.len() as int], b));
                    }
                }
            }
        }
        keep.push(!hit);
        i = i + 1;
    }
    assert(keep@ =~= used(t, invisible@, v));
    proof {
        lemma_kept_models(issues@, keep@, issues@.len() as int);
    }
    retain(issues, &keep);
    let r = merge_ranges(&named);
    proof {
        assert forall|b: int| #[trigger] covers(r@, b) == mention_byte(t, invisible@, v, b) by {
            assert(covers(r@, b) == covers(named@, b));
        }
    }
    r
}

/// What is left names nothing, and what was taken out was a phrase of machine
/// style with a shape of its own.
pub proof fn law_only_mentions_are_dropped(
    t: Seq<char>,
    invisible: Seq<char>,
    v: Seq<IssueModel>,
    i: int,
)
    requires
        0 <= i < v.len(),
    ensures
        ({
            let out = kept(v, used(t, invisible, v), v.len() as int);
            &&& !out.contains(v[i]) ==> v[i].rule_type is AiStyle && v[i].structural_family is None
            &&& out.contains(v[i]) ==> !mentioned(t, invisible, v[i])
        }),
{
    let keep = used(t, invisible, v);
    let out = kept(v, keep, v.len() as int);
    let at = lemma_kept_origin(v, keep, v.len() as int);
    if keep[i] {
        lemma_kept_contains(v, keep, v.len() as int, i);
    }
    if out.contains(v[i]) {
        let a = choose|a: int| 0 <= a < out.len() && out[a] == v[i];
        assert(keep[at[a]]);
        assert(out[a] == v[at[a]]);
    }
}

proof fn lemma_last_in_line(t: Seq<char>, f: spec_fn(int) -> bool, i: int)
    requires
        0 <= i,
    ensures
        last_in_line(t, f, i) matches Some(q) ==> i <= q < t.len() && f(q) && forall|k: int|
            i <= k < q ==> #[trigger] t[k] != '\n',
    decreases t.len() - i,
{
    if i < t.len() && t[i] != '\n' {
        lemma_last_in_line(t, f, i + 1);
    }
}

/// A quotation that is not closed behind a phrase, on the phrase's own line,
/// does not make it a mention.
pub proof fn law_unclosed_quotes_silence_nothing(t: Seq<char>, p: int, end: int)
    requires
        0 <= p,
        quoted(t, p, end),
    ensures
        exists|q: int|
            p <= q < t.len() && (closer(#[trigger] t[q]) || t[q] == '"') && byte_pos(t, q) >= end
                && forall|k: int| p <= k < q ==> #[trigger] t[k] != '\n',
{
    lemma_last_in_line(t, closes(t), p);
    lemma_last_in_line(t, straights(t), p);
    if deep_at(t, p) {
        let q = last_in_line(t, closes(t), p)->0;
        assert(closes(t)(q));
        assert(closer(t[q]));
    } else {
        let q = last_in_line(t, straights(t), p)->0;
        assert(straights(t)(q));
        assert(t[q] == '"');
    }
}

/// Findings on invisible characters, and those that speak of the document as a
/// whole, are never taken for mentions.
pub proof fn law_invisible_and_structural_findings_stay(
    t: Seq<char>,
    invisible: Seq<char>,
    v: Seq<IssueModel>,
    i: int,
)
    requires
        0 <= i < v.len(),
        v[i].structural_family is Some || forall|k: int|
            0 <= k < v[i].found.len() ==> invisible.contains(#[trigger] v[i].found[k]),
    ensures
        kept(v, used(t, invisible, v), v.len() as int).contains(v[i]),
{
    lemma_kept_contains(v, used(t, invisible, v), v.len() as int, i);
}

} // verus!
