//! Slogans repeated across paragraphs, and questions that the author answers.
use vstd::prelude::*;

use crate::bounds::{Bound, BoundaryIndex, Paragraph};
use crate::emit::{ai_issue, message, message_of, span_excluded, ByteRange, Emitter};
use crate::grammar::ai_sentence::{strip_final, without_final};
use crate::grammar::ai_structure::first_where;
use crate::issue::{IssueModel, Severity, StructuralFamily};
use crate::lines::{trim, trimmed};
use crate::text::{
    bounded, contains_in, count_char, count_where, find_in, least, listed, occurs_at, Text,
};
use crate::walk::{each, if_so};

verus! {

/// Marks that end a slogan.
pub const SLOGAN_ENDS: [char; 5] = ['。', '！', '？', '!', '?'];

/// First of the marks that divides `from..to`: a semicolon before a comma.
pub open spec fn parallel_split(t: Seq<char>, from: int, to: int) -> Option<int> {
    match find_in(t, "；"@, from, to) {
        Some(p) => Some(p),
        None => match find_in(t, "，"@, from, to) {
            Some(p) => Some(p),
            None => find_in(t, ","@, from, to),
        },
    }
}

/// The sentence `from..to` is built like a slogan: eight to eighty characters
/// with a paired construction, or in two halves of about one length.
pub open spec fn parallel_slogan(t: Seq<char>, from: int, to: int) -> bool {
    let (a, b) = trimmed(t, from, without_final(t, SLOGAN_ENDS@, from, to));
    &&& 8 <= b - a <= 80
    &&& {
        ||| (contains_in(t, "不是"@, a, b) && contains_in(t, "而是"@, a, b))
        ||| (contains_in(t, "不只"@, a, b) && (contains_in(t, "更是"@, a, b) || contains_in(
            t,
            "也是"@,
            a,
            b,
        )))
        ||| count_char(t, '越', a, b) >= 2
        ||| match parallel_split(t, a, b) {
            Some(p) => {
                let left = p - a;
                let right = b - (p + 1);
                left >= 3 && right >= 3 && left - right <= 8 && right - left <= 8
            },
            None => false,
        }
    }
}

fn find_split(text: &Text<'_>, from: usize, to: usize) -> (r: Option<usize>)
    requires
        text.wf(),
        from <= to <= text@.len(),
    ensures
        match (r, parallel_split(text@, from as int, to as int)) {
            (Some(a), Some(b)) => a == b && from <= a < to,
            (None, None) => true,
            _ => false,
        },
{
    proof {
        reveal_strlit("；");
        reveal_strlit("，");
        reveal_strlit(",");
    }
    match text.find("；", from, to) {
        Some(p) => Some(p),
        None => match text.find("，", from, to) {
            Some(p) => Some(p),
            None => text.find(",", from, to),
        },
    }
}

/// Whether the sentence `from..to` is built like a slogan.
pub fn looks_like_parallel_slogan(text: &Text<'_>, from: usize, to: usize) -> (r: bool)
    requires
        text.wf(),
        from <= to <= text@.len(),
    ensures
        r == parallel_slogan(text@, from as int, to as int),
{
    let end: usize = strip_final(text, SLOGAN_ENDS.as_slice(), from, to);
    let (a, b) = trim(text, from, end);
    let n: usize = b - a;
    if n < 8 || n > 80 {
        return false;
    }
    if text.find("不是", a, b).is_some() && text.find("而是", a, b).is_some() {
        return true;
    }
    if text.find("不只", a, b).is_some() && (text.find("更是", a, b).is_some() || text.find(
        "也是",
        a,
        b,
    ).is_some()) {
        return true;
    }
    if text.count('越', a, b) >= 2 {
        return true;
    }
    match find_split(text, a, b) {
        Some(p) => {
            let left: usize = p - a;
            let right: usize = b - (p + 1);
            left >= 3 && right >= 3 && (if left >= right {
                left - right <= 8
            } else {
                right - left <= 8
            })
        },
        None => false,
    }
}

/// A slogan met so far: where it stands first, in which paragraph, and whether
/// it was reported.
pub ghost struct Seen {
    pub start: int,
    pub end: int,
    pub paragraph: int,
    pub told: bool,
}

/// Index of the first slogan from the `i`-th on with the words of `a..b`, else
/// the number of slogans.
pub open spec fn seen_at(t: Seq<char>, seen: Seq<Seen>, i: int, a: int, b: int) -> int
    decreases seen.len() - i,
{
    if i >= seen.len() {
        seen.len() as int
    } else if t.subrange(seen[i].start, seen[i].end) == t.subrange(a, b) {
        i
    } else {
        seen_at(t, seen, i + 1, a, b)
    }
}

/// The finding on a slogan that a later paragraph repeats.
pub open spec fn slogan_issue(t: Seq<char>, at: int) -> IssueModel {
    ai_issue(
        t,
        at,
        least(at + 8, t.len() as int),
        Seq::empty(),
        Severity::Info,
        Some(StructuralFamily::RepeatedSlogan),
        "AI structural: 金句疊句 — 對仗句跨段重複出現"@,
    )
}

/// What the slogan at `a..b` of paragraph `k` adds to those met, and what it
/// yields.
pub open spec fn meet(t: Seq<char>, seen: Seq<Seen>, k: int, a: int, b: int) -> (
    Seq<Seen>,
    Seq<IssueModel>,
) {
    let i = seen_at(t, seen, 0, a, b);
    if 0 <= i < seen.len() {
        if seen[i].paragraph != k && !seen[i].told {
            (
                seen.update(i, Seen { told: true, ..seen[i] }),
                seq![slogan_issue(t, seen[i].start)],
            )
        } else {
            (seen, Seq::empty())
        }
    } else {
        (seen.push(Seen { start: a, end: b, paragraph: k, told: false }), Seq::empty())
    }
}

/// The slogans of the sentences `j..last` of paragraph `k`.
pub open spec fn paragraph_slogans(
    t: Seq<char>,
    ex: Seq<ByteRange>,
    sentences: Seq<Bound>,
    k: int,
    j: int,
    last: int,
    seen: Seq<Seen>,
) -> (Seq<Seen>, Seq<IssueModel>)
    decreases last - j,
{
    if j >= last {
        (seen, Seq::empty())
    } else {
        let (from, to) = (sentences[j].start as int, sentences[j].end as int);
        let (a, b) = trimmed(t, from, to);
        if !span_excluded(t, ex, from, to) && parallel_slogan(t, a, b) {
            let here = meet(t, seen, k, a, b);
            let rest = paragraph_slogans(t, ex, sentences, k, j + 1, last, here.0);
            (rest.0, here.1 + rest.1)
        } else {
            paragraph_slogans(t, ex, sentences, k, j + 1, last, seen)
        }
    }
}

/// The slogans of the first `n` paragraphs.
pub open spec fn slogans(
    t: Seq<char>,
    ex: Seq<ByteRange>,
    sentences: Seq<Bound>,
    paragraphs: Seq<Paragraph>,
    n: int,
) -> (Seq<Seen>, Seq<IssueModel>)
    decreases n,
{
    if n <= 0 {
        (Seq::empty(), Seq::empty())
    } else {
        let before = slogans(t, ex, sentences, paragraphs, n - 1);
        let here = paragraph_slogans(
            t,
            ex,
            sentences,
            n - 1,
            paragraphs[n - 1].first as int,
            paragraphs[n - 1].last as int,
            before.0,
        );
        (here.0, before.1 + here.1)
    }
}

/// A slogan met so far.
pub struct Met {
    start: usize,
    end: usize,
    paragraph: usize,
    told: bool,
}

pub closed spec fn seen_of(v: Seq<Met>) -> Seq<Seen> {
    Seq::new(
        v.len(),
        |i: int|
            Seen {
                start: v[i].start as int,
                end: v[i].end as int,
                paragraph: v[i].paragraph as int,
                told: v[i].told,
            },
    )
}

spec fn met_fits(v: Seq<Met>, n: int) -> bool {
    forall|i: int| 0 <= i < v.len() ==> (#[trigger] v[i]).start <= v[i].end <= n
}

/// Whether `a..b` and `c..d` hold the same characters.
pub fn same_words(text: &Text<'_>, a: usize, b: usize, c: usize, d: usize) -> (r: bool)
    requires
        text.wf(),
        a <= b <= text@.len(),
        c <= d <= text@.len(),
    ensures
        r == (text@.subrange(a as int, b as int) == text@.subrange(c as int, d as int)),
{
    let ghost x = text@.subrange(a as int, b as int);
    let ghost y = text@.subrange(c as int, d as int);
    if b - a != d - c {
        assert(x.len() != y.len());
        return false;
    }
    let mut i: usize = 0;
    while i < b - a
        invariant
            text.wf(),
            a <= b <= text@.len(),
            c <= d <= text@.len(),
            b - a == d - c,
            i <= b - a,
            x == text@.subrange(a as int, b as int),
            y == text@.subrange(c as int, d as int),
            forall|j: int| 0 <= j < i ==> x[j] == y[j],
        decreases b - a - i,
    {
        if text.ch(a + i) != text.ch(c + i) {
            assert(x[i as int] != y[i as int]);
            return false;
        }
        i = i + 1;
    }
    assert(x =~= y);
    true
}

fn find_seen(text: &Text<'_>, seen: &Vec<Met>, a: usize, b: usize) -> (r: usize)
    requires
        text.wf(),
        a <= b <= text@.len(),
        met_fits(seen@, text@.len() as int),
    ensures
        r == seen_at(text@, seen_of(seen@), 0, a as int, b as int),
        r <= seen@.len(),
{
    let ghost model = seen_of(seen@);
    let mut i: usize = 0;
    while i < seen.len()
        invariant
            text.wf(),
            a <= b <= text@.len(),
            met_fits(seen@, text@.len() as int),
            model == seen_of(seen@),
            i <= seen@.len(),
            seen_at(text@, model, i as int, a as int, b as int) == seen_at(
                text@,
                model,
                0,
                a as int,
                b as int,
            ),
        decreases seen@.len() - i,
    {
        assert(model[i as int].start == seen@[i as int].start && model[i as int].end
            == seen@[i as int].end);
        if same_words(text, seen[i].start, seen[i].end, a, b) {
            return i;
        }
        i = i + 1;
    }
    seen.len()
}

fn meet_slogan(em: &mut Emitter<'_>, seen: &mut Vec<Met>, k: usize, a: usize, b: usize)
    requires
        old(em).wf(),
        a <= b <= old(em).chars().len(),
        met_fits(old(seen)@, old(em).chars().len() as int),
    ensures
        final(em).wf(),
        met_fits(final(seen)@, old(em).chars().len() as int),
        seen_of(final(seen)@) == meet(
            old(em).chars(),
            seen_of(old(seen)@),
            k as int,
            a as int,
            b as int,
        ).0,
        final(em).extends(
            old(em),
            meet(old(em).chars(), seen_of(old(seen)@), k as int, a as int, b as int).1,
        ),
{
    let ghost start = *em;
    let ghost before = seen_of(seen@);
    let ghost now = meet(em.chars(), before, k as int, a as int, b as int);
    let i: usize = find_seen(&em.text, seen, a, b);
    if i < seen.len() {
        assert(before[i as int].paragraph == seen@[i as int].paragraph && before[i as int].told
            == seen@[i as int].told && before[i as int].start == seen@[i as int].start);
        if seen[i].paragraph != k && !seen[i].told {
            let at: usize = seen[i].start;
            let len: usize = em.text.len();
            let to: usize = bounded(at, 8, len);
            em.advise_ai(
                at,
                to,
                Severity::Info,
                Some(StructuralFamily::RepeatedSlogan),
                "AI structural: 金句疊句 — 對仗句跨段重複出現".to_owned(),
            );
            seen[i].told = true;
        }
    } else {
        seen.push(Met { start: a, end: b, paragraph: k, told: false });
    }
    assert(seen_of(seen@) =~= now.0);
    assert(em.out() =~= start.out() + now.1);
}

fn scan_paragraph_slogans(
    em: &mut Emitter<'_>,
    idx: &BoundaryIndex,
    k: usize,
    seen: &mut Vec<Met>,
)
    requires
        old(em).wf(),
        idx.fits(old(em).chars().len() as int),
        k < idx.paragraphs@.len(),
        met_fits(old(seen)@, old(em).chars().len() as int),
    ensures
        final(em).wf(),
        met_fits(final(seen)@, old(em).chars().len() as int),
        seen_of(final(seen)@) == paragraph_slogans(
            old(em).chars(),
            old(em).ex(),
            idx.sentences@,
            k as int,
            idx.paragraphs@[k as int].first as int,
            idx.paragraphs@[k as int].last as int,
            seen_of(old(seen)@),
        ).0,
        final(em).extends(
            old(em),
            paragraph_slogans(
                old(em).chars(),
                old(em).ex(),
                idx.sentences@,
                k as int,
                idx.paragraphs@[k as int].first as int,
                idx.paragraphs@[k as int].last as int,
                seen_of(old(seen)@),
            ).1,
        ),
{
    let ghost start = *em;
    let ghost t = em.chars();
    let ghost ex = em.ex();
    let p = idx.paragraphs[k];
    let ghost all = paragraph_slogans(
        t,
        ex,
        idx.sentences@,
        k as int,
        p.first as int,
        p.last as int,
        seen_of(seen@),
    );
    let mut j: usize = p.first;
    while j < p.last
        invariant
            em.wf(),
            em.text == start.text,
            em.excluded == start.excluded,
            t == start.chars(),
            ex == start.ex(),
            idx.fits(t.len() as int),
            p.first <= j <= p.last <= idx.sentences@.len(),
            met_fits(seen@, t.len() as int),
            all.0 == paragraph_slogans(
                t,
                ex,
                idx.sentences@,
                k as int,
                j as int,
                p.last as int,
                seen_of(seen@),
            ).0,
            start.out() + all.1 =~= em.out() + paragraph_slogans(
                t,
                ex,
                idx.sentences@,
                k as int,
                j as int,
                p.last as int,
                seen_of(seen@),
            ).1,
        decreases p.last - j,
    {
        let s = idx.sentences[j];
        if !em.excluded_span(s.start, s.end) {
            let (a, b) = trim(&em.text, s.start, s.end);
            if looks_like_parallel_slogan(&em.text, a, b) {
                meet_slogan(em, seen, k, a, b);
            }
        }
        j = j + 1;
    }
}

/// A slogan that stands in one paragraph and again in a later one, reported
/// once.
pub fn scan_ai_repeated_parallel_slogan(em: &mut Emitter<'_>, idx: &BoundaryIndex)
    requires
        old(em).wf(),
        idx.fits(old(em).chars().len() as int),
    ensures
        final(em).wf(),
        final(em).extends(
            old(em),
            slogans(
                old(em).chars(),
                old(em).ex(),
                idx.sentences@,
                idx.paragraphs@,
                idx.paragraphs@.len() as int,
            ).1,
        ),
{
    let ghost start = *em;
    let ghost t = em.chars();
    let ghost ex = em.ex();
    let mut seen: Vec<Met> = Vec::new();
    assert(seen_of(seen@) =~= Seq::empty());
    let mut k: usize = 0;
    while k < idx.paragraphs.len()
        invariant
            em.wf(),
            t == start.chars(),
            ex == start.ex(),
            k <= idx.paragraphs@.len(),
            idx.fits(t.len() as int),
            met_fits(seen@, t.len() as int),
            seen_of(seen@) == slogans(t, ex, idx.sentences@, idx.paragraphs@, k as int).0,
            em.extends(
                &start,
                slogans(t, ex, idx.sentences@, idx.paragraphs@, k as int).1,
            ),
        decreases idx.paragraphs@.len() - k,
    {
        scan_paragraph_slogans(em, idx, k, &mut seen);
        assert(em.out() =~= start.out() + slogans(
            t,
            ex,
            idx.sentences@,
            idx.paragraphs@,
            k + 1,
        ).1);
        k = k + 1;
    }
}

/// Words that lead into a question or its answer.
pub const QA_LEAD_INS: [&'static str; 15] = [
    "那麼",
    "那",
    "但是",
    "但",
    "然而",
    "可是",
    "而",
    "所以",
    "究竟",
    "到底",
    "其實",
    "主要",
    "真正",
    "說穿了",
    "說白了",
];

/// What may follow such a word.
pub const LEAD_MARKS: [char; 4] = ['，', ',', '、', ' '];

/// Position after the listed characters at `i`.
pub open spec fn skip_listed(t: Seq<char>, list: Seq<char>, i: int, to: int) -> int
    decreases to - i,
{
    if i < to && list.contains(t[i]) {
        skip_listed(t, list, i + 1, to)
    } else {
        i
    }
}

/// Length of the first lead-in, from the `k`-th on, that stands at `i`.
pub open spec fn lead_in_at(t: Seq<char>, k: int, i: int, to: int) -> Option<int>
    decreases 15 - k,
{
    if k < 0 || k >= 15 {
        None
    } else if occurs_at(t, QA_LEAD_INS@[k]@, i) && i + QA_LEAD_INS@[k]@.len() <= to {
        Some(QA_LEAD_INS@[k]@.len() as int)
    } else {
        lead_in_at(t, k + 1, i, to)
    }
}

/// Position after the lead-ins at `i`.
pub open spec fn after_lead_ins(t: Seq<char>, i: int, to: int) -> int
    decreases to - i,
{
    match lead_in_at(t, 0, i, to) {
        Some(n) => {
            let next = skip_listed(t, LEAD_MARKS@, i + n, to);
            if i < next <= to {
                after_lead_ins(t, next, to)
            } else {
                next
            }
        },
        None => i,
    }
}

/// The sentence `from..to` without white space around it and lead-ins before
/// it.
pub open spec fn bare(t: Seq<char>, from: int, to: int) -> (int, int) {
    let (a, b) = trimmed(t, from, to);
    (after_lead_ins(t, a, b), b)
}

proof fn lemma_lead_ins_nonempty()
    ensures
        forall|j: int| 0 <= j < 15 ==> (#[trigger] QA_LEAD_INS@[j])@.len() >= 1,
{
    reveal_strlit("那麼");
    reveal_strlit("那");
    reveal_strlit("但是");
    reveal_strlit("但");
    reveal_strlit("然而");
    reveal_strlit("可是");
    reveal_strlit("而");
    reveal_strlit("所以");
    reveal_strlit("究竟");
    reveal_strlit("到底");
    reveal_strlit("其實");
    reveal_strlit("主要");
    reveal_strlit("真正");
    reveal_strlit("說穿了");
    reveal_strlit("說白了");
}

fn find_lead_in(text: &Text<'_>, i: usize, to: usize) -> (r: Option<usize>)
    requires
        text.wf(),
        i <= to <= text@.len(),
    ensures
        match (r, lead_in_at(text@, 0, i as int, to as int)) {
            (Some(a), Some(b)) => a == b && a >= 1 && i + a <= to,
            (None, None) => true,
            _ => false,
        },
{
    proof {
        lemma_lead_ins_nonempty();
    }
    let mut k: usize = 0;
    while k < 15
        invariant
            text.wf(),
            k <= 15,
            i <= to <= text@.len(),
            forall|j: int| 0 <= j < 15 ==> (#[trigger] QA_LEAD_INS@[j])@.len() >= 1,
            lead_in_at(text@, k as int, i as int, to as int) == lead_in_at(
                text@,
                0,
                i as int,
                to as int,
            ),
        decreases 15 - k,
    {
        let n: usize = QA_LEAD_INS[k].unicode_len();
        if n <= to - i && text.at(QA_LEAD_INS[k], i) {
            return Some(n);
        }
        k = k + 1;
    }
    None
}

fn past_listed(text: &Text<'_>, list: &[char], i: usize, to: usize) -> (r: usize)
    requires
        text.wf(),
        i <= to <= text@.len(),
    ensures
        r == skip_listed(text@, list@, i as int, to as int),
        i <= r <= to,
{
    let mut k: usize = i;
    while k < to && listed(list, text.ch(k))
        invariant
            text.wf(),
            i <= k <= to <= text@.len(),
            skip_listed(text@, list@, k as int, to as int) == skip_listed(
                text@,
                list@,
                i as int,
                to as int,
            ),
        decreases to - k,
    {
        k = k + 1;
    }
    k
}

/// The sentence without white space around it and lead-ins before it.
pub fn strip_qa_lead_in(text: &Text<'_>, from: usize, to: usize) -> (r: (usize, usize))
    requires
        text.wf(),
        from <= to <= text@.len(),
    ensures
        r.0 == bare(text@, from as int, to as int).0,
        r.1 == bare(text@, from as int, to as int).1,
        r.0 <= r.1 <= to,
{
    let (a, b) = trim(text, from, to);
    let mut i: usize = a;
    let mut more: bool = true;
    while more
        invariant
            text.wf(),
            a <= i <= b <= text@.len(),
            after_lead_ins(text@, a as int, b as int) == (if more {
                after_lead_ins(text@, i as int, b as int)
            } else {
                i as int
            }),
        decreases
                b - i + (if more {
                    1int
                } else {
                    0int
                }),
    {
        match find_lead_in(text, i, b) {
            Some(n) => {
                i = past_listed(text, LEAD_MARKS.as_slice(), i + n, b);
            },
            None => {
                more = false;
            },
        }
    }
    (i, b)
}

/// The entry stands at the beginning of the span.
pub open spec fn opens_on(t: Seq<char>, s: (int, int), entry: Seq<char>) -> bool {
    occurs_at(t, entry, s.0) && s.0 + entry.len() <= s.1
}

fn starts_on(text: &Text<'_>, s: (usize, usize), entry: &str) -> (r: bool)
    requires
        text.wf(),
        s.0 <= s.1 <= text@.len(),
    ensures
        r == opens_on(text@, (s.0 as int, s.1 as int), entry@),
{
    entry.unicode_len() <= s.1 - s.0 && text.at(entry, s.0)
}

/// The question tells the readers what they believe, and the answer that they
/// are wrong.
pub open spec fn dramatic_pair(t: Seq<char>, q: (int, int), a: (int, int)) -> bool {
    &&& opens_on(t, q, "你以為"@) || opens_on(t, q, "大家都以為"@)
    &&& contains_in(t, "嗎"@, q.0, q.1)
    &&& opens_on(t, a, "錯了"@) || opens_on(t, a, "錯，"@)
}

/// The question asks why, and the answer says because.
pub open spec fn ordinary_pair(t: Seq<char>, q: (int, int), a: (int, int)) -> bool {
    ||| (opens_on(t, q, "為什麼"@) && (opens_on(t, a, "因為"@) || opens_on(t, a, "是因為"@)
        || opens_on(t, a, "原因"@)))
    ||| (opens_on(t, q, "問題出在哪"@) && opens_on(t, a, "出在"@))
}

pub open spec fn bare_sentence(t: Seq<char>, s: Bound) -> (int, int) {
    bare(t, s.start as int, s.end as int)
}

/// Neither sentence of the pair is excluded.
pub open spec fn open_pair(t: Seq<char>, ex: Seq<ByteRange>, sentences: Seq<Bound>, j: int) -> bool {
    !span_excluded(t, ex, sentences[j].start as int, sentences[j].end as int) && !span_excluded(
        t,
        ex,
        sentences[j + 1].start as int,
        sentences[j + 1].end as int,
    )
}

pub open spec fn dramatic_at(
    t: Seq<char>,
    ex: Seq<ByteRange>,
    sentences: Seq<Bound>,
) -> spec_fn(int) -> bool {
    |j: int|
        open_pair(t, ex, sentences, j) && dramatic_pair(
            t,
            bare_sentence(t, sentences[j]),
            bare_sentence(t, sentences[j + 1]),
        )
}

pub open spec fn pair_at(t: Seq<char>, ex: Seq<ByteRange>, sentences: Seq<Bound>) -> spec_fn(
    int,
) -> bool {
    |j: int|
        open_pair(t, ex, sentences, j) && (dramatic_pair(
            t,
            bare_sentence(t, sentences[j]),
            bare_sentence(t, sentences[j + 1]),
        ) || ordinary_pair(
            t,
            bare_sentence(t, sentences[j]),
            bare_sentence(t, sentences[j + 1]),
        ))
}

/// Labels of a list of questions, in lower case.
pub const FAQ_LABELS: [&'static str; 6] = ["faq", "常見問題", "q：", "q:", "問：", "問:"];

/// The letter in lower case.
pub open spec fn lower(c: char) -> char {
    if 'A' <= c <= 'Z' {
        ((c as u32) + 32) as char
    } else {
        c
    }
}

/// The needle stands at `i`, whatever the case of the Latin letters.
pub open spec fn occurs_in_any_case(t: Seq<char>, needle: Seq<char>, i: int, to: int) -> bool {
    0 <= i && i + needle.len() <= to && forall|k: int|
        0 <= k < needle.len() ==> lower(#[trigger] t[i + k]) == needle[k]
}

/// Some label stands within `from..to`.
pub open spec fn labelled(t: Seq<char>, from: int, to: int) -> bool {
    exists|i: int, k: int|
        from <= i <= to && 0 <= k < 6 && #[trigger] occurs_in_any_case(t, FAQ_LABELS@[k]@, i, to)
}

fn lower_of(c: char) -> (r: char)
    ensures
        r == lower(c),
{
    if 'A' <= c && c <= 'Z' {
        let b: u8 = c as u8;
        (b + 32) as char
    } else {
        c
    }
}

fn at_in_any_case(text: &Text<'_>, needle: &str, i: usize, to: usize) -> (r: bool)
    requires
        text.wf(),
        i <= to <= text@.len(),
    ensures
        r == occurs_in_any_case(text@, needle@, i as int, to as int),
{
    let mut k: usize = i;
    for c in it: needle.chars()
        invariant
            it.seq() == needle@,
            text.wf(),
            i <= to <= text@.len(),
            k == i + it.index(),
            k <= to,
            forall|j: int| 0 <= j < it.index() ==> lower(#[trigger] text@[i + j]) == needle@[j],
    {
        if k >= to || lower_of(text.ch(k)) != c {
            proof {
                if occurs_in_any_case(text@, needle@, i as int, to as int) {
                    assert(lower(text@[i + it.index()]) == needle@[it.index()]);
                }
            }
            return false;
        }
        k = k + 1;
    }
    true
}

fn is_labelled(text: &Text<'_>, from: usize, to: usize) -> (r: bool)
    requires
        text.wf(),
        from <= to <= text@.len(),
    ensures
        r == labelled(text@, from as int, to as int),
{
    let n: usize = text.len();
    let mut i: usize = from;
    while i <= to
        invariant
            text.wf(),
            n == text@.len(),
            n < usize::MAX,
            from <= i <= to + 1,
            to <= n,
            forall|x: int, y: int|
                from <= x < i && 0 <= y < 6 ==> !#[trigger] occurs_in_any_case(
                    text@,
                    FAQ_LABELS@[y]@,
                    x,
                    to as int,
                ),
        decreases to + 1 - i,
    {
        let mut k: usize = 0;
        while k < 6
            invariant
                text.wf(),
                k <= 6,
                from <= i <= to <= text@.len(),
                forall|y: int|
                    0 <= y < k ==> !#[trigger] occurs_in_any_case(
                        text@,
                        FAQ_LABELS@[y]@,
                        i as int,
                        to as int,
                    ),
            decreases 6 - k,
        {
            if at_in_any_case(text, FAQ_LABELS[k], i, to) {
                assert(occurs_in_any_case(text@, FAQ_LABELS@[k as int]@, i as int, to as int));
                return true;
            }
            k = k + 1;
        }
        i = i + 1;
    }
    false
}

/// Two pairs of question and answer or more in a paragraph, one of them
/// dramatic, where the paragraph is no list of questions. The finding stands
/// on the first question.
pub open spec fn self_qa_rule(
    t: Seq<char>,
    ex: Seq<ByteRange>,
    sentences: Seq<Bound>,
    paragraphs: Seq<Paragraph>,
) -> spec_fn(int) -> Seq<IssueModel> {
    |k: int|
        {
            let (first, last) = (paragraphs[k].first as int, paragraphs[k].last - 1);
            let f = pair_at(t, ex, sentences);
            let n = count_where(first, last, f);
            let at = first_where(first, last, f);
            if_so(
                n >= 2 && count_where(first, last, dramatic_at(t, ex, sentences)) >= 1
                    && !labelled(t, paragraphs[k].start as int, paragraphs[k].end as int),
                ai_issue(
                    t,
                    sentences[at].start as int,
                    sentences[at].end as int,
                    Seq::empty(),
                    Severity::Info,
                    Some(StructuralFamily::RhetoricalSelfQa),
                    message(
                        "AI structural: 連續自問自答 ×"@,
                        n,
                        "；刪除設問，直接陳述原因或主張"@,
                    ),
                ),
            )
        }
}

/// What a pair of sentences is: dramatic, and a pair at all.
fn judge_pair(em: &Emitter<'_>, idx: &BoundaryIndex, j: usize) -> (r: (bool, bool))
    requires
        em.wf(),
        idx.fits(em.chars().len() as int),
        j + 1 < idx.sentences@.len(),
    ensures
        r.0 == dramatic_at(em.chars(), em.ex(), idx.sentences@)(j as int),
        r.1 == pair_at(em.chars(), em.ex(), idx.sentences@)(j as int),
{
    let _total: usize = idx.sentences.len();
    let s = idx.sentences[j];
    let u = idx.sentences[j + 1];
    if em.excluded_span(s.start, s.end) || em.excluded_span(u.start, u.end) {
        return (false, false);
    }
    let q = strip_qa_lead_in(&em.text, s.start, s.end);
    let a = strip_qa_lead_in(&em.text, u.start, u.end);
    let dramatic: bool = (starts_on(&em.text, q, "你以為") || starts_on(
        &em.text,
        q,
        "大家都以為",
    )) && em.text.find("嗎", q.0, q.1).is_some() && (starts_on(&em.text, a, "錯了") || starts_on(
        &em.text,
        a,
        "錯，",
    ));
    let ordinary: bool = (starts_on(&em.text, q, "為什麼") && (starts_on(&em.text, a, "因為")
        || starts_on(&em.text, a, "是因為") || starts_on(&em.text, a, "原因"))) || (starts_on(
        &em.text,
        q,
        "問題出在哪",
    ) && starts_on(&em.text, a, "出在"));
    (dramatic, dramatic || ordinary)
}

/// Questions that the author asks and answers one after another.
pub fn scan_ai_rhetorical_self_qa(em: &mut Emitter<'_>, idx: &BoundaryIndex)
    requires
        old(em).wf(),
        idx.fits(old(em).chars().len() as int),
    ensures
        final(em).wf(),
        final(em).extends(
            old(em),
            each(
                idx.paragraphs@.len() as int,
                self_qa_rule(old(em).chars(), old(em).ex(), idx.sentences@, idx.paragraphs@),
            ),
        ),
{
    let ghost start = *em;
    let ghost rule = self_qa_rule(em.chars(), em.ex(), idx.sentences@, idx.paragraphs@);
    let ghost f = pair_at(em.chars(), em.ex(), idx.sentences@);
    let ghost g = dramatic_at(em.chars(), em.ex(), idx.sentences@);
    let mut k: usize = 0;
    while k < idx.paragraphs.len()
        invariant
            em.wf(),
            k <= idx.paragraphs@.len(),
            idx.fits(em.chars().len() as int),
            rule == self_qa_rule(start.chars(), start.ex(), idx.sentences@, idx.paragraphs@),
            f == pair_at(start.chars(), start.ex(), idx.sentences@),
            g == dramatic_at(start.chars(), start.ex(), idx.sentences@),
            em.extends(&start, each(k as int, rule)),
        decreases idx.paragraphs@.len() - k,
    {
        let p = idx.paragraphs[k];
        let mut n: usize = 0;
        let mut dramatic: usize = 0;
        let mut first: usize = 0;
        let mut j: usize = p.first;
        let ghost last = p.last - 1;
        while j < p.last && p.last - j > 1
            invariant
                em.wf(),
                em.text == start.text,
                em.excluded == start.excluded,
                idx.fits(em.chars().len() as int),
                p.first <= j <= p.last <= idx.sentences@.len(),
                last == p.last - 1,
                p.first < p.last ==> j <= last,
                f == pair_at(start.chars(), start.ex(), idx.sentences@),
                g == dramatic_at(start.chars(), start.ex(), idx.sentences@),
                n == count_where(p.first as int, j as int, f),
                dramatic == count_where(p.first as int, j as int, g),
                n <= j - p.first,
                dramatic <= j - p.first,
                n > 0 ==> first < last && first == first_where(p.first as int, last, f),
                n == 0 ==> first_where(p.first as int, last, f) == first_where(
                    j as int,
                    last,
                    f,
                ),
            decreases p.last - j,
        {
            let (d, pair) = judge_pair(em, idx, j);
            assert(d == g(j as int));
            assert(pair == f(j as int));
            if d {
                dramatic = dramatic + 1;
            }
            if pair {
                if n == 0 {
                    first = j;
                }
                n = n + 1;
            }
            j = j + 1;
        }
        assert(p.first < p.last ==> j == last);
        assert(p.first >= p.last ==> n == 0 && count_where(p.first as int, last, f) == 0);
        if n >= 2 && dramatic >= 1 && !is_labelled(&em.text, p.start, p.end) {
            let s = idx.sentences[first];
            em.advise_ai(
                s.start,
                s.end,
                Severity::Info,
                Some(StructuralFamily::RhetoricalSelfQa),
                message_of(
                    "AI structural: 連續自問自答 ×",
                    n,
                    "；刪除設問，直接陳述原因或主張",
                ),
            );
        }
        assert(em.out() =~= start.out() + (each(k as int, rule) + rule(k as int)));
        k = k + 1;
    }
}

} // verus!
