//! Habits of machine-written prose that show in a sentence.
use vstd::prelude::*;

use crate::bounds::{Bound, BoundaryIndex, Paragraph};
use crate::emit::{
    ai_issue, any_hit, excluded_in, hits, message, message_of, span_excluded, ByteRange, Emitter,
};
use crate::issue::{IssueModel, IssueType, Issue, Severity, StructuralFamily};
use crate::text::{any_in, bounded, byte_pos, find_in, first_entry_in, least, next_of, Text};
use crate::walk::{each, if_so};

verus! {

/// Marks that end a sentence of a tricolon.
pub const FINAL_MARKS: [char; 7] = ['。', '！', '？', '；', '.', '!', '?'];

/// The mark between the members of an enumeration.
pub const ENUMERATION: [char; 1] = ['、'];

/// End of `from..to` without the listed characters at its end.
pub open spec fn without_final(t: Seq<char>, list: Seq<char>, from: int, to: int) -> int
    decreases to - from,
{
    if to > from && list.contains(t[to - 1]) {
        without_final(t, list, from, to - 1)
    } else {
        to
    }
}

pub fn strip_final(text: &Text<'_>, list: &[char], from: usize, to: usize) -> (r: usize)
    requires
        text.wf(),
        from <= to <= text@.len(),
    ensures
        r == without_final(text@, list@, from as int, to as int),
        from <= r <= to,
{
    let mut e: usize = to;
    while e > from && crate::text::listed(list, text.ch(e - 1))
        invariant
            text.wf(),
            from <= e <= to <= text@.len(),
            without_final(text@, list@, from as int, e as int) == without_final(
                text@,
                list@,
                from as int,
                to as int,
            ),
        decreases e,
    {
        e = e - 1;
    }
    e
}

/// First three members on end, from the one at `a` on, that are equally long
/// and of one to eight characters.
pub open spec fn tricolon_from(t: Seq<char>, a: int, to: int) -> Option<(int, int)>
    decreases to - a,
{
    let b = next_of(t, ENUMERATION@, a, to);
    let c = next_of(t, ENUMERATION@, b + 1, to);
    let d = next_of(t, ENUMERATION@, c + 1, to);
    if b < a || b >= to || c >= to {
        None
    } else if b - a == c - b - 1 && b - a == d - c - 1 && 0 < b - a <= 8 {
        Some((a, d))
    } else {
        tricolon_from(t, b + 1, to)
    }
}

pub open spec fn tricolon_rule(
    t: Seq<char>,
    ex: Seq<ByteRange>,
    sentences: Seq<Bound>,
) -> spec_fn(int) -> Seq<IssueModel> {
    |k: int|
        {
            let from = sentences[k].start as int;
            match tricolon_from(
                t,
                from,
                without_final(t, FINAL_MARKS@, from, sentences[k].end as int),
            ) {
                Some((a, e)) => if_so(
                    !span_excluded(t, ex, a, e),
                    ai_issue(
                        t,
                        a,
                        e,
                        Seq::empty(),
                        Severity::Info,
                        Some(StructuralFamily::Tricolon),
                        "AI structural: 三連排比（tricolon）— 三個等長的、分隔片段，常見於 AI 生成文本"@,
                    ),
                ),
                None => Seq::empty(),
            }
        }
}

fn find_tricolon(text: &Text<'_>, lo: usize, to: usize) -> (r: Option<(usize, usize)>)
    requires
        text.wf(),
        lo <= to <= text@.len(),
    ensures
        match (r, tricolon_from(text@, lo as int, to as int)) {
            (Some(x), Some(y)) => x.0 == y.0 && x.1 == y.1 && x.0 <= x.1 <= to,
            (None, None) => true,
            _ => false,
        },
{
    let mut a: usize = lo;
    let mut b: usize = text.next(ENUMERATION.as_slice(), a, to);
    while b < to
        invariant
            text.wf(),
            lo <= a <= b <= to <= text@.len(),
            b == next_of(text@, ENUMERATION@, a as int, to as int),
            tricolon_from(text@, a as int, to as int) == tricolon_from(
                text@,
                lo as int,
                to as int,
            ),
        decreases to - a,
    {
        let c: usize = text.next(ENUMERATION.as_slice(), b + 1, to);
        if c >= to {
            return None;
        }
        let d: usize = text.next(ENUMERATION.as_slice(), c + 1, to);
        let n: usize = b - a;
        if n == c - b - 1 && n == d - c - 1 && 0 < n && n <= 8 {
            return Some((a, d));
        }
        a = b + 1;
        b = c;
    }
    None
}

/// Three equally long members of an enumeration, once per sentence.
pub fn scan_ai_tricolon(em: &mut Emitter<'_>, idx: &BoundaryIndex)
    requires
        old(em).wf(),
        idx.fits(old(em).chars().len() as int),
    ensures
        final(em).wf(),
        final(em).extends(
            old(em),
            each(
                idx.sentences@.len() as int,
                tricolon_rule(old(em).chars(), old(em).ex(), idx.sentences@),
            ),
        ),
{
    let ghost start = *em;
    let ghost f = tricolon_rule(em.chars(), em.ex(), idx.sentences@);
    let mut k: usize = 0;
    while k < idx.sentences.len()
        invariant
            em.wf(),
            k <= idx.sentences@.len(),
            idx.fits(em.chars().len() as int),
            f == tricolon_rule(start.chars(), start.ex(), idx.sentences@),
            em.extends(&start, each(k as int, f)),
        decreases idx.sentences@.len() - k,
    {
        let s = idx.sentences[k];
        let to: usize = strip_final(&em.text, FINAL_MARKS.as_slice(), s.start, s.end);
        if let Some((a, e)) = find_tricolon(&em.text, s.start, to) {
            if !em.excluded_span(a, e) {
                em.advise_ai(
                    a,
                    e,
                    Severity::Info,
                    Some(StructuralFamily::Tricolon),
                    "AI structural: 三連排比（tricolon）— 三個等長的、分隔片段，常見於 AI 生成文本".to_owned(),
                );
            }
        }
        assert(em.out() =~= start.out() + (each(k as int, f) + f(k as int)));
        k = k + 1;
    }
}

pub const PARALLEL_OPENERS: [&'static str; 3] = ["不只是", "不僅是", "不僅僅是"];

pub const PARALLEL_CLOSERS: [&'static str; 2] = ["而是", "更是"];

/// The `j`-th opener in the sentence `from..to`, where a closer follows within
/// thirty characters.
pub open spec fn parallel_openers(t: Seq<char>, ex: Seq<ByteRange>, from: int, to: int) -> spec_fn(
    int,
) -> Seq<IssueModel> {
    |j: int|
        match find_in(t, PARALLEL_OPENERS@[j]@, from, to) {
            Some(p) => {
                let after = p + PARALLEL_OPENERS@[j]@.len();
                match first_entry_in(t, PARALLEL_CLOSERS@, 0, after, least(after + 30, to)) {
                    Some((c, q)) => {
                        let end = q + PARALLEL_CLOSERS@[c]@.len();
                        if_so(
                            !span_excluded(t, ex, p, end),
                            ai_issue(
                                t,
                                p,
                                end,
                                Seq::empty(),
                                Severity::Info,
                                Some(StructuralFamily::NegativeParallel),
                                "AI structural: 否定平行結構（不只是…而是/更是），AI 常用公式"@,
                            ),
                        )
                    },
                    None => Seq::empty(),
                }
            },
            None => Seq::empty(),
        }
}

pub open spec fn parallel_rule(
    t: Seq<char>,
    ex: Seq<ByteRange>,
    sentences: Seq<Bound>,
) -> spec_fn(int) -> Seq<IssueModel> {
    |k: int| each(3, parallel_openers(t, ex, sentences[k].start as int, sentences[k].end as int))
}

fn scan_parallel_sentence(em: &mut Emitter<'_>, from: usize, to: usize)
    requires
        old(em).wf(),
        from <= to <= old(em).chars().len(),
    ensures
        final(em).wf(),
        final(em).extends(
            old(em),
            each(3, parallel_openers(old(em).chars(), old(em).ex(), from as int, to as int)),
        ),
{
    let ghost start = *em;
    let ghost f = parallel_openers(em.chars(), em.ex(), from as int, to as int);
    let _len: usize = em.text.len();
    let mut k: usize = 0;
    while k < 3
        invariant
            em.wf(),
            k <= 3,
            from <= to <= em.chars().len(),
            em.chars().len() <= usize::MAX,
            f == parallel_openers(start.chars(), start.ex(), from as int, to as int),
            em.extends(&start, each(k as int, f)),
        decreases 3 - k,
    {
        if let Some(p) = em.text.find(PARALLEL_OPENERS[k], from, to) {
            let after: usize = p + PARALLEL_OPENERS[k].unicode_len();
            let far: usize = bounded(after, 30, to);
            if let Some((c, q)) = em.text.first_entry(PARALLEL_CLOSERS.as_slice(), after, far) {
                let end: usize = q + PARALLEL_CLOSERS[c].unicode_len();
                if !em.excluded_span(p, end) {
                    em.advise_ai(
                        p,
                        end,
                        Severity::Info,
                        Some(StructuralFamily::NegativeParallel),
                        "AI structural: 否定平行結構（不只是…而是/更是），AI 常用公式".to_owned(),
                    );
                }
            }
        }
        assert(em.out() =~= start.out() + (each(k as int, f) + f(k as int)));
        k = k + 1;
    }
}

/// 不只是 with 而是 or 更是 after it.
pub fn scan_ai_negative_parallel(em: &mut Emitter<'_>, idx: &BoundaryIndex)
    requires
        old(em).wf(),
        idx.fits(old(em).chars().len() as int),
    ensures
        final(em).wf(),
        final(em).extends(
            old(em),
            each(
                idx.sentences@.len() as int,
                parallel_rule(old(em).chars(), old(em).ex(), idx.sentences@),
            ),
        ),
{
    let ghost start = *em;
    let ghost f = parallel_rule(em.chars(), em.ex(), idx.sentences@);
    let mut k: usize = 0;
    while k < idx.sentences.len()
        invariant
            em.wf(),
            k <= idx.sentences@.len(),
            idx.fits(em.chars().len() as int),
            f == parallel_rule(start.chars(), start.ex(), idx.sentences@),
            em.extends(&start, each(k as int, f)),
        decreases idx.sentences@.len() - k,
    {
        let s = idx.sentences[k];
        scan_parallel_sentence(em, s.start, s.end);
        assert(em.out() =~= start.out() + (each(k as int, f) + f(k as int)));
        k = k + 1;
    }
}

/// Bold runs of `from..to`: pairs of markers that are not excluded.
pub open spec fn bold_runs(t: Seq<char>, ex: Seq<ByteRange>, from: int, to: int) -> nat {
    (hits(t, ex, "**"@, from, to).len() / 2) as nat
}

pub fn count_non_excluded_bold_runs(em: &Emitter<'_>, from: usize, to: usize) -> (n: usize)
    requires
        em.wf(),
        from <= to <= em.chars().len(),
    ensures
        n == bold_runs(em.chars(), em.ex(), from as int, to as int),
{
    proof {
        reveal_strlit("**");
    }
    em.count_hits("**", from, to).0 / 2
}

/// Two to four bold runs in one sentence.
pub open spec fn bold_sentence_rule(
    t: Seq<char>,
    ex: Seq<ByteRange>,
    sentences: Seq<Bound>,
) -> spec_fn(int) -> Seq<IssueModel> {
    |k: int|
        {
            let (from, to) = (sentences[k].start as int, sentences[k].end as int);
            let n = bold_runs(t, ex, from, to);
            if_so(
                2 <= n <= 4 && !span_excluded(t, ex, from, to),
                ai_issue(
                    t,
                    from,
                    least(from + 2, to),
                    Seq::empty(),
                    Severity::Info,
                    Some(StructuralFamily::BoldInSentence),
                    message("AI structural: 句內關鍵詞粗體排比 — 單句內 "@, n, " 處粗體"@),
                ),
            )
        }
}

/// Three bold runs or more per two hundred characters of a paragraph.
pub open spec fn bold_paragraph_rule(
    t: Seq<char>,
    ex: Seq<ByteRange>,
    paragraphs: Seq<Paragraph>,
) -> spec_fn(int) -> Seq<IssueModel> {
    |k: int|
        {
            let (from, to) = (paragraphs[k].start as int, paragraphs[k].end as int);
            let n = bold_runs(t, ex, from, to);
            if_so(
                to - from >= 30 && n >= 3 && 200 * n >= 3 * (to - from) && !excluded_in(
                    ex,
                    byte_pos(t, from),
                    byte_pos(t, from) + 1,
                ),
                ai_issue(
                    t,
                    from,
                    least(from + 2, to),
                    Seq::empty(),
                    Severity::Info,
                    Some(StructuralFamily::BoldInParagraph),
                    message(
                        "AI structural: 段落粗體過多 — "@,
                        n,
                        " 處粗體標記（每 200 字 ≥3 處）"@,
                    ),
                ),
            )
        }
}

fn scan_bold_sentences(em: &mut Emitter<'_>, idx: &BoundaryIndex)
    requires
        old(em).wf(),
        idx.fits(old(em).chars().len() as int),
    ensures
        final(em).wf(),
        final(em).extends(
            old(em),
            each(
                idx.sentences@.len() as int,
                bold_sentence_rule(old(em).chars(), old(em).ex(), idx.sentences@),
            ),
        ),
{
    let ghost start = *em;
    let ghost f = bold_sentence_rule(em.chars(), em.ex(), idx.sentences@);
    let mut k: usize = 0;
    while k < idx.sentences.len()
        invariant
            em.wf(),
            k <= idx.sentences@.len(),
            idx.fits(em.chars().len() as int),
            f == bold_sentence_rule(start.chars(), start.ex(), idx.sentences@),
            em.extends(&start, each(k as int, f)),
        decreases idx.sentences@.len() - k,
    {
        let s = idx.sentences[k];
        let n: usize = count_non_excluded_bold_runs(em, s.start, s.end);
        if 2 <= n && n <= 4 && !em.excluded_span(s.start, s.end) {
            let to: usize = bounded(s.start, 2, s.end);
            em.advise_ai(
                s.start,
                to,
                Severity::Info,
                Some(StructuralFamily::BoldInSentence),
                message_of("AI structural: 句內關鍵詞粗體排比 — 單句內 ", n, " 處粗體"),
            );
        }
        assert(em.out() =~= start.out() + (each(k as int, f) + f(k as int)));
        k = k + 1;
    }
}

fn scan_bold_paragraphs(em: &mut Emitter<'_>, idx: &BoundaryIndex)
    requires
        old(em).wf(),
        idx.fits(old(em).chars().len() as int),
    ensures
        final(em).wf(),
        final(em).extends(
            old(em),
            each(
                idx.paragraphs@.len() as int,
                bold_paragraph_rule(old(em).chars(), old(em).ex(), idx.paragraphs@),
            ),
        ),
{
    let ghost start = *em;
    let ghost f = bold_paragraph_rule(em.chars(), em.ex(), idx.paragraphs@);
    let mut k: usize = 0;
    while k < idx.paragraphs.len()
        invariant
            em.wf(),
            k <= idx.paragraphs@.len(),
            idx.fits(em.chars().len() as int),
            f == bold_paragraph_rule(start.chars(), start.ex(), idx.paragraphs@),
            em.extends(&start, each(k as int, f)),
        decreases idx.paragraphs@.len() - k,
    {
        let p = idx.paragraphs[k];
        let len: usize = p.end - p.start;
        if len >= 30 {
            let n: usize = count_non_excluded_bold_runs(em, p.start, p.end);
            if n >= 3 && 200 * (n as u128) >= 3 * (len as u128) && !em.excluded_byte(p.start) {
                let to: usize = bounded(p.start, 2, p.end);
                em.advise_ai(
                    p.start,
                    to,
                    Severity::Info,
                    Some(StructuralFamily::BoldInParagraph),
                    message_of(
                        "AI structural: 段落粗體過多 — ",
                        n,
                        " 處粗體標記（每 200 字 ≥3 處）",
                    ),
                );
            }
        }
        assert(em.out() =~= start.out() + (each(k as int, f) + f(k as int)));
        k = k + 1;
    }
}

/// What the bold detectors report: sentences, then paragraphs.
pub open spec fn bold_findings(
    t: Seq<char>,
    ex: Seq<ByteRange>,
    sentences: Seq<Bound>,
    paragraphs: Seq<Paragraph>,
) -> Seq<IssueModel> {
    each(sentences.len() as int, bold_sentence_rule(t, ex, sentences)) + each(
        paragraphs.len() as int,
        bold_paragraph_rule(t, ex, paragraphs),
    )
}

/// Too much bold in a sentence or in a paragraph.
pub fn scan_ai_excessive_bold(em: &mut Emitter<'_>, idx: &BoundaryIndex)
    requires
        old(em).wf(),
        idx.fits(old(em).chars().len() as int),
    ensures
        final(em).wf(),
        final(em).extends(
            old(em),
            bold_findings(old(em).chars(), old(em).ex(), idx.sentences@, idx.paragraphs@),
        ),
{
    let ghost start = *em;
    scan_bold_sentences(em, idx);
    scan_bold_paragraphs(em, idx);
    assert(em.out() =~= start.out() + bold_findings(
        start.chars(),
        start.ex(),
        idx.sentences@,
        idx.paragraphs@,
    ));
}

/// Two em-dashes or more in a paragraph.
pub open spec fn emdash_rule(
    t: Seq<char>,
    ex: Seq<ByteRange>,
    paragraphs: Seq<Paragraph>,
) -> spec_fn(int) -> Seq<IssueModel> {
    |k: int|
        {
            let found = hits(
                t,
                ex,
                "——"@,
                paragraphs[k].start as int,
                paragraphs[k].end as int,
            );
            if_so(
                found.len() >= 2,
                ai_issue(
                    t,
                    found[0],
                    found[0] + 2,
                    Seq::empty(),
                    Severity::Info,
                    Some(StructuralFamily::EmDashOveruse),
                    message(
                        "AI structural: 破折號過度使用 — 段落內 "@,
                        found.len(),
                        " 處（AI 常見模式）"@,
                    ),
                ),
            )
        }
}

pub fn scan_ai_emdash_overuse(em: &mut Emitter<'_>, idx: &BoundaryIndex)
    requires
        old(em).wf(),
        idx.fits(old(em).chars().len() as int),
    ensures
        final(em).wf(),
        final(em).extends(
            old(em),
            each(
                idx.paragraphs@.len() as int,
                emdash_rule(old(em).chars(), old(em).ex(), idx.paragraphs@),
            ),
        ),
{
    let ghost start = *em;
    let ghost f = emdash_rule(em.chars(), em.ex(), idx.paragraphs@);
    proof {
        reveal_strlit("——");
    }
    let mut k: usize = 0;
    while k < idx.paragraphs.len()
        invariant
            em.wf(),
            k <= idx.paragraphs@.len(),
            idx.fits(em.chars().len() as int),
            "——"@.len() == 2,
            f == emdash_rule(start.chars(), start.ex(), idx.paragraphs@),
            em.extends(&start, each(k as int, f)),
        decreases idx.paragraphs@.len() - k,
    {
        let p = idx.paragraphs[k];
        let (n, first) = em.count_hits("——", p.start, p.end);
        if n >= 2 {
            em.advise_ai(
                first,
                first + 2,
                Severity::Info,
                Some(StructuralFamily::EmDashOveruse),
                message_of(
                    "AI structural: 破折號過度使用 — 段落內 ",
                    n,
                    " 處（AI 常見模式）",
                ),
            );
        }
        assert(em.out() =~= start.out() + (each(k as int, f) + f(k as int)));
        k = k + 1;
    }
}

/// Verbs that look ahead.
pub const FORWARD_VERBS: [&'static str; 4] = ["仍然", "持續", "蓬勃發展", "繼續"];

/// Where 儘管 stands in `from..to`, if 挑戰 follows within forty characters and
/// a verb that looks ahead after that.
pub open spec fn despite_at(t: Seq<char>, from: int, to: int) -> Option<int> {
    match find_in(t, "儘管"@, from, to) {
        Some(p) => match find_in(t, "挑戰"@, p + 2, to) {
            Some(q) => if q - (p + 2) <= 40 && any_in(t, FORWARD_VERBS@, q + 2, to) {
                Some(p)
            } else {
                None
            },
            None => None,
        },
        None => None,
    }
}

pub open spec fn despite_rule(
    t: Seq<char>,
    ex: Seq<ByteRange>,
    sentences: Seq<Bound>,
) -> spec_fn(int) -> Seq<IssueModel> {
    |k: int|
        {
            let to = sentences[k].end as int;
            match despite_at(t, sentences[k].start as int, to) {
                Some(p) => if_so(
                    !span_excluded(t, ex, p, to),
                    ai_issue(
                        t,
                        p,
                        to,
                        Seq::empty(),
                        Severity::Info,
                        Some(StructuralFamily::FormulaicDespite),
                        "AI structural: 公式化轉折（儘管…挑戰…仍然），AI 常見句型"@,
                    ),
                ),
                None => Seq::empty(),
            }
        }
}

fn find_despite(text: &Text<'_>, from: usize, to: usize) -> (r: Option<usize>)
    requires
        text.wf(),
        from <= to <= text@.len(),
    ensures
        match (r, despite_at(text@, from as int, to as int)) {
            (Some(a), Some(b)) => a == b && a <= to,
            (None, None) => true,
            _ => false,
        },
{
    proof {
        reveal_strlit("儘管");
        reveal_strlit("挑戰");
    }
    match text.find("儘管", from, to) {
        Some(p) => match text.find("挑戰", p + 2, to) {
            Some(q) => if q - (p + 2) <= 40 && text.any_in(FORWARD_VERBS.as_slice(), q + 2, to) {
                Some(p)
            } else {
                None
            },
            None => None,
        },
        None => None,
    }
}

/// The formula of a challenge met.
pub fn scan_ai_formulaic_despite(em: &mut Emitter<'_>, idx: &BoundaryIndex)
    requires
        old(em).wf(),
        idx.fits(old(em).chars().len() as int),
    ensures
        final(em).wf(),
        final(em).extends(
            old(em),
            each(
                idx.sentences@.len() as int,
                despite_rule(old(em).chars(), old(em).ex(), idx.sentences@),
            ),
        ),
{
    let ghost start = *em;
    let ghost f = despite_rule(em.chars(), em.ex(), idx.sentences@);
    let mut k: usize = 0;
    while k < idx.sentences.len()
        invariant
            em.wf(),
            k <= idx.sentences@.len(),
            idx.fits(em.chars().len() as int),
            f == despite_rule(start.chars(), start.ex(), idx.sentences@),
            em.extends(&start, each(k as int, f)),
        decreases idx.sentences@.len() - k,
    {
        let s = idx.sentences[k];
        if let Some(p) = find_despite(&em.text, s.start, s.end) {
            if !em.excluded_span(p, s.end) {
                em.advise_ai(
                    p,
                    s.end,
                    Severity::Info,
                    Some(StructuralFamily::FormulaicDespite),
                    "AI structural: 公式化轉折（儘管…挑戰…仍然），AI 常見句型".to_owned(),
                );
            }
        }
        assert(em.out() =~= start.out() + (each(k as int, f) + f(k as int)));
        k = k + 1;
    }
}

/// The chain 從, 到, 再到 in `from..to`, where it spans ten characters or more.
pub open spec fn range_chain(t: Seq<char>, from: int, to: int) -> Option<(int, int)> {
    match find_in(t, "從"@, from, to) {
        Some(p) => match find_in(t, "到"@, p + 1, to) {
            Some(q) => match find_in(t, "再到"@, q + 1, to) {
                Some(r) => if r + 2 - p >= 10 {
                    Some((p, r + 2))
                } else {
                    None
                },
                None => None,
            },
            None => None,
        },
        None => None,
    }
}

pub open spec fn range_rule(
    t: Seq<char>,
    ex: Seq<ByteRange>,
    sentences: Seq<Bound>,
) -> spec_fn(int) -> Seq<IssueModel> {
    |k: int|
        match range_chain(t, sentences[k].start as int, sentences[k].end as int) {
            Some((p, e)) => if_so(
                !span_excluded(t, ex, p, e),
                ai_issue(
                    t,
                    p,
                    e,
                    Seq::empty(),
                    Severity::Info,
                    Some(StructuralFamily::FalseRanges),
                    "AI structural: 假範圍鏈（從…到…再到），AI 常見列舉模式"@,
                ),
            ),
            None => Seq::empty(),
        }
}

fn find_range_chain(text: &Text<'_>, from: usize, to: usize) -> (r: Option<(usize, usize)>)
    requires
        text.wf(),
        from <= to <= text@.len(),
    ensures
        match (r, range_chain(text@, from as int, to as int)) {
            (Some(a), Some(b)) => a.0 == b.0 && a.1 == b.1 && a.0 <= a.1 <= to,
            (None, None) => true,
            _ => false,
        },
{
    proof {
        reveal_strlit("從");
        reveal_strlit("到");
        reveal_strlit("再到");
    }
    match text.find("從", from, to) {
        Some(p) => match text.find("到", p + 1, to) {
            Some(q) => match text.find("再到", q + 1, to) {
                Some(r) => if r + 2 - p >= 10 {
                    Some((p, r + 2))
                } else {
                    None
                },
                None => None,
            },
            None => None,
        },
        None => None,
    }
}

/// Ranges that are no ranges.
pub fn scan_ai_false_ranges(em: &mut Emitter<'_>, idx: &BoundaryIndex)
    requires
        old(em).wf(),
        idx.fits(old(em).chars().len() as int),
    ensures
        final(em).wf(),
        final(em).extends(
            old(em),
            each(
                idx.sentences@.len() as int,
                range_rule(old(em).chars(), old(em).ex(), idx.sentences@),
            ),
        ),
{
    let ghost start = *em;
    let ghost f = range_rule(em.chars(), em.ex(), idx.sentences@);
    let mut k: usize = 0;
    while k < idx.sentences.len()
        invariant
            em.wf(),
            k <= idx.sentences@.len(),
            idx.fits(em.chars().len() as int),
            f == range_rule(start.chars(), start.ex(), idx.sentences@),
            em.extends(&start, each(k as int, f)),
        decreases idx.sentences@.len() - k,
    {
        let s = idx.sentences[k];
        if let Some((p, e)) = find_range_chain(&em.text, s.start, s.end) {
            if !em.excluded_span(p, e) {
                em.advise_ai(
                    p,
                    e,
                    Severity::Info,
                    Some(StructuralFamily::FalseRanges),
                    "AI structural: 假範圍鏈（從…到…再到），AI 常見列舉模式".to_owned(),
                );
            }
        }
        assert(em.out() =~= start.out() + (each(k as int, f) + f(k as int)));
        k = k + 1;
    }
}

/// Abstract things drawn as a line.
pub const ABSTRACT_TERMS: [&'static str; 5] = ["一條線", "路線", "軸線", "脈絡", "橋"];

/// What such a line does.
pub const GROWTH_VERBS: [&'static str; 6] = ["走出來", "長出來", "鋪出來", "延伸", "串起來", "拓寬"];

/// Earliest hit among the first `n` entries of the table: where, and of which
/// entry.
pub open spec fn earliest_hit(
    t: Seq<char>,
    ex: Seq<ByteRange>,
    table: Seq<&'static str>,
    n: int,
    from: int,
    to: int,
) -> Option<(int, int)>
    decreases n,
{
    if n <= 0 {
        None
    } else {
        let before = earliest_hit(t, ex, table, n - 1, from, to);
        let found = hits(t, ex, table[n - 1]@, from, to);
        if found.len() > 0 && (before is None || found[0] < (before->0).0) {
            Some((found[0], n - 1))
        } else {
            before
        }
    }
}

pub fn first_non_excluded_any(
    em: &Emitter<'_>,
    table: &[&'static str],
    from: usize,
    to: usize,
) -> (r: Option<(usize, usize)>)
    requires
        em.wf(),
        from <= to <= em.chars().len(),
        forall|k: int| 0 <= k < table@.len() ==> (#[trigger] table@[k])@.len() >= 1,
    ensures
        match (
            r,
            earliest_hit(
                em.chars(),
                em.ex(),
                table@,
                table@.len() as int,
                from as int,
                to as int,
            ),
        ) {
            (Some(a), Some(b)) => {
                &&& a.0 == b.0
                &&& a.1 == b.1
                &&& a.1 < table@.len()
                &&& a.0 + table@[a.1 as int]@.len() <= to
            },
            (None, None) => true,
            _ => false,
        },
{
    let mut best: Option<(usize, usize)> = None;
    let mut k: usize = 0;
    while k < table.len()
        invariant
            em.wf(),
            k <= table@.len(),
            from <= to <= em.chars().len(),
            forall|j: int| 0 <= j < table@.len() ==> (#[trigger] table@[j])@.len() >= 1,
            match (
                best,
                earliest_hit(em.chars(), em.ex(), table@, k as int, from as int, to as int),
            ) {
                (Some(a), Some(b)) => {
                    &&& a.0 == b.0
                    &&& a.1 == b.1
                    &&& a.1 < table@.len()
                    &&& a.0 + table@[a.1 as int]@.len() <= to
                },
                (None, None) => true,
                _ => false,
            },
        decreases table@.len() - k,
    {
        let (n, first) = em.count_hits(table[k], from, to);
        let earlier: bool = match best {
            Some((p, _k)) => first < p,
            None => true,
        };
        if n > 0 && earlier {
            best = Some((first, k));
        }
        k = k + 1;
    }
    best
}

/// How often the paragraph points back at the line. 這條路線 holds 這條路 and
/// counts once.
pub open spec fn line_anaphora(t: Seq<char>, ex: Seq<ByteRange>, from: int, to: int) -> nat {
    let line = hits(t, ex, "這條線"@, from, to).len();
    let road_line = hits(t, ex, "這條路線"@, from, to).len();
    let road = hits(t, ex, "這條路"@, from, to).len();
    line + road_line + (if road >= road_line {
        (road - road_line) as nat
    } else {
        0
    })
}

/// A paragraph that draws something abstract as a line, points back at it
/// twice or more, and lets it grow.
pub open spec fn metaphor_rule(
    t: Seq<char>,
    ex: Seq<ByteRange>,
    paragraphs: Seq<Paragraph>,
) -> spec_fn(int) -> Seq<IssueModel> {
    |k: int|
        {
            let (from, to) = (paragraphs[k].start as int, paragraphs[k].end as int);
            let n = line_anaphora(t, ex, from, to);
            match earliest_hit(t, ex, ABSTRACT_TERMS@, 5, from, to) {
                Some((p, j)) => if_so(
                    n >= 2 && any_hit(t, ex, GROWTH_VERBS@, from, to),
                    ai_issue(
                        t,
                        p,
                        p + ABSTRACT_TERMS@[j]@.len(),
                        Seq::empty(),
                        Severity::Info,
                        Some(StructuralFamily::AbstractLineMetaphor),
                        message(
                            "AI structural: 抽象概念具象成路線並反覆回指 — 回指出現 "@,
                            n,
                            " 次"@,
                        ),
                    ),
                ),
                None => Seq::empty(),
            }
        }
}

proof fn lemma_metaphor_words()
    ensures
        forall|j: int| 0 <= j < 5 ==> (#[trigger] ABSTRACT_TERMS@[j])@.len() >= 1,
        forall|j: int| 0 <= j < 6 ==> (#[trigger] GROWTH_VERBS@[j])@.len() >= 1,
        "這條線"@.len() == 3,
        "這條路線"@.len() == 4,
        "這條路"@.len() == 3,
{
    reveal_strlit("一條線");
    reveal_strlit("路線");
    reveal_strlit("軸線");
    reveal_strlit("脈絡");
    reveal_strlit("橋");
    reveal_strlit("走出來");
    reveal_strlit("長出來");
    reveal_strlit("鋪出來");
    reveal_strlit("延伸");
    reveal_strlit("串起來");
    reveal_strlit("拓寬");
    reveal_strlit("這條線");
    reveal_strlit("這條路線");
    reveal_strlit("這條路");
}

proof fn lemma_hits_bound(t: Seq<char>, ex: Seq<ByteRange>, needle: Seq<char>, from: int, to: int)
    requires
        0 <= from <= to <= t.len(),
        needle.len() >= 3,
    ensures
        3 * hits(t, ex, needle, from, to).len() <= to - from,
    decreases to - from,
{
    crate::text::lemma_find_in(t, needle, from, to);
    match find_in(t, needle, from, to) {
        Some(p) => {
            lemma_hits_bound(t, ex, needle, p + needle.len(), to);
        },
        None => {},
    }
}

fn count_line_anaphora(em: &Emitter<'_>, from: usize, to: usize) -> (n: usize)
    requires
        em.wf(),
        from <= to <= em.chars().len(),
    ensures
        n == line_anaphora(em.chars(), em.ex(), from as int, to as int),
{
    proof {
        lemma_metaphor_words();
        lemma_hits_bound(em.chars(), em.ex(), "這條線"@, from as int, to as int);
        lemma_hits_bound(em.chars(), em.ex(), "這條路線"@, from as int, to as int);
        lemma_hits_bound(em.chars(), em.ex(), "這條路"@, from as int, to as int);
    }
    let _len: usize = em.text.len();
    let line: usize = em.count_hits("這條線", from, to).0;
    let road_line: usize = em.count_hits("這條路線", from, to).0;
    let road: usize = em.count_hits("這條路", from, to).0;
    let more: usize = if road >= road_line {
        road - road_line
    } else {
        0
    };
    line + road_line + more
}

/// Abstract lines that grow.
pub fn scan_ai_abstract_line_metaphor(em: &mut Emitter<'_>, idx: &BoundaryIndex)
    requires
        old(em).wf(),
        idx.fits(old(em).chars().len() as int),
    ensures
        final(em).wf(),
        final(em).extends(
            old(em),
            each(
                idx.paragraphs@.len() as int,
                metaphor_rule(old(em).chars(), old(em).ex(), idx.paragraphs@),
            ),
        ),
{
    let ghost start = *em;
    let ghost f = metaphor_rule(em.chars(), em.ex(), idx.paragraphs@);
    let _len: usize = em.text.len();
    let mut k: usize = 0;
    while k < idx.paragraphs.len()
        invariant
            em.wf(),
            k <= idx.paragraphs@.len(),
            idx.fits(em.chars().len() as int),
            em.chars().len() <= usize::MAX,
            f == metaphor_rule(start.chars(), start.ex(), idx.paragraphs@),
            em.extends(&start, each(k as int, f)),
        decreases idx.paragraphs@.len() - k,
    {
        let p = idx.paragraphs[k];
        proof {
            lemma_metaphor_words();
        }
        if let Some((at, j)) = first_non_excluded_any(
            em,
            ABSTRACT_TERMS.as_slice(),
            p.start,
            p.end,
        ) {
            let n: usize = count_line_anaphora(em, p.start, p.end);
            if n >= 2 && em.any_hit(GROWTH_VERBS.as_slice(), p.start, p.end) {
                let end: usize = at + ABSTRACT_TERMS[j].unicode_len();
                em.advise_ai(
                    at,
                    end,
                    Severity::Info,
                    Some(StructuralFamily::AbstractLineMetaphor),
                    message_of(
                        "AI structural: 抽象概念具象成路線並反覆回指 — 回指出現 ",
                        n,
                        " 次",
                    ),
                );
            }
        }
        assert(em.out() =~= start.out() + (each(k as int, f) + f(k as int)));
        k = k + 1;
    }
}

/// Phrases that hedge.
pub const HEDGING_PHRASES: [&'static str; 4] = ["在某種程度上", "從某個角度來看", "可以說是", "相對而言"];

/// How many hedges stand in `from..to`, of the first `n` phrases.
pub open spec fn hedges(t: Seq<char>, ex: Seq<ByteRange>, n: int, from: int, to: int) -> nat
    decreases n,
{
    if n <= 0 {
        0
    } else {
        hedges(t, ex, n - 1, from, to) + hits(t, ex, HEDGING_PHRASES@[n - 1]@, from, to).len()
    }
}

/// The paragraph holds three hedges or more per two hundred characters.
pub open spec fn dense_hedging(t: Seq<char>, ex: Seq<ByteRange>, p: Paragraph) -> bool {
    let (from, to) = (p.start as int, p.end as int);
    let n = hedges(t, ex, 4, from, to);
    to - from >= 50 && n >= 3 && 200 * n >= 3 * (to - from)
}

/// The finding names a hedge.
pub open spec fn names_hedge(i: IssueModel) -> bool {
    &&& i.rule_type == IssueType::AiStyle
    &&& i.severity == Severity::Info
    &&& i.context matches Some(c) && (any_in(c, HEDGING_PHRASES@, 0, c.len() as int) || any_in(
        i.found,
        HEDGING_PHRASES@,
        0,
        i.found.len() as int,
    ))
}

/// The finding begins in one of the first `n` paragraphs that hedge densely.
pub open spec fn in_dense(
    t: Seq<char>,
    ex: Seq<ByteRange>,
    paragraphs: Seq<Paragraph>,
    n: int,
    offset: int,
) -> bool {
    exists|k: int|
        0 <= k < n && dense_hedging(t, ex, #[trigger] paragraphs[k]) && byte_pos(
            t,
            paragraphs[k].start as int,
        ) <= offset < byte_pos(t, paragraphs[k].end as int)
}

/// The finding after the hedging pass over the first `n` paragraphs.
pub open spec fn promoted(
    t: Seq<char>,
    ex: Seq<ByteRange>,
    paragraphs: Seq<Paragraph>,
    n: int,
    i: IssueModel,
) -> IssueModel {
    if names_hedge(i) && in_dense(t, ex, paragraphs, n, i.offset) {
        IssueModel { severity: Severity::Warning, ..i }
    } else {
        i
    }
}

proof fn lemma_hedges()
    ensures
        forall|j: int| 0 <= j < 4 ==> (#[trigger] HEDGING_PHRASES@[j])@.len() >= 4,
{
    reveal_strlit("在某種程度上");
    reveal_strlit("從某個角度來看");
    reveal_strlit("可以說是");
    reveal_strlit("相對而言");
}

fn is_dense(em: &Emitter<'_>, p: Paragraph) -> (r: bool)
    requires
        em.wf(),
        p.start <= p.end <= em.chars().len(),
    ensures
        r == dense_hedging(em.chars(), em.ex(), p),
{
    let len: usize = p.end - p.start;
    if len < 50 {
        return false;
    }
    proof {
        lemma_hedges();
    }
    let mut n: u128 = 0;
    let mut k: usize = 0;
    while k < 4
        invariant
            em.wf(),
            k <= 4,
            p.start <= p.end <= em.chars().len(),
            forall|j: int| 0 <= j < 4 ==> (#[trigger] HEDGING_PHRASES@[j])@.len() >= 4,
            n == hedges(em.chars(), em.ex(), k as int, p.start as int, p.end as int),
            n <= k * (p.end - p.start),
        decreases 4 - k,
    {
        let found: usize = em.count_hits(HEDGING_PHRASES[k], p.start, p.end).0;
        assert((k + 1) * (p.end - p.start) == k * (p.end - p.start) + (p.end - p.start))
            by (nonlinear_arith);
        assert(k * (p.end - p.start) <= 4 * (p.end - p.start)) by (nonlinear_arith)
            requires
                k <= 4,
                p.start <= p.end,
        ;
        n = n + found as u128;
        k = k + 1;
    }
    n >= 3 && 200 * n >= 3 * (len as u128)
}

fn string_names_hedge(s: &str) -> (r: bool)
    ensures
        r == any_in(s@, HEDGING_PHRASES@, 0, s@.len() as int),
{
    let text = Text::new(s);
    let n: usize = text.len();
    text.any_in(HEDGING_PHRASES.as_slice(), 0, n)
}

fn issue_names_hedge(i: &Issue) -> (r: bool)
    ensures
        r == names_hedge(i@),
{
    if i.rule_type != IssueType::AiStyle || i.severity != Severity::Info {
        return false;
    }
    match &i.context {
        Some(c) => string_names_hedge(c.as_str()) || string_names_hedge(i.found.as_str()),
        None => false,
    }
}

/// Promotes the hedges of paragraphs that hedge densely from advice to
/// warnings.
pub fn scan_ai_hedging_density(em: &mut Emitter<'_>, idx: &BoundaryIndex)
    requires
        old(em).wf(),
        idx.fits(old(em).chars().len() as int),
    ensures
        final(em).wf(),
        final(em).text == old(em).text,
        final(em).excluded == old(em).excluded,
        final(em).out() == Seq::new(
            old(em).out().len(),
            |i: int|
                promoted(
                    old(em).chars(),
                    old(em).ex(),
                    idx.paragraphs@,
                    idx.paragraphs@.len() as int,
                    old(em).out()[i],
                ),
        ),
{
    let ghost start = *em;
    let ghost t = em.chars();
    let ghost ex = em.ex();
    let total: usize = em.issues.len();
    let mut k: usize = 0;
    while k < idx.paragraphs.len()
        invariant
            em.wf(),
            em.text == start.text,
            em.excluded == start.excluded,
            t == start.chars(),
            ex == start.ex(),
            k <= idx.paragraphs@.len(),
            idx.fits(t.len() as int),
            total == em.issues@.len(),
            total == start.issues@.len(),
            forall|i: int|
                0 <= i < total ==> (#[trigger] em.issues@[i])@ == promoted(
                    t,
                    ex,
                    idx.paragraphs@,
                    k as int,
                    start.issues@[i]@,
                ),
        decreases idx.paragraphs@.len() - k,
    {
        let p = idx.paragraphs[k];
        let dense: bool = is_dense(em, p);
        let from: usize = em.text.byte(p.start);
        let to: usize = em.text.byte(p.end);
        let mut i: usize = 0;
        while i < total
            invariant
                em.wf(),
                em.text == start.text,
                em.excluded == start.excluded,
                t == start.chars(),
                ex == start.ex(),
                k < idx.paragraphs@.len(),
                p == idx.paragraphs@[k as int],
                dense == dense_hedging(t, ex, p),
                from == byte_pos(t, p.start as int),
                to == byte_pos(t, p.end as int),
                i <= total,
                total == em.issues@.len(),
                total == start.issues@.len(),
                forall|j: int|
                    0 <= j < i ==> (#[trigger] em.issues@[j])@ == promoted(
                        t,
                        ex,
                        idx.paragraphs@,
                        k + 1,
                        start.issues@[j]@,
                    ),
                forall|j: int|
                    i <= j < total ==> (#[trigger] em.issues@[j])@ == promoted(
                        t,
                        ex,
                        idx.paragraphs@,
                        k as int,
                        start.issues@[j]@,
                    ),
            decreases total - i,
        {
            let ghost was = em.issues@[i as int]@;
            let offset: usize = em.issues[i].offset;
            proof {
                lemma_in_dense_step(t, ex, idx.paragraphs@, k as int, offset as int);
            }
            if dense && from <= offset && offset < to && issue_names_hedge(&em.issues[i]) {
                em.issues[i].severity = Severity::Warning;
                assert(em.issues@[i as int]@ =~= (IssueModel {
                    severity: Severity::Warning,
                    ..was
                }));
            }
            i = i + 1;
        }
        k = k + 1;
    }
    assert(em.out() =~= Seq::new(
        start.out().len(),
        |i: int| promoted(t, ex, idx.paragraphs@, idx.paragraphs@.len() as int, start.out()[i]),
    ));
}

proof fn lemma_in_dense_step(
    t: Seq<char>,
    ex: Seq<ByteRange>,
    paragraphs: Seq<Paragraph>,
    k: int,
    offset: int,
)
    requires
        0 <= k < paragraphs.len(),
    ensures
        in_dense(t, ex, paragraphs, k + 1, offset) == (in_dense(t, ex, paragraphs, k, offset) || (
        dense_hedging(t, ex, paragraphs[k]) && byte_pos(t, paragraphs[k].start as int) <= offset
            < byte_pos(t, paragraphs[k].end as int))),
{
    if in_dense(t, ex, paragraphs, k + 1, offset) {
        let j = choose|j: int|
            0 <= j < k + 1 && dense_hedging(t, ex, #[trigger] paragraphs[j]) && byte_pos(
                t,
                paragraphs[j].start as int,
            ) <= offset < byte_pos(t, paragraphs[j].end as int);
        if j < k {
            assert(in_dense(t, ex, paragraphs, k, offset));
        }
    }
}

} // verus!
