//! Habits of machine-written prose that show in the paragraphs of a document.
use vstd::prelude::*;

use crate::bounds::{paragraph_spans, paragraphs_of, spans, Bound};
use crate::chars::{ascii_digit, is_ascii_digit};
use crate::emit::{
    ai_issue, any_hit, excluded_in, hits, joined, message, message_of, ByteRange, Emitter,
};
use crate::grammar::indexed::{one_decimal, round_to_even, rounded, tenths_of};
use crate::issue::{IssueModel, Severity, StructuralFamily};
use crate::lines::{line_spans, lines_from, skip_white, trim, trimmed};
use crate::text::{
    any_in, byte_pos, count_where, find_in, first_entry_in, floor_pos, lemma_byte_pos_monotone,
    next_of, occurs_at, Text,
};
use crate::walk::if_so;

verus! {

/// One excluded range covers the bytes `start..end`.
pub open spec fn covered(ex: Seq<ByteRange>, start: int, end: int) -> bool {
    exists|k: int| 0 <= k < ex.len() && (#[trigger] ex[k]).start <= start && end <= ex[k].end
}

/// Whether one excluded range covers the bytes `start..end`.
pub fn is_para_excluded(start: usize, end: usize, excluded: &[ByteRange]) -> (r: bool)
    ensures
        r == covered(excluded@, start as int, end as int),
{
    let mut k: usize = 0;
    while k < excluded.len()
        invariant
            k <= excluded@.len(),
            forall|j: int|
                0 <= j < k ==> !((#[trigger] excluded@[j]).start <= start && end
                    <= excluded@[j].end),
        decreases excluded@.len() - k,
    {
        if excluded[k].start <= start && end <= excluded[k].end {
            return true;
        }
        k = k + 1;
    }
    false
}

/// The span holds something, and no excluded range covers it.
pub open spec fn live(t: Seq<char>, ex: Seq<ByteRange>, s: (int, int)) -> bool {
    skip_white(t, s.0, s.1) < s.1 && !covered(ex, byte_pos(t, s.0), byte_pos(t, s.1))
}

/// The paragraphs among the first `n` that are live.
pub open spec fn live_spans(t: Seq<char>, ex: Seq<ByteRange>, p: Seq<(int, int)>, n: int) -> Seq<
    (int, int),
>
    decreases n,
{
    if n <= 0 {
        Seq::empty()
    } else if live(t, ex, p[n - 1]) {
        live_spans(t, ex, p, n - 1).push(p[n - 1])
    } else {
        live_spans(t, ex, p, n - 1)
    }
}

/// The live paragraphs of a document.
pub open spec fn live_paragraphs(t: Seq<char>, ex: Seq<ByteRange>) -> Seq<(int, int)> {
    live_spans(t, ex, paragraphs_of(t), paragraphs_of(t).len() as int)
}

fn collect_live(em: &Emitter<'_>) -> (r: Vec<Bound>)
    requires
        em.wf(),
    ensures
        spans(r@) == live_paragraphs(em.chars(), em.ex()),
        forall|k: int|
            0 <= k < r@.len() ==> (#[trigger] r@[k]).start <= r@[k].end <= em.chars().len(),
{
    let found = paragraph_spans(&em.text);
    let ghost p = paragraphs_of(em.chars());
    let mut r: Vec<Bound> = Vec::new();
    let mut k: usize = 0;
    assert(spans(r@) =~= Seq::empty());
    while k < found.len()
        invariant
            em.wf(),
            k <= found@.len(),
            p == paragraphs_of(em.chars()),
            spans(found@) == p,
            forall|j: int|
                0 <= j < found@.len() ==> (#[trigger] found@[j]).start <= found@[j].end
                    <= em.chars().len(),
            spans(r@) == live_spans(em.chars(), em.ex(), p, k as int),
            forall|j: int|
                0 <= j < r@.len() ==> (#[trigger] r@[j]).start <= r@[j].end <= em.chars().len(),
        decreases found@.len() - k,
    {
        let b = found[k];
        assert(p[k as int] == (b.start as int, b.end as int));
        let ghost before = spans(r@);
        if crate::lines::past_white(&em.text, b.start, b.end) < b.end && !is_para_excluded(
            em.text.byte(b.start),
            em.text.byte(b.end),
            em.excluded.as_slice(),
        ) {
            r.push(b);
            assert(spans(r@) =~= before.push(p[k as int]));
        }
        k = k + 1;
    }
    assert(found@.len() == p.len());
    r
}

/// First `i` of `from..to` that satisfies `f`, else `to`.
pub open spec fn first_where(from: int, to: int, f: spec_fn(int) -> bool) -> int
    decreases to - from,
{
    if from >= to || f(from) {
        from
    } else {
        first_where(from + 1, to, f)
    }
}

/// One finding for the whole document, on the first of the spans that satisfy
/// `f`, where `enough` holds.
pub open spec fn document_finding(
    t: Seq<char>,
    p: Seq<(int, int)>,
    f: spec_fn(int) -> bool,
    enough: bool,
    family: StructuralFamily,
    context: Seq<char>,
) -> Seq<IssueModel> {
    let at = p[first_where(0, p.len() as int, f)].0;
    if_so(enough, ai_issue(t, at, at, Seq::empty(), Severity::Info, Some(family), context))
}

/// Stock phrases that close a paragraph.
pub const ENDING_PATTERNS: [&'static str; 15] = [
    "的基礎",
    "的基石",
    "的起點",
    "的關鍵",
    "的核心",
    "證明了",
    "揭示了",
    "展示了",
    "體現了",
    "由此可見",
    "這說明了",
    "不難發現",
    "這提示我們",
    "這也印證了",
    "這反映了",
];

/// Phrases that open such a close.
pub const ENDING_PREFIXES: [&'static str; 3] = ["正是這", "正是在", "這也正是"];

/// Where the last ninety bytes of the span begin.
pub open spec fn tail_start(t: Seq<char>, from: int, to: int) -> int {
    if byte_pos(t, to) - byte_pos(t, from) <= 90 {
        from
    } else {
        floor_pos(t, byte_pos(t, to) - 90)
    }
}

/// The paragraph ends on a formula, its white space left aside.
pub open spec fn formulaic_ending(t: Seq<char>, s: (int, int)) -> bool {
    let (from, to) = trimmed(t, s.0, s.1);
    let tail = tail_start(t, from, to);
    any_in(t, ENDING_PATTERNS@, tail, to) || any_in(t, ENDING_PREFIXES@, tail, to)
}

pub open spec fn formulaic_endings(t: Seq<char>, p: Seq<(int, int)>) -> spec_fn(int) -> bool {
    |i: int| formulaic_ending(t, p[i])
}

/// Three or more of five or more paragraphs that end on a formula.
pub open spec fn paragraph_endings(t: Seq<char>, ex: Seq<ByteRange>) -> Seq<IssueModel> {
    let p = live_paragraphs(t, ex);
    let f = formulaic_endings(t, p);
    let n = count_where(0, p.len() as int, f);
    document_finding(
        t,
        p,
        f,
        p.len() >= 5 && n >= 3,
        StructuralFamily::ParagraphEndings,
        message(
            message("AI structural: "@, p.len(), " 個段落中 "@),
            n,
            " 個以公式化宣言結尾 (的基礎/證明了/正是這...)，疑似 AI 總結模式。"@,
        ),
    )
}

fn ends_on_formula(text: &Text<'_>, b: Bound) -> (r: bool)
    requires
        text.wf(),
        b.start <= b.end <= text@.len(),
    ensures
        r == formulaic_ending(text@, (b.start as int, b.end as int)),
{
    let (from, to) = trim(text, b.start, b.end);
    let lo: usize = text.byte(from);
    let hi: usize = text.byte(to);
    proof {
        lemma_byte_pos_monotone(text@, from as int, to as int);
    }
    let tail: usize = if hi - lo <= 90 {
        from
    } else {
        text.floor(hi - 90)
    };
    proof {
        if tail > to {
            lemma_byte_pos_monotone(text@, to as int, tail as int);
        }
    }
    text.any_in(ENDING_PATTERNS.as_slice(), tail, to) || text.any_in(
        ENDING_PREFIXES.as_slice(),
        tail,
        to,
    )
}

/// Paragraphs that close on stock declarations.
pub fn scan_ai_paragraph_endings(em: &mut Emitter<'_>)
    requires
        old(em).wf(),
    ensures
        final(em).wf(),
        final(em).extends(old(em), paragraph_endings(old(em).chars(), old(em).ex())),
{
    let ghost start = *em;
    let live = collect_live(em);
    let ghost p = spans(live@);
    let ghost f = formulaic_endings(em.chars(), p);
    let total: usize = live.len();
    let mut n: usize = 0;
    let mut first: usize = 0;
    let mut k: usize = 0;
    while k < total
        invariant
            em.wf(),
            *em == start,
            total == live@.len(),
            k <= total,
            p == spans(live@),
            f == formulaic_endings(em.chars(), p),
            forall|j: int|
                0 <= j < live@.len() ==> (#[trigger] live@[j]).start <= live@[j].end
                    <= em.chars().len(),
            n == count_where(0, k as int, f),
            n <= k,
            n > 0 ==> first < total && first == first_where(0, total as int, f),
            n == 0 ==> first_where(0, total as int, f) == first_where(k as int, total as int, f),
        decreases total - k,
    {
        assert(p[k as int] == (live@[k as int].start as int, live@[k as int].end as int));
        if ends_on_formula(&em.text, live[k]) {
            assert(f(k as int));
            if n == 0 {
                first = k;
            }
            n = n + 1;
        } else {
            assert(!f(k as int));
        }
        k = k + 1;
    }
    if total >= 5 && n >= 3 {
        let at: usize = live[first].start;
        assert(p[first as int].0 == at);
        let head: String = message_of("AI structural: ", total, " 個段落中 ");
        let context: String = message_of(
            head.as_str(),
            n,
            " 個以公式化宣言結尾 (的基礎/證明了/正是這...)，疑似 AI 總結模式。",
        );
        em.advise_ai(
            at,
            at,
            Severity::Info,
            Some(StructuralFamily::ParagraphEndings),
            context,
        );
    }
    assert(em.out() =~= start.out() + paragraph_endings(start.chars(), start.ex()));
}

pub open spec fn heavy_dashes(t: Seq<char>, ex: Seq<ByteRange>, p: Seq<(int, int)>) -> spec_fn(
    int,
) -> bool {
    |i: int| hits(t, ex, "—"@, p[i].0, p[i].1).len() >= 3
}

/// Three or more paragraphs with three dashes or more.
pub open spec fn dash_overuse(t: Seq<char>, ex: Seq<ByteRange>) -> Seq<IssueModel> {
    let p = live_paragraphs(t, ex);
    let f = heavy_dashes(t, ex, p);
    let n = count_where(0, p.len() as int, f);
    document_finding(
        t,
        p,
        f,
        p.len() >= 3 && n >= 3,
        StructuralFamily::DashOveruse,
        message(
            message("AI structural: "@, p.len(), " 個段落中 "@),
            n,
            " 個含 ≥3 個破折號，疑似 AI 過度使用插入說明。"@,
        ),
    )
}

/// Paragraphs full of dashes.
pub fn scan_ai_dash_overuse(em: &mut Emitter<'_>)
    requires
        old(em).wf(),
    ensures
        final(em).wf(),
        final(em).extends(old(em), dash_overuse(old(em).chars(), old(em).ex())),
{
    let ghost start = *em;
    let live = collect_live(em);
    let ghost p = spans(live@);
    let ghost f = heavy_dashes(em.chars(), em.ex(), p);
    proof {
        reveal_strlit("—");
    }
    let total: usize = live.len();
    let mut n: usize = 0;
    let mut first: usize = 0;
    let mut k: usize = 0;
    while k < total
        invariant
            em.wf(),
            *em == start,
            total == live@.len(),
            k <= total,
            "—"@.len() == 1,
            p == spans(live@),
            f == heavy_dashes(em.chars(), em.ex(), p),
            forall|j: int|
                0 <= j < live@.len() ==> (#[trigger] live@[j]).start <= live@[j].end
                    <= em.chars().len(),
            n == count_where(0, k as int, f),
            n <= k,
            n > 0 ==> first < total && first == first_where(0, total as int, f),
            n == 0 ==> first_where(0, total as int, f) == first_where(k as int, total as int, f),
        decreases total - k,
    {
        let b = live[k];
        assert(p[k as int] == (b.start as int, b.end as int));
        if em.count_hits("—", b.start, b.end).0 >= 3 {
            assert(f(k as int));
            if n == 0 {
                first = k;
            }
            n = n + 1;
        } else {
            assert(!f(k as int));
        }
        k = k + 1;
    }
    if total >= 3 && n >= 3 {
        let at: usize = live[first].start;
        assert(p[first as int].0 == at);
        let head: String = message_of("AI structural: ", total, " 個段落中 ");
        let context: String = message_of(
            head.as_str(),
            n,
            " 個含 ≥3 個破折號，疑似 AI 過度使用插入說明。",
        );
        em.advise_ai(at, at, Severity::Info, Some(StructuralFamily::DashOveruse), context);
    }
    assert(em.out() =~= start.out() + dash_overuse(start.chars(), start.ex()));
}

/// Headings out of the template.
pub const FORMULAIC_HEADINGS: [&'static str; 10] = [
    "挑戰與未來展望",
    "結論與展望",
    "挑戰與機遇",
    "問題與挑戰",
    "優勢與劣勢",
    "現狀與未來",
    "回顧與展望",
    "總結與展望",
    "影響與意義",
    "發展與演變",
];

/// First position of `from..to` that is not a hash, else `to`.
pub open spec fn skip_hashes(t: Seq<char>, from: int, to: int) -> int
    decreases to - from,
{
    if from < to && t[from] == '#' {
        skip_hashes(t, from + 1, to)
    } else {
        from
    }
}

/// The line is a heading, not covered by an excluded range, and holds a
/// formula outside the excluded ranges.
pub open spec fn formulaic_heading(t: Seq<char>, ex: Seq<ByteRange>, s: (int, int)) -> bool {
    let (from, to) = trimmed(t, s.0, s.1);
    let (a, b) = trimmed(t, skip_hashes(t, from, to), to);
    &&& from < to
    &&& t[from] == '#'
    &&& !covered(ex, byte_pos(t, s.0), byte_pos(t, s.1))
    &&& any_hit(t, ex, FORMULAIC_HEADINGS@, a, b)
}

pub open spec fn formulaic_lines(t: Seq<char>, ex: Seq<ByteRange>, p: Seq<(int, int)>) -> spec_fn(
    int,
) -> bool {
    |i: int| formulaic_heading(t, ex, p[i])
}

/// Two or more headings out of the template.
pub open spec fn formulaic_headings(t: Seq<char>, ex: Seq<ByteRange>) -> Seq<IssueModel> {
    let p = lines_from(t, 0, t.len() as int);
    let f = formulaic_lines(t, ex, p);
    let n = count_where(0, p.len() as int, f);
    document_finding(
        t,
        p,
        f,
        n >= 2,
        StructuralFamily::FormulaicHeadings,
        message(
            "AI structural: 發現 "@,
            n,
            " 個公式化標題 (挑戰與展望/結論與展望...)，疑似 AI 生成的章節結構。"@,
        ),
    )
}

proof fn lemma_headings_nonempty()
    ensures
        forall|j: int| 0 <= j < 10 ==> (#[trigger] FORMULAIC_HEADINGS@[j])@.len() >= 1,
{
    reveal_strlit("挑戰與未來展望");
    reveal_strlit("結論與展望");
    reveal_strlit("挑戰與機遇");
    reveal_strlit("問題與挑戰");
    reveal_strlit("優勢與劣勢");
    reveal_strlit("現狀與未來");
    reveal_strlit("回顧與展望");
    reveal_strlit("總結與展望");
    reveal_strlit("影響與意義");
    reveal_strlit("發展與演變");
}

fn is_formulaic_heading(em: &Emitter<'_>, b: Bound) -> (r: bool)
    requires
        em.wf(),
        b.start <= b.end <= em.chars().len(),
    ensures
        r == formulaic_heading(em.chars(), em.ex(), (b.start as int, b.end as int)),
{
    let (from, to) = trim(&em.text, b.start, b.end);
    if from >= to || em.text.ch(from) != '#' || is_para_excluded(
        em.text.byte(b.start),
        em.text.byte(b.end),
        em.excluded.as_slice(),
    ) {
        return false;
    }
    let mut a: usize = from;
    while a < to && em.text.ch(a) == '#'
        invariant
            em.wf(),
            from <= a <= to <= em.chars().len(),
            skip_hashes(em.chars(), a as int, to as int) == skip_hashes(
                em.chars(),
                from as int,
                to as int,
            ),
        decreases to - a,
    {
        a = a + 1;
    }
    let (c, d) = trim(&em.text, a, to);
    proof {
        lemma_headings_nonempty();
    }
    em.any_hit(FORMULAIC_HEADINGS.as_slice(), c, d)
}

/// Stereotyped section headings.
pub fn scan_ai_formulaic_headings(em: &mut Emitter<'_>)
    requires
        old(em).wf(),
    ensures
        final(em).wf(),
        final(em).extends(old(em), formulaic_headings(old(em).chars(), old(em).ex())),
{
    let ghost start = *em;
    let len: usize = em.text.len();
    let lines = line_spans(&em.text, 0, len);
    let ghost p = spans(lines@);
    let ghost f = formulaic_lines(em.chars(), em.ex(), p);
    let total: usize = lines.len();
    let mut n: usize = 0;
    let mut first: usize = 0;
    let mut k: usize = 0;
    while k < total
        invariant
            em.wf(),
            *em == start,
            total == lines@.len(),
            k <= total,
            p == spans(lines@),
            f == formulaic_lines(em.chars(), em.ex(), p),
            forall|j: int|
                0 <= j < lines@.len() ==> 0 <= (#[trigger] lines@[j]).start <= lines@[j].end
                    <= em.chars().len(),
            n == count_where(0, k as int, f),
            n <= k,
            n > 0 ==> first < total && first == first_where(0, total as int, f),
            n == 0 ==> first_where(0, total as int, f) == first_where(k as int, total as int, f),
        decreases total - k,
    {
        let b = lines[k];
        assert(p[k as int] == (b.start as int, b.end as int));
        if is_formulaic_heading(em, b) {
            assert(f(k as int));
            if n == 0 {
                first = k;
            }
            n = n + 1;
        } else {
            assert(!f(k as int));
        }
        k = k + 1;
    }
    if n >= 2 {
        let at: usize = lines[first].start;
        assert(p[first as int].0 == at);
        em.advise_ai(
            at,
            at,
            Severity::Info,
            Some(StructuralFamily::FormulaicHeadings),
            message_of(
                "AI structural: 發現 ",
                n,
                " 個公式化標題 (挑戰與展望/結論與展望...)，疑似 AI 生成的章節結構。",
            ),
        );
    }
    assert(em.out() =~= start.out() + formulaic_headings(start.chars(), start.ex()));
}

/// The line is an item of a list: a dash or an asterisk with a blank after it,
/// or a digit with a full stop and a blank within four bytes.
pub open spec fn list_line(t: Seq<char>, s: (int, int)) -> bool {
    let (from, to) = trimmed(t, s.0, s.1);
    ||| (occurs_at(t, "- "@, from) && from + 2 <= to)
    ||| (occurs_at(t, "* "@, from) && from + 2 <= to)
    ||| (byte_pos(t, to) - byte_pos(t, from) > 2 && ascii_digit(t[from]) && match find_in(
        t,
        ". "@,
        from,
        to,
    ) {
        Some(q) => byte_pos(t, q) - byte_pos(t, from) < 4,
        None => false,
    })
}

/// Some line of the span is an item of a list.
pub open spec fn holds_list(t: Seq<char>, s: (int, int)) -> bool {
    exists|i: int|
        0 <= i < lines_from(t, s.0, s.1).len() && list_line(
            t,
            #[trigger] lines_from(t, s.0, s.1)[i],
        )
}

pub open spec fn list_holders(t: Seq<char>, p: Seq<(int, int)>) -> spec_fn(int) -> bool {
    |i: int| holds_list(t, p[i])
}

/// More than four in ten of five or more paragraphs with a list in them, the
/// limit being scaled by `percent` per cent, and three at least.
pub open spec fn list_density(t: Seq<char>, ex: Seq<ByteRange>, percent: int) -> Seq<IssueModel> {
    let p = live_paragraphs(t, ex);
    let f = list_holders(t, p);
    let n = count_where(0, p.len() as int, f);
    document_finding(
        t,
        p,
        f,
        p.len() >= 5 && n >= 3 && 1000 * n > 4 * percent * p.len(),
        StructuralFamily::ListDensity,
        message(
            message(
                message("AI structural: 全文 "@, p.len(), " 段落中 "@),
                n,
                " 個含列表 ("@,
            ),
            ((100 * n) as int / (p.len() as int)) as nat,
            "%)，疑似 AI 結構化傾向。"@,
        ),
    )
}

fn is_list_line(text: &Text<'_>, b: Bound) -> (r: bool)
    requires
        text.wf(),
        b.start <= b.end <= text@.len(),
    ensures
        r == list_line(text@, (b.start as int, b.end as int)),
{
    let (from, to) = trim(text, b.start, b.end);
    proof {
        reveal_strlit("- ");
        reveal_strlit("* ");
        lemma_byte_pos_monotone(text@, from as int, to as int);
    }
    if to - from >= 2 && (text.at("- ", from) || text.at("* ", from)) {
        return true;
    }
    let lo: usize = text.byte(from);
    let hi: usize = text.byte(to);
    if hi - lo > 2 && is_ascii_digit(text.ch(from)) {
        match text.find(". ", from, to) {
            Some(q) => {
                proof {
                    lemma_byte_pos_monotone(text@, from as int, q as int);
                }
                text.byte(q) - lo < 4
            },
            None => false,
        }
    } else {
        false
    }
}

fn has_list(text: &Text<'_>, b: Bound) -> (r: bool)
    requires
        text.wf(),
        b.start <= b.end <= text@.len(),
    ensures
        r == holds_list(text@, (b.start as int, b.end as int)),
{
    let lines = line_spans(text, b.start, b.end);
    let ghost all = lines_from(text@, b.start as int, b.end as int);
    assert(spans(lines@).len() == lines@.len());
    let mut k: usize = 0;
    while k < lines.len()
        invariant
            text.wf(),
            k <= lines@.len(),
            lines@.len() == all.len(),
            spans(lines@) == all,
            all == lines_from(text@, b.start as int, b.end as int),
            b.end <= text@.len(),
            forall|j: int|
                0 <= j < lines@.len() ==> b.start <= (#[trigger] lines@[j]).start <= lines@[j].end
                    <= b.end,
            forall|j: int| 0 <= j < k ==> !list_line(text@, #[trigger] all[j]),
        decreases lines@.len() - k,
    {
        let l = lines[k];
        assert(all[k as int] == (l.start as int, l.end as int));
        if is_list_line(text, l) {
            proof {
                let s = (b.start as int, b.end as int);
                assert(list_line(text@, lines_from(text@, s.0, s.1)[k as int]));
                assert(holds_list(text@, s));
            }
            return true;
        }
        k = k + 1;
    }
    false
}

/// Share of the paragraphs that hold a list.
pub fn scan_ai_list_density(em: &mut Emitter<'_>, percent: u32)
    requires
        old(em).wf(),
    ensures
        final(em).wf(),
        final(em).extends(
            old(em),
            list_density(old(em).chars(), old(em).ex(), percent as int),
        ),
{
    let ghost start = *em;
    let live = collect_live(em);
    let ghost p = spans(live@);
    let ghost f = list_holders(em.chars(), p);
    let total: usize = live.len();
    let mut n: usize = 0;
    let mut first: usize = 0;
    let mut k: usize = 0;
    while k < total
        invariant
            em.wf(),
            *em == start,
            total == live@.len(),
            k <= total,
            p == spans(live@),
            f == list_holders(em.chars(), p),
            forall|j: int|
                0 <= j < live@.len() ==> (#[trigger] live@[j]).start <= live@[j].end
                    <= em.chars().len(),
            n == count_where(0, k as int, f),
            n <= k,
            n > 0 ==> first < total && first == first_where(0, total as int, f),
            n == 0 ==> first_where(0, total as int, f) == first_where(k as int, total as int, f),
        decreases total - k,
    {
        let b = live[k];
        assert(p[k as int] == (b.start as int, b.end as int));
        if has_list(&em.text, b) {
            assert(f(k as int));
            if n == 0 {
                first = k;
            }
            n = n + 1;
        } else {
            assert(!f(k as int));
        }
        k = k + 1;
    }
    if total >= 5 && n >= 3 {
        let limit: u128 = 4 * (percent as u128);
        proof {
            assert(limit * total <= u128::MAX) by (nonlinear_arith)
                requires
                    limit <= 0xF_FFFF_FFFF,
                    total <= u64::MAX,
            ;
        }
        if 1000 * (n as u128) > limit * (total as u128) {
            let at: usize = live[first].start;
            assert(p[first as int].0 == at);
            let share: u128 = 100 * (n as u128) / (total as u128);
            proof {
                vstd::arithmetic::div_mod::lemma_div_is_ordered(
                    100 * n as int,
                    100 * total as int,
                    total as int,
                );
                assert((100 * total as int) / (total as int) == 100) by (nonlinear_arith)
                    requires
                        total >= 5,
                ;
            }
            let head: String = message_of("AI structural: 全文 ", total, " 段落中 ");
            let middle: String = message_of(head.as_str(), n, " 個含列表 (");
            let context: String = message_of(
                middle.as_str(),
                share as usize,
                "%)，疑似 AI 結構化傾向。",
            );
            em.advise_ai(at, at, Severity::Info, Some(StructuralFamily::ListDensity), context);
        }
    }
    assert(em.out() =~= start.out() + list_density(start.chars(), start.ex(), percent as int));
}

/// Marks that divide a paragraph for the count of contrasts.
pub const CONTRAST_MARKS: [char; 3] = ['。', '！', '？'];

pub const CONCESSIVE_STARTS: [&'static str; 4] = ["雖然", "儘管", "即便", "即使"];

pub const CONCESSIVE_TURNS: [&'static str; 4] = ["但", "卻", "然而", "不過"];

pub const PROGRESSIVE_STARTS: [&'static str; 3] = ["不僅", "不只", "不單"];

pub const PROGRESSIVE_TURNS: [&'static str; 4] = ["更", "還", "也", "亦"];

/// Where a contrast begins in `from..to`: the first of the start words that
/// occurs at all, with one of the turn words after it outside the excluded
/// ranges.
pub open spec fn contrast_at(
    t: Seq<char>,
    ex: Seq<ByteRange>,
    starts: Seq<&'static str>,
    turns: Seq<&'static str>,
    from: int,
    to: int,
) -> Option<int> {
    match first_entry_in(t, starts, 0, from, to) {
        Some((k, p)) => if any_hit(t, ex, turns, p + starts[k]@.len(), to) {
            Some(p)
        } else {
            None
        },
        None => None,
    }
}

pub fn contrast_hit(
    em: &Emitter<'_>,
    starts: &[&'static str],
    turns: &[&'static str],
    from: usize,
    to: usize,
) -> (r: Option<usize>)
    requires
        em.wf(),
        from <= to <= em.chars().len(),
        forall|k: int| 0 <= k < turns@.len() ==> (#[trigger] turns@[k])@.len() >= 1,
    ensures
        match (
            r,
            contrast_at(em.chars(), em.ex(), starts@, turns@, from as int, to as int),
        ) {
            (Some(a), Some(b)) => a == b && from <= a <= to,
            (None, None) => true,
            _ => false,
        },
{
    match em.text.first_entry(starts, from, to) {
        Some((k, p)) => {
            let _len: usize = em.text.len();
            let after: usize = p + starts[k].unicode_len();
            if em.any_hit(turns, after, to) {
                Some(p)
            } else {
                None
            }
        },
        None => None,
    }
}

/// The contrast, where the byte it begins on is not excluded.
pub open spec fn counted(t: Seq<char>, ex: Seq<ByteRange>, at: Option<int>) -> Seq<int> {
    match at {
        Some(p) => if excluded_in(ex, byte_pos(t, p), byte_pos(t, p) + 1) {
            Seq::empty()
        } else {
            seq![p]
        },
        None => Seq::empty(),
    }
}

/// The contrasts of one sentence: concessive, then progressive.
pub open spec fn sentence_contrasts(t: Seq<char>, ex: Seq<ByteRange>, from: int, to: int) -> Seq<
    int,
> {
    counted(t, ex, contrast_at(t, ex, CONCESSIVE_STARTS@, CONCESSIVE_TURNS@, from, to)) + counted(
        t,
        ex,
        contrast_at(t, ex, PROGRESSIVE_STARTS@, PROGRESSIVE_TURNS@, from, to),
    )
}

/// The contrasts of `from..to`, sentence by sentence.
pub open spec fn span_contrasts(t: Seq<char>, ex: Seq<ByteRange>, from: int, to: int) -> Seq<int>
    decreases to - from,
{
    let end = next_of(t, CONTRAST_MARKS@, from, to);
    if from <= end < to {
        sentence_contrasts(t, ex, from, end) + span_contrasts(t, ex, end + 1, to)
    } else {
        sentence_contrasts(t, ex, from, to)
    }
}

/// The contrasts of the first `n` paragraphs that no excluded range covers.
pub open spec fn contrasts(t: Seq<char>, ex: Seq<ByteRange>, p: Seq<(int, int)>, n: int) -> Seq<int>
    decreases n,
{
    if n <= 0 {
        Seq::empty()
    } else if covered(ex, byte_pos(t, p[n - 1].0), byte_pos(t, p[n - 1].1)) {
        contrasts(t, ex, p, n - 1)
    } else {
        contrasts(t, ex, p, n - 1) + span_contrasts(t, ex, p[n - 1].0, p[n - 1].1)
    }
}

/// More than five contrasts per thousand characters, the limit being scaled by
/// `percent` per cent, and three at least, in a text of five hundred
/// characters or more.
pub open spec fn binary_contrast(t: Seq<char>, ex: Seq<ByteRange>, percent: int) -> Seq<IssueModel> {
    let found = contrasts(t, ex, paragraphs_of(t), paragraphs_of(t).len() as int);
    if_so(
        t.len() >= 500 && found.len() >= 3 && 20000 * found.len() > percent * t.len(),
        ai_issue(
            t,
            found[0],
            found[0],
            Seq::empty(),
            Severity::Info,
            Some(StructuralFamily::BinaryContrast),
            message("AI structural: 二元對比句式出現 "@, found.len(), " 次 ("@) + one_decimal(
                rounded(10000 * found.len() as int, t.len() as int),
            ) + "次/千字，閾值 "@ + one_decimal(rounded(5 * percent, 10))
                + ")，疑似 AI 慣用的對立轉折模式。"@,
        ),
    )
}

proof fn lemma_turns_nonempty()
    ensures
        forall|j: int| 0 <= j < 4 ==> (#[trigger] CONCESSIVE_TURNS@[j])@.len() >= 1,
        forall|j: int| 0 <= j < 4 ==> (#[trigger] PROGRESSIVE_TURNS@[j])@.len() >= 1,
{
    reveal_strlit("但");
    reveal_strlit("卻");
    reveal_strlit("然而");
    reveal_strlit("不過");
    reveal_strlit("更");
    reveal_strlit("還");
    reveal_strlit("也");
    reveal_strlit("亦");
}

/// The positions as mathematical integers.
pub open spec fn positions(found: Seq<usize>) -> Seq<int> {
    Seq::new(found.len(), |i: int| found[i] as int)
}

fn add_contrast(em: &Emitter<'_>, at: Option<usize>, found: &mut Vec<usize>)
    requires
        em.wf(),
        at is Some ==> at->0 <= em.chars().len(),
        forall|j: int| 0 <= j < old(found)@.len() ==> (#[trigger] old(found)@[j]) <= em.chars().len(),
    ensures
        positions(final(found)@) == positions(old(found)@) + counted(
            em.chars(),
            em.ex(),
            match at {
                Some(p) => Some(p as int),
                None => None,
            },
        ),
        forall|j: int|
            0 <= j < final(found)@.len() ==> (#[trigger] final(found)@[j]) <= em.chars().len(),
{
    let ghost before = positions(found@);
    if let Some(p) = at {
        let out: bool = em.excluded_byte(p);
        if !out {
            found.push(p);
            assert(positions(found@) =~= before.push(p as int));
        }
    }
    assert(positions(found@) =~= before + counted(
        em.chars(),
        em.ex(),
        match at {
            Some(p) => Some(p as int),
            None => None,
        },
    ));
}

fn add_sentence_contrasts(em: &Emitter<'_>, from: usize, to: usize, found: &mut Vec<usize>)
    requires
        em.wf(),
        from <= to <= em.chars().len(),
        forall|j: int| 0 <= j < old(found)@.len() ==> (#[trigger] old(found)@[j]) <= em.chars().len(),
    ensures
        positions(final(found)@) == positions(old(found)@) + sentence_contrasts(
            em.chars(),
            em.ex(),
            from as int,
            to as int,
        ),
        forall|j: int|
            0 <= j < final(found)@.len() ==> (#[trigger] final(found)@[j]) <= em.chars().len(),
{
    let ghost before = positions(found@);
    proof {
        lemma_turns_nonempty();
    }
    let a = contrast_hit(
        em,
        CONCESSIVE_STARTS.as_slice(),
        CONCESSIVE_TURNS.as_slice(),
        from,
        to,
    );
    add_contrast(em, a, found);
    let b = contrast_hit(
        em,
        PROGRESSIVE_STARTS.as_slice(),
        PROGRESSIVE_TURNS.as_slice(),
        from,
        to,
    );
    add_contrast(em, b, found);
    assert(positions(found@) =~= before + sentence_contrasts(
        em.chars(),
        em.ex(),
        from as int,
        to as int,
    ));
}

fn add_span_contrasts(em: &Emitter<'_>, lo: usize, to: usize, found: &mut Vec<usize>)
    requires
        em.wf(),
        lo <= to <= em.chars().len(),
        forall|j: int| 0 <= j < old(found)@.len() ==> (#[trigger] old(found)@[j]) <= em.chars().len(),
    ensures
        positions(final(found)@) == positions(old(found)@) + span_contrasts(
            em.chars(),
            em.ex(),
            lo as int,
            to as int,
        ),
        forall|j: int|
            0 <= j < final(found)@.len() ==> (#[trigger] final(found)@[j]) <= em.chars().len(),
{
    let ghost before = positions(found@);
    let mut from: usize = lo;
    let mut end: usize = em.text.next(CONTRAST_MARKS.as_slice(), from, to);
    while end < to
        invariant
            em.wf(),
            lo <= from <= end <= to <= em.chars().len(),
            end == next_of(em.chars(), CONTRAST_MARKS@, from as int, to as int),
            positions(found@) + span_contrasts(em.chars(), em.ex(), from as int, to as int)
                =~= before + span_contrasts(em.chars(), em.ex(), lo as int, to as int),
            forall|j: int| 0 <= j < found@.len() ==> (#[trigger] found@[j]) <= em.chars().len(),
        decreases to - from,
    {
        add_sentence_contrasts(em, from, end, found);
        from = end + 1;
        end = em.text.next(CONTRAST_MARKS.as_slice(), from, to);
    }
    add_sentence_contrasts(em, from, to, found);
}

fn collect_contrasts(em: &Emitter<'_>) -> (found: Vec<usize>)
    requires
        em.wf(),
    ensures
        positions(found@) == contrasts(
            em.chars(),
            em.ex(),
            paragraphs_of(em.chars()),
            paragraphs_of(em.chars()).len() as int,
        ),
        forall|j: int| 0 <= j < found@.len() ==> (#[trigger] found@[j]) <= em.chars().len(),
{
    let paragraphs = paragraph_spans(&em.text);
    let ghost p = paragraphs_of(em.chars());
    let mut found: Vec<usize> = Vec::new();
    assert(positions(found@) =~= Seq::empty());
    let mut k: usize = 0;
    while k < paragraphs.len()
        invariant
            em.wf(),
            k <= paragraphs@.len(),
            p == paragraphs_of(em.chars()),
            spans(paragraphs@) == p,
            forall|j: int|
                0 <= j < paragraphs@.len() ==> (#[trigger] paragraphs@[j]).start
                    <= paragraphs@[j].end <= em.chars().len(),
            positions(found@) == contrasts(em.chars(), em.ex(), p, k as int),
            forall|j: int| 0 <= j < found@.len() ==> (#[trigger] found@[j]) <= em.chars().len(),
        decreases paragraphs@.len() - k,
    {
        let b = paragraphs[k];
        assert(p[k as int] == (b.start as int, b.end as int));
        if !is_para_excluded(
            em.text.byte(b.start),
            em.text.byte(b.end),
            em.excluded.as_slice(),
        ) {
            add_span_contrasts(em, b.start, b.end, &mut found);
        }
        k = k + 1;
    }
    assert(paragraphs@.len() == p.len());
    found
}

/// Density of paired contrasts over the document.
pub fn scan_ai_binary_contrast(em: &mut Emitter<'_>, percent: u32)
    requires
        old(em).wf(),
    ensures
        final(em).wf(),
        final(em).extends(
            old(em),
            binary_contrast(old(em).chars(), old(em).ex(), percent as int),
        ),
{
    let ghost start = *em;
    let n: usize = em.text.len();
    if n >= 500 {
        let found = collect_contrasts(em);
        let ghost model = positions(found@);
        let count: usize = found.len();
        proof {
            assert(percent * n <= u128::MAX) by (nonlinear_arith)
                requires
                    percent <= u32::MAX,
                    n <= u64::MAX,
            ;
        }
        if count >= 3 && 20000 * (count as u128) > (percent as u128) * (n as u128) {
            let at: usize = found[0];
            assert(model[0] == at);
            proof {
                lemma_contrast_bound(em.chars(), em.ex());
            }
            let density: usize = round_to_even(10000 * (count as u128), n as u128, 20040);
            let limit: usize = round_to_even(5 * (percent as u128), 10, 2147483648);
            let head: String = message_of("AI structural: 二元對比句式出現 ", count, " 次 (");
            let middle: String = joined(
                head.as_str(),
                tenths_of(density).as_str(),
                "次/千字，閾值 ",
            );
            let context: String = joined(
                middle.as_str(),
                tenths_of(limit).as_str(),
                ")，疑似 AI 慣用的對立轉折模式。",
            );
            em.advise_ai(
                at,
                at,
                Severity::Info,
                Some(StructuralFamily::BinaryContrast),
                context,
            );
        }
    }
    assert(em.out() =~= start.out() + binary_contrast(start.chars(), start.ex(), percent as int));
}

proof fn lemma_span_contrast_bound(t: Seq<char>, ex: Seq<ByteRange>, from: int, to: int)
    requires
        0 <= from <= to <= t.len(),
    ensures
        span_contrasts(t, ex, from, to).len() <= 2 * (to - from) + 2,
    decreases to - from,
{
    let end = next_of(t, CONTRAST_MARKS@, from, to);
    if from <= end < to {
        lemma_span_contrast_bound(t, ex, end + 1, to);
    }
}

proof fn lemma_paragraphs_fit(t: Seq<char>, prev: int, i: int)
    requires
        0 <= prev <= i <= t.len(),
    ensures
        forall|k: int|
            0 <= k < paragraphs_from_of(t, prev, i).len() ==> {
                let s = #[trigger] paragraphs_from_of(t, prev, i)[k];
                prev <= s.0 <= s.1 <= t.len()
            },
        total_len(paragraphs_from_of(t, prev, i), paragraphs_from_of(t, prev, i).len() as int)
            + paragraphs_from_of(t, prev, i).len() <= t.len() - prev + 1,
    decreases t.len() - i,
{
    let all = paragraphs_from_of(t, prev, i);
    if i >= t.len() {
        if prev < t.len() {
            lemma_trim_fits(t, prev, t.len() as int);
            assert(total_len(all, 1) == total_len(all, 0) + (all[0].1 - all[0].0));
        }
    } else {
        match crate::bounds::blank_line_end(t, i) {
            Some(next) => {
                lemma_trim_fits(t, prev, i);
                lemma_paragraphs_fit(t, next, next);
                let rest = paragraphs_from_of(t, next, next);
                let head = (prev, crate::bounds::trim_line_end(t, prev, i));
                assert(all =~= seq![head] + rest);
                lemma_total_len_cons(head, rest, rest.len() as int);
                assert forall|k: int| 0 <= k < all.len() implies {
                    let s = #[trigger] all[k];
                    prev <= s.0 <= s.1 <= t.len()
                } by {
                    if k > 0 {
                        assert(all[k] == rest[k - 1]);
                    }
                }
            },
            None => {
                lemma_paragraphs_fit(t, prev, i + 1);
            },
        }
    }
}

spec fn paragraphs_from_of(t: Seq<char>, prev: int, i: int) -> Seq<(int, int)> {
    crate::bounds::paragraphs_from(t, prev, i)
}

spec fn total_len(p: Seq<(int, int)>, n: int) -> int
    decreases n,
{
    if n <= 0 {
        0
    } else {
        total_len(p, n - 1) + (p[n - 1].1 - p[n - 1].0)
    }
}

proof fn lemma_total_len_cons(head: (int, int), rest: Seq<(int, int)>, n: int)
    requires
        0 <= n <= rest.len(),
    ensures
        total_len(seq![head] + rest, n + 1) == (head.1 - head.0) + total_len(rest, n),
    decreases n,
{
    let all = seq![head] + rest;
    if n > 0 {
        lemma_total_len_cons(head, rest, n - 1);
        assert(all[n] == rest[n - 1]);
    } else {
        assert(total_len(all, 1) == total_len(all, 0) + (all[0].1 - all[0].0));
    }
}

proof fn lemma_trim_fits(t: Seq<char>, from: int, to: int)
    requires
        from <= to,
    ensures
        from <= crate::bounds::trim_line_end(t, from, to) <= to,
    decreases to - from,
{
    if to > from && (t[to - 1] == '\r' || t[to - 1] == '\n') {
        lemma_trim_fits(t, from, to - 1);
    }
}

proof fn lemma_contrasts_bound(t: Seq<char>, ex: Seq<ByteRange>, p: Seq<(int, int)>, n: int)
    requires
        0 <= n <= p.len(),
        forall|k: int| 0 <= k < p.len() ==> 0 <= (#[trigger] p[k]).0 <= p[k].1 <= t.len(),
    ensures
        contrasts(t, ex, p, n).len() <= 2 * total_len(p, n) + 2 * n,
    decreases n,
{
    if n > 0 {
        lemma_contrasts_bound(t, ex, p, n - 1);
        lemma_span_contrast_bound(t, ex, p[n - 1].0, p[n - 1].1);
    }
}

/// A text holds at most two contrasts per character and two more.
pub proof fn lemma_contrast_bound(t: Seq<char>, ex: Seq<ByteRange>)
    ensures
        contrasts(t, ex, paragraphs_of(t), paragraphs_of(t).len() as int).len() <= 2 * t.len() + 2,
{
    let p = paragraphs_of(t);
    lemma_paragraphs_fit(t, 0, 0);
    assert forall|k: int| 0 <= k < p.len() implies 0 <= (#[trigger] p[k]).0 <= p[k].1
        <= t.len() by {
        assert(paragraphs_from_of(t, 0, 0)[k] == p[k]);
    }
    lemma_contrasts_bound(t, ex, p, p.len() as int);
}

/// A document whose lists or contrasts are reported under a limit has them
/// reported under any lower one.
pub proof fn law_lower_limits_report_more(
    t: Seq<char>,
    ex: Seq<ByteRange>,
    lower: int,
    higher: int,
)
    requires
        0 <= lower <= higher,
    ensures
        list_density(t, ex, higher).len() > 0 ==> list_density(t, ex, lower).len() > 0,
        binary_contrast(t, ex, higher).len() > 0 ==> binary_contrast(t, ex, lower).len() > 0,
{
    let p = live_paragraphs(t, ex).len() as int;
    let n = t.len() as int;
    assert(4 * lower * p <= 4 * higher * p) by (nonlinear_arith)
        requires
            0 <= p,
            0 <= lower <= higher,
    ;
    assert(lower * n <= higher * n) by (nonlinear_arith)
        requires
            0 <= n,
            0 <= lower <= higher,
    ;
}

} // verus!
