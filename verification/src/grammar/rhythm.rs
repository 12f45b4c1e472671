//! The rhythm of the prose: a sentence that never pauses, and sentences that
//! close on the same particle one after another.
use vstd::prelude::*;
use vstd::string::*;

use crate::bounds::{Bound, BoundaryIndex, Paragraph};
use crate::chars::{cjk_ideograph, is_cjk_ideograph, is_whitespace, whitespace};
use crate::emit::{message, message_of, span_excluded, translationese_issue, ByteRange, Emitter};
use crate::issue::{IssueModel, PhaseFamily, PhasePass, Severity};
use crate::lines::{past_white, skip_white};
use crate::text::{bounded, count_where, least, listed, Text};
use crate::walk::{each, if_so};

verus! {

/// A sentence past this many CJK characters has not offered a breath.
pub const RHYTHM_MAX_SENTENCE_CJK: usize = 30;

/// A fragment shorter than this is no violation.
pub const RHYTHM_MIN_FRAGMENT_CJK: usize = 15;

/// Sentences on one particle before it is monotony.
pub const RHYTHM_MONOTONY_RUN: usize = 3;

/// Marks at which the reader breathes.
pub const RHYTHM_PAUSE_BREAKERS: [char; 38] = [
    '，',
    '、',
    '；',
    '：',
    '。',
    '！',
    '？',
    ',',
    ';',
    ':',
    '.',
    '!',
    '?',
    '（',
    '）',
    '(',
    ')',
    '「',
    '」',
    '『',
    '』',
    '【',
    '】',
    '〔',
    '〕',
    '《',
    '》',
    '〈',
    '〉',
    '—',
    '－',
    '-',
    '…',
    '"',
    '\u{201C}',
    '\u{201D}',
    '\u{2018}',
    '\u{2019}',
];

/// Particles that end a sentence flatly.
pub const RHYTHM_MONOTONE_ENDINGS: [char; 3] = ['的', '了', '呢'];

/// What may stand between the last spoken character and the end of a
/// sentence, besides white space.
pub const RHYTHM_SENTENCE_CLOSERS: [char; 23] = [
    '。',
    '！',
    '？',
    '；',
    '，',
    '、',
    '…',
    '.',
    '!',
    '?',
    ';',
    ',',
    '」',
    '』',
    '）',
    ')',
    '】',
    '〕',
    '》',
    '〉',
    '"',
    '\u{201D}',
    '\u{2019}',
];

/// A CJK ideograph stands at the position.
pub open spec fn is_cjk_at(t: Seq<char>) -> spec_fn(int) -> bool {
    |i: int| cjk_ideograph(t[i])
}

/// How many CJK ideographs `from..to` holds.
pub open spec fn cjk_len(t: Seq<char>, from: int, to: int) -> nat {
    count_where(from, to, is_cjk_at(t))
}

pub fn rhythm_cjk_len(text: &Text<'_>, from: usize, to: usize) -> (n: usize)
    requires
        text.wf(),
        from <= to <= text@.len(),
    ensures
        n == cjk_len(text@, from as int, to as int),
{
    let mut i: usize = from;
    let mut n: usize = 0;
    while i < to
        invariant
            text.wf(),
            from <= i <= to <= text@.len(),
            n == cjk_len(text@, from as int, i as int),
            n <= i - from,
        decreases to - i,
    {
        if is_cjk_ideograph(text.ch(i)) {
            n = n + 1;
        }
        i = i + 1;
    }
    n
}

/// CJK characters of `from..to` after its last breaker.
pub open spec fn open_run(t: Seq<char>, from: int, to: int) -> nat
    decreases to - from,
{
    if to <= from || RHYTHM_PAUSE_BREAKERS@.contains(t[to - 1]) {
        0
    } else if cjk_ideograph(t[to - 1]) {
        open_run(t, from, to - 1) + 1
    } else {
        open_run(t, from, to - 1)
    }
}

/// The most CJK characters that stand in `from..to` without a breaker among
/// them.
pub open spec fn longest_run(t: Seq<char>, from: int, to: int) -> nat
    decreases to - from,
{
    if to <= from {
        0
    } else if open_run(t, from, to) > longest_run(t, from, to - 1) {
        open_run(t, from, to)
    } else {
        longest_run(t, from, to - 1)
    }
}

/// The longest run of CJK characters without a pause.
pub fn longest_pause_free_run(text: &Text<'_>, from: usize, to: usize) -> (n: usize)
    requires
        text.wf(),
        from <= to <= text@.len(),
    ensures
        n == longest_run(text@, from as int, to as int),
{
    let mut i: usize = from;
    let mut longest: usize = 0;
    let mut current: usize = 0;
    while i < to
        invariant
            text.wf(),
            from <= i <= to <= text@.len(),
            longest == longest_run(text@, from as int, i as int),
            current == open_run(text@, from as int, i as int),
            current <= i - from,
        decreases to - i,
    {
        let c = text.ch(i);
        if listed(RHYTHM_PAUSE_BREAKERS.as_slice(), c) {
            current = 0;
        } else if is_cjk_ideograph(c) {
            current = current + 1;
        }
        if current > longest {
            longest = current;
        }
        i = i + 1;
    }
    longest
}

/// A sentence of more than thirty CJK characters with a stretch of fifteen or
/// more that never pauses. The finding names its first eight characters.
pub open spec fn long_sentence_rule(
    t: Seq<char>,
    ex: Seq<ByteRange>,
    sentences: Seq<Bound>,
) -> spec_fn(int) -> Seq<IssueModel> {
    |k: int|
        {
            let (from, to) = (sentences[k].start as int, sentences[k].end as int);
            let total = cjk_len(t, from, to);
            let start = skip_white(t, from, to);
            if_so(
                !span_excluded(t, ex, from, to) && total > RHYTHM_MAX_SENTENCE_CJK && longest_run(
                    t,
                    from,
                    to,
                ) >= RHYTHM_MIN_FRAGMENT_CJK && start < to,
                translationese_issue(
                    t,
                    start,
                    least(start + 8, to),
                    Seq::empty(),
                    Severity::Info,
                    Some((PhaseFamily::RhythmLongSentence, PhasePass::Indexed)),
                    message("氣口：長句 — 單句 "@, total, " 字未換氣，建議拆句或補標點"@),
                ),
            )
        }
}

pub fn scan_rhythm_long_sentence(em: &mut Emitter<'_>, idx: &BoundaryIndex)
    requires
        old(em).wf(),
        idx.fits(old(em).chars().len() as int),
    ensures
        final(em).wf(),
        final(em).extends(
            old(em),
            each(
                idx.sentences@.len() as int,
                long_sentence_rule(old(em).chars(), old(em).ex(), idx.sentences@),
            ),
        ),
{
    let ghost start = *em;
    let ghost f = long_sentence_rule(em.chars(), em.ex(), idx.sentences@);
    let mut k: usize = 0;
    while k < idx.sentences.len()
        invariant
            em.wf(),
            k <= idx.sentences@.len(),
            idx.fits(em.chars().len() as int),
            f == long_sentence_rule(start.chars(), start.ex(), idx.sentences@),
            em.extends(&start, each(k as int, f)),
        decreases idx.sentences@.len() - k,
    {
        let s = idx.sentences[k];
        if !em.excluded_span(s.start, s.end) {
            let total: usize = rhythm_cjk_len(&em.text, s.start, s.end);
            if total > RHYTHM_MAX_SENTENCE_CJK && longest_pause_free_run(&em.text, s.start, s.end)
                >= RHYTHM_MIN_FRAGMENT_CJK {
                let from: usize = past_white(&em.text, s.start, s.end);
                if from < s.end {
                    let to: usize = bounded(from, 8, s.end);
                    em.advise_translationese(
                        from,
                        to,
                        Severity::Info,
                        Some((PhaseFamily::RhythmLongSentence, PhasePass::Indexed)),
                        message_of("氣口：長句 — 單句 ", total, " 字未換氣，建議拆句或補標點"),
                    );
                }
            }
        }
        assert(em.out() =~= start.out() + (each(k as int, f) + f(k as int)));
        k = k + 1;
    }
}

/// End of `from..to` without white space and closing marks.
pub open spec fn spoken_end(t: Seq<char>, from: int, to: int) -> int
    decreases to - from,
{
    if to > from && (whitespace(t[to - 1]) || RHYTHM_SENTENCE_CLOSERS@.contains(t[to - 1])) {
        spoken_end(t, from, to - 1)
    } else {
        to
    }
}

/// The particle that the sentence `from..to` ends on, where it ends on one.
pub open spec fn ending_particle(t: Seq<char>, from: int, to: int) -> Option<char> {
    let e = spoken_end(t, from, to);
    if e > from && RHYTHM_MONOTONE_ENDINGS@.contains(t[e - 1]) {
        Some(t[e - 1])
    } else {
        None
    }
}

pub fn rhythm_ending_particle(text: &Text<'_>, from: usize, to: usize) -> (r: Option<char>)
    requires
        text.wf(),
        from <= to <= text@.len(),
    ensures
        r == ending_particle(text@, from as int, to as int),
{
    let mut e: usize = to;
    while e > from && (is_whitespace(text.ch(e - 1)) || listed(
        RHYTHM_SENTENCE_CLOSERS.as_slice(),
        text.ch(e - 1),
    ))
        invariant
            text.wf(),
            from <= e <= to <= text@.len(),
            spoken_end(text@, from as int, e as int) == spoken_end(
                text@,
                from as int,
                to as int,
            ),
        decreases e,
    {
        e = e - 1;
    }
    if e > from && listed(RHYTHM_MONOTONE_ENDINGS.as_slice(), text.ch(e - 1)) {
        Some(text.ch(e - 1))
    } else {
        None
    }
}

/// A run of sentences that end on one particle: where its first sentence
/// begins and ends, and how many they are.
pub ghost struct Run {
    pub particle: Option<char>,
    pub start: int,
    pub limit: int,
    pub len: nat,
}

/// The finding on a run.
pub open spec fn run_finding(t: Seq<char>, r: Run) -> Seq<IssueModel> {
    match r.particle {
        Some(c) => if_so(
            r.len >= RHYTHM_MONOTONY_RUN && r.start < r.limit,
            translationese_issue(
                t,
                r.start,
                least(r.start + 8, r.limit),
                Seq::empty(),
                Severity::Info,
                Some((PhaseFamily::RhythmMonotony, PhasePass::Indexed)),
                message("氣口：句尾單調 — 連續 "@, r.len, " 句以「"@) + seq![c]
                    + "」結尾，建議換句式"@,
            ),
        ),
        None => Seq::empty(),
    }
}

/// An excluded range lies between the sentence `k`, which is not the first, and
/// the one listed before it.
pub open spec fn cut_off(
    t: Seq<char>,
    ex: Seq<ByteRange>,
    sentences: Seq<Bound>,
    first: int,
    k: int,
) -> bool {
    k > first && span_excluded(
        t,
        ex,
        sentences[k - 1].end as int,
        sentences[k].start as int,
    )
}

/// The findings of the sentences `k..last`, the run `r` being open. The
/// sentences are those of a paragraph that begins with the sentence `first`.
pub open spec fn monotony_runs(
    t: Seq<char>,
    ex: Seq<ByteRange>,
    sentences: Seq<Bound>,
    first: int,
    k: int,
    last: int,
    r: Run,
) -> Seq<IssueModel>
    decreases last - k,
{
    if k >= last {
        run_finding(t, r)
    } else {
        let (from, to) = (sentences[k].start as int, sentences[k].end as int);
        let particle = ending_particle(t, from, to);
        if span_excluded(t, ex, from, to) {
            run_finding(t, r) + monotony_runs(
                t,
                ex,
                sentences,
                first,
                k + 1,
                last,
                Run { particle: None, len: 0, ..r },
            )
        } else if particle is Some && particle == r.particle && !cut_off(t, ex, sentences, first, k) {
            monotony_runs(t, ex, sentences, first, k + 1, last, Run { len: r.len + 1, ..r })
        } else {
            run_finding(t, r) + monotony_runs(
                t,
                ex,
                sentences,
                first,
                k + 1,
                last,
                Run {
                    particle,
                    start: skip_white(t, from, to),
                    limit: to,
                    len: if particle is Some {
                        1
                    } else {
                        0
                    },
                },
            )
        }
    }
}

pub open spec fn no_run() -> Run {
    Run { particle: None, start: 0, limit: 0, len: 0 }
}

/// The findings of a paragraph, whose sentences are `first..last`.
pub open spec fn monotony_findings(
    t: Seq<char>,
    ex: Seq<ByteRange>,
    sentences: Seq<Bound>,
    first: int,
    last: int,
) -> Seq<IssueModel> {
    monotony_runs(t, ex, sentences, first, first, last, no_run())
}

pub open spec fn monotony_rule(
    t: Seq<char>,
    ex: Seq<ByteRange>,
    sentences: Seq<Bound>,
    paragraphs: Seq<Paragraph>,
) -> spec_fn(int) -> Seq<IssueModel> {
    |k: int|
        monotony_findings(
            t,
            ex,
            sentences,
            paragraphs[k].first as int,
            paragraphs[k].last as int,
        )
}

fn particle_str(c: char) -> (r: &'static str)
    requires
        RHYTHM_MONOTONE_ENDINGS@.contains(c),
    ensures
        r@ =~= seq![c],
{
    proof {
        reveal_strlit("的");
        reveal_strlit("了");
        reveal_strlit("呢");
    }
    if c == '的' {
        "的"
    } else if c == '了' {
        "了"
    } else {
        assert(c == '呢');
        "呢"
    }
}

fn report_run(em: &mut Emitter<'_>, particle: Option<char>, from: usize, limit: usize, len: usize)
    requires
        old(em).wf(),
        particle is Some ==> RHYTHM_MONOTONE_ENDINGS@.contains(particle->0),
        limit <= old(em).chars().len(),
    ensures
        final(em).wf(),
        final(em).extends(
            old(em),
            run_finding(
                old(em).chars(),
                Run { particle, start: from as int, limit: limit as int, len: len as nat },
            ),
        ),
{
    let ghost start = *em;
    if let Some(c) = particle {
        if len >= RHYTHM_MONOTONY_RUN && from < limit {
            let to: usize = bounded(from, 8, limit);
            let head: String = message_of("氣口：句尾單調 — 連續 ", len, " 句以「");
            let context: String = head.concat(particle_str(c)).concat("」結尾，建議換句式");
            em.advise_translationese(
                from,
                to,
                Severity::Info,
                Some((PhaseFamily::RhythmMonotony, PhasePass::Indexed)),
                context,
            );
        }
    }
    assert(em.out() =~= start.out() + run_finding(
        start.chars(),
        Run { particle, start: from as int, limit: limit as int, len: len as nat },
    ));
}

/// Three or more sentences of one paragraph on end that close on the same
/// particle, with nothing excluded between them. A run is reported once, however
/// long it is.
pub fn scan_rhythm_ending_monotony(em: &mut Emitter<'_>, idx: &BoundaryIndex)
    requires
        old(em).wf(),
        idx.fits(old(em).chars().len() as int),
    ensures
        final(em).wf(),
        final(em).extends(
            old(em),
            each(
                idx.paragraphs@.len() as int,
                monotony_rule(old(em).chars(), old(em).ex(), idx.sentences@, idx.paragraphs@),
            ),
        ),
{
    let ghost start = *em;
    let ghost f = monotony_rule(em.chars(), em.ex(), idx.sentences@, idx.paragraphs@);
    let mut k: usize = 0;
    while k < idx.paragraphs.len()
        invariant
            em.wf(),
            k <= idx.paragraphs@.len(),
            idx.fits(em.chars().len() as int),
            f == monotony_rule(start.chars(), start.ex(), idx.sentences@, idx.paragraphs@),
            em.extends(&start, each(k as int, f)),
        decreases idx.paragraphs@.len() - k,
    {
        let ghost before = *em;
        let p = idx.paragraphs[k];
        let mut j: usize = p.first;
        let mut particle: Option<char> = None;
        let mut from: usize = 0;
        let mut limit: usize = 0;
        let mut len: usize = 0;
        while j < p.last
            invariant
                em.wf(),
                p.first <= j <= p.last <= idx.sentences@.len(),
                idx.fits(em.chars().len() as int),
                len <= j - p.first,
                limit <= em.chars().len(),
                particle is Some ==> RHYTHM_MONOTONE_ENDINGS@.contains(particle->0),
                em.text == before.text,
                em.excluded == before.excluded,
                em.out() + monotony_runs(
                    em.chars(),
                    em.ex(),
                    idx.sentences@,
                    p.first as int,
                    j as int,
                    p.last as int,
                    Run { particle, start: from as int, limit: limit as int, len: len as nat },
                ) =~= before.out() + monotony_findings(
                    em.chars(),
                    em.ex(),
                    idx.sentences@,
                    p.first as int,
                    p.last as int,
                ),
            decreases p.last - j,
        {
            let s = idx.sentences[j];
            if em.excluded_span(s.start, s.end) {
                report_run(em, particle, from, limit, len);
                particle = None;
                len = 0;
            } else {
                let own = rhythm_ending_particle(&em.text, s.start, s.end);
                let same: bool = match (own, particle) {
                    (Some(a), Some(b)) => a == b,
                    _ => false,
                };
                let cut: bool = j > p.first && em.excluded_span(
                    idx.sentences[j - 1].end,
                    s.start,
                );
                if same && !cut {
                    len = len + 1;
                } else {
                    report_run(em, particle, from, limit, len);
                    particle = own;
                    len = if own.is_some() {
                        1
                    } else {
                        0
                    };
                    from = past_white(&em.text, s.start, s.end);
                    limit = s.end;
                }
            }
            j = j + 1;
        }
        report_run(em, particle, from, limit, len);
        assert(em.out() =~= start.out() + (each(k as int, f) + f(k as int)));
        k = k + 1;
    }
}

/// Where a paragraph begins matters to the sentence it begins with alone, and
/// there to an open run alone.
proof fn lemma_runs_from(
    t: Seq<char>,
    ex: Seq<ByteRange>,
    sentences: Seq<Bound>,
    a: int,
    b: int,
    k: int,
    last: int,
    x: Run,
    y: Run,
)
    requires
        a <= k,
        b <= k,
        x == y && a < k && b < k || x.particle is None && y.particle is None,
    ensures
        monotony_runs(t, ex, sentences, a, k, last, x) == monotony_runs(
            t,
            ex,
            sentences,
            b,
            k,
            last,
            y,
        ),
    decreases last - k,
{
    if k < last {
        let (from, to) = (sentences[k].start as int, sentences[k].end as int);
        let particle = ending_particle(t, from, to);
        if span_excluded(t, ex, from, to) {
            lemma_runs_from(
                t,
                ex,
                sentences,
                a,
                b,
                k + 1,
                last,
                Run { particle: None, len: 0, ..x },
                Run { particle: None, len: 0, ..y },
            );
        } else if particle is Some && particle == x.particle && !cut_off(t, ex, sentences, a, k) {
            let longer = Run { len: x.len + 1, ..x };
            lemma_runs_from(t, ex, sentences, a, b, k + 1, last, longer, longer);
        } else {
            let fresh = Run {
                particle,
                start: skip_white(t, from, to),
                limit: to,
                len: if particle is Some {
                    1
                } else {
                    0
                },
            };
            lemma_runs_from(t, ex, sentences, a, b, k + 1, last, fresh, fresh);
        }
    }
}

/// An excluded sentence, or an excluded range before a sentence, parts what
/// stands on either side.
proof fn lemma_runs_part(
    t: Seq<char>,
    ex: Seq<ByteRange>,
    sentences: Seq<Bound>,
    first: int,
    j: int,
    k: int,
    last: int,
    r: Run,
)
    requires
        first <= j <= k < last,
        cut_off(t, ex, sentences, first, k) || span_excluded(
            t,
            ex,
            sentences[k].start as int,
            sentences[k].end as int,
        ),
    ensures
        monotony_runs(t, ex, sentences, first, j, last, r) == monotony_runs(
            t,
            ex,
            sentences,
            first,
            j,
            k,
            r,
        ) + monotony_findings(t, ex, sentences, k, last),
    decreases k - j,
{
    let (from, to) = (sentences[j].start as int, sentences[j].end as int);
    let particle = ending_particle(t, from, to);
    let whole = monotony_runs(t, ex, sentences, first, j, last, r);
    let rest = monotony_findings(t, ex, sentences, k, last);
    let fresh = Run {
        particle,
        start: skip_white(t, from, to),
        limit: to,
        len: if particle is Some {
            1
        } else {
            0
        },
    };
    let none = Run { particle: None, len: 0, ..r };
    if j == k {
        if span_excluded(t, ex, from, to) {
            lemma_runs_from(
                t,
                ex,
                sentences,
                first,
                k,
                k + 1,
                last,
                none,
                Run { particle: None, len: 0, ..no_run() },
            );
        } else {
            lemma_runs_from(t, ex, sentences, first, k, k + 1, last, fresh, fresh);
        }
        assert(run_finding(t, no_run()) =~= Seq::empty());
        assert(whole =~= run_finding(t, r) + rest);
    } else if span_excluded(t, ex, from, to) {
        lemma_runs_part(t, ex, sentences, first, j + 1, k, last, none);
        assert(whole =~= monotony_runs(t, ex, sentences, first, j, k, r) + rest);
    } else if particle is Some && particle == r.particle && !cut_off(t, ex, sentences, first, j) {
        lemma_runs_part(t, ex, sentences, first, j + 1, k, last, Run { len: r.len + 1, ..r });
    } else {
        lemma_runs_part(t, ex, sentences, first, j + 1, k, last, fresh);
        assert(whole =~= monotony_runs(t, ex, sentences, first, j, k, r) + rest);
    }
}

/// No finding counts sentences on both sides of an excluded range: where one
/// overlaps a sentence of a paragraph, or lies between it and the sentence
/// before, what is found is what is found before that sentence and what is found
/// from it on.
pub proof fn law_runs_stop_at_excluded_ranges(
    t: Seq<char>,
    ex: Seq<ByteRange>,
    sentences: Seq<Bound>,
    first: int,
    k: int,
    last: int,
)
    requires
        0 <= first <= k < last <= sentences.len(),
        cut_off(t, ex, sentences, first, k) || span_excluded(
            t,
            ex,
            sentences[k].start as int,
            sentences[k].end as int,
        ),
    ensures
        monotony_findings(t, ex, sentences, first, last) == monotony_findings(
            t,
            ex,
            sentences,
            first,
            k,
        ) + monotony_findings(t, ex, sentences, k, last),
        span_excluded(t, ex, sentences[k].start as int, sentences[k].end as int)
            ==> monotony_findings(t, ex, sentences, k, last) == monotony_findings(
            t,
            ex,
            sentences,
            k + 1,
            last,
        ),
{
    lemma_runs_part(t, ex, sentences, first, first, k, last, no_run());
    if span_excluded(t, ex, sentences[k].start as int, sentences[k].end as int) {
        let none = Run { particle: None, len: 0, ..no_run() };
        lemma_runs_from(t, ex, sentences, k, k + 1, k + 1, last, none, no_run());
        assert(run_finding(t, no_run()) =~= Seq::empty());
        assert(monotony_findings(t, ex, sentences, k, last) =~= monotony_findings(
            t,
            ex,
            sentences,
            k + 1,
            last,
        ));
    }
}

/// What the rhythm axis reports.
pub open spec fn rhythm_findings(
    t: Seq<char>,
    ex: Seq<ByteRange>,
    sentences: Seq<Bound>,
    paragraphs: Seq<Paragraph>,
) -> Seq<IssueModel> {
    each(sentences.len() as int, long_sentence_rule(t, ex, sentences)) + each(
        paragraphs.len() as int,
        monotony_rule(t, ex, sentences, paragraphs),
    )
}

/// The rhythm axis: long sentences, then monotony.
pub fn scan_rhythm(em: &mut Emitter<'_>, idx: &BoundaryIndex)
    requires
        old(em).wf(),
        idx.fits(old(em).chars().len() as int),
    ensures
        final(em).wf(),
        final(em).extends(
            old(em),
            rhythm_findings(old(em).chars(), old(em).ex(), idx.sentences@, idx.paragraphs@),
        ),
{
    let ghost start = *em;
    scan_rhythm_long_sentence(em, idx);
    scan_rhythm_ending_monotony(em, idx);
    assert(em.out() =~= start.out() + rhythm_findings(
        start.chars(),
        start.ex(),
        idx.sentences@,
        idx.paragraphs@,
    ));
}

} // verus!
