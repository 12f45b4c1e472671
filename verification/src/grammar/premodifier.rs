//! Stacked pre-modifiers: a long span without a comma that piles 的 phrases
//! before its noun.
use vstd::prelude::*;

use crate::bounds::{Bound, BoundaryIndex};
use crate::chars::{cjk_ideograph, is_cjk_ideograph};
use crate::emit::{message, message_of, span_excluded, translationese_issue, ByteRange, Emitter};
use crate::grammar::indexed::Domain;
use crate::grammar::rhythm::{longest_pause_free_run, longest_run, RHYTHM_MIN_FRAGMENT_CJK};
use crate::issue::{IssueModel, PhaseFamily, PhasePass, Severity};
use crate::text::{
    any_at, any_in, contains_in, count_where, lemma_find_in, listed, next_of, occurs_at, Text,
};
use crate::walk::{each, if_so};

verus! {

/// Marks that break a span.
pub const SPAN_BREAKERS: [char; 8] = ['，', '、', '。', '；', '：', ',', ';', ':'];

/// Pronouns on which no pre-modifier opens.
pub const SUBJECT_PRONOUNS: [char; 7] = ['我', '你', '他', '她', '它', '咱', '您'];

/// Verbs that open a predicate, so that what follows is no pre-modifier.
pub const PREDICATE_VERBS: [&'static str; 15] = [
    "看到",
    "看見",
    "遇到",
    "聽到",
    "找到",
    "收到",
    "發現",
    "認識",
    "帶著",
    "帶到",
    "帶來",
    "告訴",
    "看著",
    "碰到",
    "經過",
];

/// Adverbs and auxiliaries that open a predicate.
pub const PREDICATE_MARKERS: [&'static str; 10] = [
    "也",
    "就",
    "才",
    "卻",
    "便",
    "可以",
    "應該",
    "必須",
    "已經",
    "正在",
];

/// Ordinary words of two characters that hold a marker at either end.
pub const MARKER_WORDS: [&'static str; 63] = [
    "成就",
    "造就",
    "遷就",
    "將就",
    "俯就",
    "屈就",
    "就業",
    "就讀",
    "就職",
    "就緒",
    "就醫",
    "就學",
    "就寢",
    "就任",
    "就座",
    "就位",
    "就診",
    "人才",
    "天才",
    "剛才",
    "奴才",
    "庸才",
    "英才",
    "秀才",
    "方才",
    "幹才",
    "口才",
    "求才",
    "成才",
    "怪才",
    "奇才",
    "專才",
    "才華",
    "才幹",
    "才智",
    "才氣",
    "才藝",
    "方便",
    "順便",
    "簡便",
    "隨便",
    "即便",
    "輕便",
    "大便",
    "小便",
    "糞便",
    "不便",
    "以便",
    "便利",
    "便當",
    "便宜",
    "便條",
    "便捷",
    "便民",
    "便箋",
    "忘卻",
    "退卻",
    "冷卻",
    "推卻",
    "了卻",
    "拋卻",
    "卻步",
    "也許",
];

/// The marker at `p` belongs to an ordinary word of `from..to`.
pub open spec fn masked(t: Seq<char>, from: int, to: int, p: int) -> bool {
    (from <= p - 1 && any_at(t, MARKER_WORDS@, p - 1, to)) || any_at(t, MARKER_WORDS@, p, to)
}

/// The `k`-th marker ends at `c`, lies in `from..to` and is not masked.
pub open spec fn marker_closes(t: Seq<char>, from: int, to: int, k: int, c: int) -> bool {
    let p = c - PREDICATE_MARKERS@[k]@.len();
    from <= p && c <= to && occurs_at(t, PREDICATE_MARKERS@[k]@, p) && !masked(t, from, to, p)
}

/// Some marker that opens a predicate ends at `c`.
pub open spec fn closes_at(t: Seq<char>, from: int, to: int, c: int) -> bool {
    exists|k: int|
        0 <= k < PREDICATE_MARKERS@.len() && #[trigger] marker_closes(t, from, to, k, c)
}

/// First end of such a marker at or after `c`.
pub open spec fn close_from(t: Seq<char>, from: int, to: int, c: int) -> Option<int>
    decreases to - c,
{
    if c > to {
        None
    } else if closes_at(t, from, to, c) {
        Some(c)
    } else if c == to {
        None
    } else {
        close_from(t, from, to, c + 1)
    }
}

/// The smallest right edge at which the region that begins at `from` holds the
/// opening of a predicate, the words being read from the span `..to`.
pub open spec fn predicate_close(t: Seq<char>, from: int, to: int) -> Option<int> {
    close_from(t, from, to, from)
}

/// What `predicate_close` returns is the least such edge.
pub proof fn lemma_close_from(t: Seq<char>, from: int, to: int, c: int)
    ensures
        match close_from(t, from, to, c) {
            Some(e) => c <= e <= to && closes_at(t, from, to, e) && forall|x: int|
                c <= x < e ==> !#[trigger] closes_at(t, from, to, x),
            None => forall|x: int| c <= x <= to ==> !#[trigger] closes_at(t, from, to, x),
        },
    decreases to - c,
{
    if c < to && !closes_at(t, from, to, c) {
        lemma_close_from(t, from, to, c + 1);
    }
}

fn is_masked(text: &Text<'_>, from: usize, to: usize, p: usize) -> (r: bool)
    requires
        text.wf(),
        from <= p <= to <= text@.len(),
    ensures
        r == masked(text@, from as int, to as int, p as int),
{
    (p > from && text.any_at(MARKER_WORDS.as_slice(), p - 1, to)) || text.any_at(
        MARKER_WORDS.as_slice(),
        p,
        to,
    )
}

fn marker_ends_at(text: &Text<'_>, from: usize, to: usize, c: usize) -> (r: bool)
    requires
        text.wf(),
        from <= c <= to <= text@.len(),
    ensures
        r == closes_at(text@, from as int, to as int, c as int),
{
    let mut k: usize = 0;
    while k < 10
        invariant
            text.wf(),
            k <= 10,
            from <= c <= to <= text@.len(),
            forall|j: int|
                0 <= j < k ==> !#[trigger] marker_closes(
                    text@,
                    from as int,
                    to as int,
                    j,
                    c as int,
                ),
        decreases 10 - k,
    {
        let n: usize = PREDICATE_MARKERS[k].unicode_len();
        if n <= c - from && text.at(PREDICATE_MARKERS[k], c - n) && !is_masked(
            text,
            from,
            to,
            c - n,
        ) {
            assert(marker_closes(text@, from as int, to as int, k as int, c as int));
            return true;
        }
        k = k + 1;
    }
    false
}

/// The smallest right edge at which the region that begins at `from` opens a
/// predicate, if it ever does.
pub fn first_predicate_close(text: &Text<'_>, from: usize, to: usize) -> (r: Option<usize>)
    requires
        text.wf(),
        from <= to <= text@.len(),
    ensures
        match (r, predicate_close(text@, from as int, to as int)) {
            (Some(a), Some(b)) => a == b && a <= to,
            (None, None) => true,
            _ => false,
        },
{
    let mut c: usize = from;
    let n: usize = text.len();
    while c <= to
        invariant
            text.wf(),
            n == text@.len(),
            n < usize::MAX,
            from <= c <= to + 1,
            to <= n,
            close_from(text@, from as int, to as int, c as int) == predicate_close(
                text@,
                from as int,
                to as int,
            ),
        decreases to + 1 - c,
    {
        if marker_ends_at(text, from, to, c) {
            return Some(c);
        }
        c = c + 1;
    }
    None
}

/// The region `from..to`, read on its own, holds the opening of a predicate.
pub open spec fn region_opens(t: Seq<char>, from: int, to: int) -> bool {
    exists|c: int| from <= c <= to && #[trigger] closes_at(t, from, to, c)
}

/// Whether the region `from..to` holds an adverb or auxiliary that opens a
/// predicate. The direct form of what `first_predicate_close` answers.
pub fn opens_a_predicate(text: &Text<'_>, from: usize, to: usize) -> (r: bool)
    requires
        text.wf(),
        from <= to <= text@.len(),
    ensures
        r == region_opens(text@, from as int, to as int),
{
    proof {
        lemma_close_from(text@, from as int, to as int, from as int);
    }
    first_predicate_close(text, from, to).is_some()
}

proof fn lemma_marker_words_hold_no_de()
    ensures
        forall|k: int|
            0 <= k < MARKER_WORDS@.len() ==> {
                &&& (#[trigger] MARKER_WORDS@[k])@.len() == 2
                &&& MARKER_WORDS@[k]@[0] != '的'
                &&& MARKER_WORDS@[k]@[1] != '的'
            },
{
    reveal_strlit("成就");
    reveal_strlit("造就");
    reveal_strlit("遷就");
    reveal_strlit("將就");
    reveal_strlit("俯就");
    reveal_strlit("屈就");
    reveal_strlit("就業");
    reveal_strlit("就讀");
    reveal_strlit("就職");
    reveal_strlit("就緒");
    reveal_strlit("就醫");
    reveal_strlit("就學");
    reveal_strlit("就寢");
    reveal_strlit("就任");
    reveal_strlit("就座");
    reveal_strlit("就位");
    reveal_strlit("就診");
    reveal_strlit("人才");
    reveal_strlit("天才");
    reveal_strlit("剛才");
    reveal_strlit("奴才");
    reveal_strlit("庸才");
    reveal_strlit("英才");
    reveal_strlit("秀才");
    reveal_strlit("方才");
    reveal_strlit("幹才");
    reveal_strlit("口才");
    reveal_strlit("求才");
    reveal_strlit("成才");
    reveal_strlit("怪才");
    reveal_strlit("奇才");
    reveal_strlit("專才");
    reveal_strlit("才華");
    reveal_strlit("才幹");
    reveal_strlit("才智");
    reveal_strlit("才氣");
    reveal_strlit("才藝");
    reveal_strlit("方便");
    reveal_strlit("順便");
    reveal_strlit("簡便");
    reveal_strlit("隨便");
    reveal_strlit("即便");
    reveal_strlit("輕便");
    reveal_strlit("大便");
    reveal_strlit("小便");
    reveal_strlit("糞便");
    reveal_strlit("不便");
    reveal_strlit("以便");
    reveal_strlit("便利");
    reveal_strlit("便當");
    reveal_strlit("便宜");
    reveal_strlit("便條");
    reveal_strlit("便捷");
    reveal_strlit("便民");
    reveal_strlit("便箋");
    reveal_strlit("忘卻");
    reveal_strlit("退卻");
    reveal_strlit("冷卻");
    reveal_strlit("推卻");
    reveal_strlit("了卻");
    reveal_strlit("拋卻");
    reveal_strlit("卻步");
    reveal_strlit("也許");
}

proof fn lemma_word_before_de(t: Seq<char>, hi: int, to: int, i: int)
    requires
        0 <= i <= hi < to <= t.len(),
        t[hi] == '的',
    ensures
        any_at(t, MARKER_WORDS@, i, hi) == any_at(t, MARKER_WORDS@, i, to),
{
    lemma_marker_words_hold_no_de();
    if any_at(t, MARKER_WORDS@, i, to) {
        let k = choose|k: int|
            0 <= k < MARKER_WORDS@.len() && #[trigger] occurs_at(t, MARKER_WORDS@[k]@, i) && i
                + MARKER_WORDS@[k]@.len() <= to;
        let w = MARKER_WORDS@[k]@;
        assert(t.subrange(i, i + w.len())[0] == t[i]);
        assert(t.subrange(i, i + w.len())[1] == t[i + 1]);
        assert(i + 2 <= hi);
    }
}

/// For a region that ends at a 的 the two forms of the question agree: the
/// region opens a predicate exactly when the smallest such edge of the span is
/// no further than the 的.
pub proof fn law_predicate_forms_agree(t: Seq<char>, from: int, hi: int, to: int)
    requires
        0 <= from <= hi < to <= t.len(),
        t[hi] == '的',
    ensures
        region_opens(t, from, hi) <==> (predicate_close(t, from, to) matches Some(c) && c <= hi),
{
    lemma_close_from(t, from, to, from);
    assert forall|c: int| from <= c <= hi implies closes_at(t, from, hi, c) == closes_at(
        t,
        from,
        to,
        c,
    ) by {
        assert forall|k: int| 0 <= k < PREDICATE_MARKERS@.len() implies #[trigger] marker_closes(
            t,
            from,
            hi,
            k,
            c,
        ) == marker_closes(t, from, to, k, c) by {
            let p = c - PREDICATE_MARKERS@[k]@.len();
            if from <= p {
                lemma_word_before_de(t, hi, to, p);
                if from <= p - 1 {
                    lemma_word_before_de(t, hi, to, p - 1);
                }
            }
        }
        if closes_at(t, from, to, c) {
            let k = choose|k: int|
                0 <= k < PREDICATE_MARKERS@.len() && #[trigger] marker_closes(t, from, to, k, c);
            assert(marker_closes(t, from, hi, k, c));
        }
    }
}

/// What a span has to clear before it is reported.
#[derive(Clone, Copy)]
pub struct Zy5Gate {
    pub min_chars: usize,
    pub min_de: usize,
    /// What the domain asks for without the rhythm flag. A span that clears
    /// `min_de` alone is advisory.
    pub calibrated_min_de: usize,
    /// Zero is a floor that no span can fail.
    pub min_pause_free_run: usize,
}

/// A 的 that is not excluded.
pub open spec fn de_at(t: Seq<char>, ex: Seq<ByteRange>) -> spec_fn(int) -> bool {
    |i: int| t[i] == '的' && !span_excluded(t, ex, i, i + 1)
}

pub open spec fn de_count(t: Seq<char>, ex: Seq<ByteRange>, from: int, to: int) -> nat {
    count_where(from, to, de_at(t, ex))
}

/// End of the run of CJK ideographs that begins at `i`.
pub open spec fn noun_end(t: Seq<char>, i: int, to: int) -> int
    decreases to - i,
{
    if i < to && cjk_ideograph(t[i]) {
        noun_end(t, i + 1, to)
    } else {
        i
    }
}

/// First 的 of `from..to` that is not excluded, else `to`.
pub open spec fn first_de(t: Seq<char>, ex: Seq<ByteRange>, from: int, to: int) -> int
    decreases to - from,
{
    if from >= to {
        to
    } else if de_at(t, ex)(from) {
        from
    } else {
        first_de(t, ex, from + 1, to)
    }
}

/// Last 的 of `from..to` that is not excluded, else `from - 1`.
pub open spec fn last_de(t: Seq<char>, ex: Seq<ByteRange>, from: int, to: int) -> int
    decreases to - from,
{
    if to <= from {
        from - 1
    } else if de_at(t, ex)(to - 1) {
        to - 1
    } else {
        last_de(t, ex, from, to - 1)
    }
}

/// A predicate opens between the first 的 of the span `a..b` and the last 的
/// before `e`.
pub open spec fn predicate_between(t: Seq<char>, ex: Seq<ByteRange>, a: int, b: int, e: int) -> bool {
    let from = first_de(t, ex, a, b) + 1;
    let last = last_de(t, ex, a, e);
    last > from && (predicate_close(t, from, b) matches Some(c) && c <= last)
}

/// The 的 at `d` ends a pre-modifier of the span `a..b` that meets the limits.
pub open spec fn premodifier_at(
    t: Seq<char>,
    ex: Seq<ByteRange>,
    a: int,
    b: int,
    min_chars: int,
    min_de: int,
    d: int,
) -> bool {
    let e = noun_end(t, d + 1, b);
    &&& de_at(t, ex)(d)
    &&& e > d + 1
    &&& e - a >= min_chars
    &&& !any_in(t, PREDICATE_VERBS@, a, d)
    &&& de_count(t, ex, a, e) >= min_de
    &&& !predicate_between(t, ex, a, b, e)
    &&& !span_excluded(t, ex, a, e)
}

/// Furthest end among the pre-modifiers whose 的 stands before `d`.
pub open spec fn best_end(
    t: Seq<char>,
    ex: Seq<ByteRange>,
    a: int,
    b: int,
    min_chars: int,
    min_de: int,
    d: int,
) -> Option<int>
    decreases d - a,
{
    if d <= a {
        None
    } else {
        let before = best_end(t, ex, a, b, min_chars, min_de, d - 1);
        let e = noun_end(t, d, b);
        if premodifier_at(t, ex, a, b, min_chars, min_de, d - 1) && (before is None || e
            > before->0) {
            Some(e)
        } else {
            before
        }
    }
}

/// What the span `a..b` yields under the limits.
pub open spec fn span_finding(t: Seq<char>, ex: Seq<ByteRange>, a: int, b: int, gate: Zy5Gate) -> Seq<
    IssueModel,
> {
    if a >= b || SUBJECT_PRONOUNS@.contains(t[a]) {
        Seq::empty()
    } else {
        match best_end(t, ex, a, b, gate.min_chars as int, gate.min_de as int, b) {
            None => Seq::empty(),
            Some(e) => {
                let n = de_count(t, ex, a, e);
                let relaxed = n < gate.calibrated_min_de;
                if_so(
                    !(relaxed && longest_run(t, a, e) < gate.min_pause_free_run),
                    translationese_issue(
                        t,
                        a,
                        e,
                        Seq::empty(),
                        if relaxed {
                            Severity::Info
                        } else {
                            Severity::Warning
                        },
                        Some(
                            (
                                if relaxed {
                                    PhaseFamily::RhythmLongPremodifier
                                } else {
                                    PhaseFamily::LongPremodifier
                                },
                                PhasePass::Lexical,
                            ),
                        ),
                        message(
                            message("翻譯腔：定語堆疊 — "@, (e - a) as nat, " 字無逗點、含 "@),
                            n,
                            " 個「的」，建議拆成短句"@,
                        ),
                    ),
                )
            },
        }
    }
}

proof fn lemma_noun_end(t: Seq<char>, i: int, to: int)
    requires
        0 <= i <= to <= t.len(),
    ensures
        i <= noun_end(t, i, to) <= to,
        forall|j: int| i <= j < noun_end(t, i, to) ==> cjk_ideograph(#[trigger] t[j]),
        noun_end(t, i, to) < to ==> !cjk_ideograph(t[noun_end(t, i, to)]),
    decreases to - i,
{
    if i < to && cjk_ideograph(t[i]) {
        lemma_noun_end(t, i + 1, to);
    }
}

proof fn lemma_noun_end_inside(t: Seq<char>, i: int, j: int, to: int)
    requires
        0 <= i <= j <= noun_end(t, i, to),
        j <= to <= t.len(),
    ensures
        noun_end(t, j, to) == noun_end(t, i, to),
    decreases j - i,
{
    if i < j {
        lemma_noun_end_inside(t, i + 1, j, to);
    }
}

/// Of two 的 the later one's noun ends no earlier.
proof fn lemma_ends_do_not_recede(t: Seq<char>, d: int, e: int, to: int)
    requires
        0 <= d < e < to <= t.len(),
        t[e] == '的',
    ensures
        noun_end(t, d + 1, to) <= noun_end(t, e + 1, to),
{
    lemma_noun_end(t, d + 1, to);
    lemma_noun_end(t, e + 1, to);
    if noun_end(t, d + 1, to) > e {
        assert(cjk_ideograph(t[e]));
        lemma_noun_end_inside(t, d + 1, e + 1, to);
    }
}

proof fn lemma_last_de_grows(t: Seq<char>, ex: Seq<ByteRange>, from: int, e: int, f: int)
    requires
        from <= e <= f,
    ensures
        last_de(t, ex, from, e) <= last_de(t, ex, from, f),
        last_de(t, ex, from, f) < f,
    decreases f - from,
{
    if f > from {
        if e < f {
            lemma_last_de_grows(t, ex, from, e, f - 1);
        } else {
            lemma_last_de_grows(t, ex, from, from, f - 1);
        }
        if from < f && e < f {
            lemma_last_de_bound(t, ex, from, e);
        }
    }
}

proof fn lemma_last_de_bound(t: Seq<char>, ex: Seq<ByteRange>, from: int, e: int)
    requires
        from <= e,
    ensures
        last_de(t, ex, from, e) < e,
        from - 1 <= last_de(t, ex, from, e),
    decreases e - from,
{
    if e > from {
        lemma_last_de_bound(t, ex, from, e - 1);
    }
}

proof fn lemma_verbs_stay(t: Seq<char>, a: int, d: int, e: int)
    requires
        0 <= a <= d <= e <= t.len(),
        any_in(t, PREDICATE_VERBS@, a, d),
    ensures
        any_in(t, PREDICATE_VERBS@, a, e),
{
    let k = choose|k: int|
        0 <= k < PREDICATE_VERBS@.len() && #[trigger] contains_in(t, PREDICATE_VERBS@[k]@, a, d);
    lemma_find_in(t, PREDICATE_VERBS@[k]@, a, d);
    lemma_find_in(t, PREDICATE_VERBS@[k]@, a, e);
    assert(contains_in(t, PREDICATE_VERBS@[k]@, a, e));
}

/// Where no later 的 qualifies, the best end stays.
proof fn lemma_best_end_stays(
    t: Seq<char>,
    ex: Seq<ByteRange>,
    a: int,
    b: int,
    min_chars: int,
    min_de: int,
    d: int,
    e: int,
)
    requires
        a <= d <= e,
        forall|x: int|
            d <= x < e ==> !#[trigger] premodifier_at(t, ex, a, b, min_chars, min_de, x),
    ensures
        best_end(t, ex, a, b, min_chars, min_de, e) == best_end(
            t,
            ex,
            a,
            b,
            min_chars,
            min_de,
            d,
        ),
    decreases e - d,
{
    if d < e {
        lemma_best_end_stays(t, ex, a, b, min_chars, min_de, d, e - 1);
        assert(!premodifier_at(t, ex, a, b, min_chars, min_de, e - 1));
    }
}

/// Nothing reaches past the end of the span.
proof fn lemma_best_end_full(
    t: Seq<char>,
    ex: Seq<ByteRange>,
    a: int,
    b: int,
    min_chars: int,
    min_de: int,
    d: int,
    e: int,
)
    requires
        0 <= a <= d <= e <= b <= t.len(),
        best_end(t, ex, a, b, min_chars, min_de, d) == Some(b),
    ensures
        best_end(t, ex, a, b, min_chars, min_de, e) == Some(b),
    decreases e - d,
{
    if d < e {
        lemma_best_end_full(t, ex, a, b, min_chars, min_de, d, e - 1);
        lemma_noun_end(t, e, b);
    }
}

fn noun_run_end(text: &Text<'_>, i: usize, to: usize) -> (r: usize)
    requires
        text.wf(),
        i <= to <= text@.len(),
    ensures
        r == noun_end(text@, i as int, to as int),
        i <= r <= to,
{
    let mut e: usize = i;
    while e < to && is_cjk_ideograph(text.ch(e))
        invariant
            text.wf(),
            i <= e <= to <= text@.len(),
            noun_end(text@, e as int, to as int) == noun_end(text@, i as int, to as int),
        decreases to - e,
    {
        e = e + 1;
    }
    e
}

fn count_de(em: &Emitter<'_>, from: usize, to: usize) -> (r: (usize, usize))
    requires
        em.wf(),
        from <= to <= em.chars().len(),
    ensures
        r.0 == de_count(em.chars(), em.ex(), from as int, to as int),
        r.0 > 0 ==> r.1 == last_de(em.chars(), em.ex(), from as int, to as int),
{
    let ghost f = de_at(em.chars(), em.ex());
    let mut i: usize = from;
    let mut n: usize = 0;
    let mut last: usize = 0;
    while i < to
        invariant
            em.wf(),
            from <= i <= to <= em.chars().len(),
            f == de_at(em.chars(), em.ex()),
            n == de_count(em.chars(), em.ex(), from as int, i as int),
            n <= i - from,
            n > 0 ==> last == last_de(em.chars(), em.ex(), from as int, i as int),
        decreases to - i,
    {
        if em.text.ch(i) == '的' && !em.excluded_span(i, i + 1) {
            assert(f(i as int));
            n = n + 1;
            last = i;
        } else {
            assert(!f(i as int));
        }
        i = i + 1;
    }
    (n, last)
}

/// The furthest end of a pre-modifier of the span `a..b`. The walk stops as
/// soon as no later 的 can reach further.
fn find_premodifier(em: &Emitter<'_>, a: usize, b: usize, gate: Zy5Gate) -> (r: Option<usize>)
    requires
        em.wf(),
        a <= b <= em.chars().len(),
    ensures
        match (
            r,
            best_end(
                em.chars(),
                em.ex(),
                a as int,
                b as int,
                gate.min_chars as int,
                gate.min_de as int,
                b as int,
            ),
        ) {
            (Some(x), Some(y)) => x == y && a < x <= b,
            (None, None) => true,
            _ => false,
        },
{
    let ghost t = em.chars();
    let ghost ex = em.ex();
    let ghost mc = gate.min_chars as int;
    let ghost md = gate.min_de as int;
    let mut best: Option<usize> = None;
    let mut first: Option<usize> = None;
    let mut close: Option<usize> = None;
    let mut d: usize = a;
    while d < b
        invariant
            em.wf(),
            t == em.chars(),
            ex == em.ex(),
            mc == gate.min_chars as int,
            md == gate.min_de as int,
            a <= d <= b <= t.len(),
            match first {
                Some(x) => a <= x < d && x == first_de(t, ex, a as int, b as int) && match (
                    close,
                    predicate_close(t, x + 1, b as int),
                ) {
                    (Some(p), Some(q)) => p == q,
                    (None, None) => true,
                    _ => false,
                },
                None => first_de(t, ex, a as int, b as int) == first_de(
                    t,
                    ex,
                    d as int,
                    b as int,
                ),
            },
            match (best, best_end(t, ex, a as int, b as int, mc, md, d as int)) {
                (Some(x), Some(y)) => x == y && a < x <= b,
                (None, None) => true,
                _ => false,
            },
        decreases b - d,
    {
        let de: bool = em.text.ch(d) == '的' && !em.excluded_span(d, d + 1);
        assert(de == de_at(t, ex)(d as int));
        if de {
            if first.is_none() {
                first = Some(d);
                close = first_predicate_close(&em.text, d + 1, b);
            }
            let e: usize = noun_run_end(&em.text, d + 1, b);
            if e > d + 1 && e - a >= gate.min_chars {
                if em.text.any_in(PREDICATE_VERBS.as_slice(), a, d) {
                    proof {
                        assert forall|x: int| d <= x < b implies !#[trigger] premodifier_at(
                            t,
                            ex,
                            a as int,
                            b as int,
                            mc,
                            md,
                            x,
                        ) by {
                            lemma_verbs_stay(t, a as int, d as int, x);
                        }
                        lemma_best_end_stays(
                            t,
                            ex,
                            a as int,
                            b as int,
                            mc,
                            md,
                            d as int,
                            b as int,
                        );
                    }
                    return best;
                }
                let (n, last) = count_de(em, a, e);
                proof {
                    lemma_has_de(t, ex, a as int, d as int, e as int);
                }
                let from: usize = match first {
                    Some(x) => x + 1,
                    None => d + 1,
                };
                let opens: bool = last > from && match close {
                    Some(c) => c <= last,
                    None => false,
                };
                assert(opens == predicate_between(t, ex, a as int, b as int, e as int));
                if opens {
                    proof {
                        assert forall|x: int| d <= x < b implies !#[trigger] premodifier_at(
                            t,
                            ex,
                            a as int,
                            b as int,
                            mc,
                            md,
                            x,
                        ) by {
                            if x > d && de_at(t, ex)(x) {
                                lemma_ends_do_not_recede(t, d as int, x, b as int);
                                lemma_last_de_grows(
                                    t,
                                    ex,
                                    a as int,
                                    e as int,
                                    noun_end(t, x + 1, b as int),
                                );
                            }
                        }
                        lemma_best_end_stays(
                            t,
                            ex,
                            a as int,
                            b as int,
                            mc,
                            md,
                            d as int,
                            b as int,
                        );
                    }
                    return best;
                }
                if n >= gate.min_de && !em.excluded_span(a, e) {
                    assert(premodifier_at(t, ex, a as int, b as int, mc, md, d as int));
                    let further: bool = match best {
                        Some(x) => e > x,
                        None => true,
                    };
                    if further {
                        best = Some(e);
                    }
                    if e == b {
                        proof {
                            lemma_noun_end(t, d + 1, b as int);
                            assert(best_end(
                                t,
                                ex,
                                a as int,
                                b as int,
                                mc,
                                md,
                                d + 1,
                            ) == Some(b as int));
                            lemma_best_end_full(
                                t,
                                ex,
                                a as int,
                                b as int,
                                mc,
                                md,
                                d + 1,
                                b as int,
                            );
                        }
                        return best;
                    }
                }
            }
        }
        d = d + 1;
    }
    best
}

proof fn lemma_has_de(t: Seq<char>, ex: Seq<ByteRange>, a: int, d: int, e: int)
    requires
        a <= d < e,
        de_at(t, ex)(d),
    ensures
        de_count(t, ex, a, e) > 0,
    decreases e - d,
{
    if d < e - 1 {
        lemma_has_de(t, ex, a, d, e - 1);
    }
}

/// Reports the furthest pre-modifier of the span `a..b`, if any clears the
/// gate.
pub fn emit_zy5_span_if_qualifies(em: &mut Emitter<'_>, a: usize, b: usize, gate: Zy5Gate)
    requires
        old(em).wf(),
        a <= b <= old(em).chars().len(),
    ensures
        final(em).wf(),
        final(em).extends(
            old(em),
            span_finding(old(em).chars(), old(em).ex(), a as int, b as int, gate),
        ),
{
    let ghost start = *em;
    if a < b && !listed(SUBJECT_PRONOUNS.as_slice(), em.text.ch(a)) {
        if let Some(e) = find_premodifier(em, a, b, gate) {
            let (n, _last) = count_de(em, a, e);
            let relaxed: bool = n < gate.calibrated_min_de;
            if !(relaxed && longest_pause_free_run(&em.text, a, e) < gate.min_pause_free_run) {
                let head: String = message_of("翻譯腔：定語堆疊 — ", e - a, " 字無逗點、含 ");
                let context: String = message_of(
                    head.as_str(),
                    n,
                    " 個「的」，建議拆成短句",
                );
                if relaxed {
                    em.advise_translationese(
                        a,
                        e,
                        Severity::Info,
                        Some((PhaseFamily::RhythmLongPremodifier, PhasePass::Lexical)),
                        context,
                    );
                } else {
                    em.advise_translationese(
                        a,
                        e,
                        Severity::Warning,
                        Some((PhaseFamily::LongPremodifier, PhasePass::Lexical)),
                        context,
                    );
                }
            }
        }
    }
    assert(em.out() =~= start.out() + span_finding(
        start.chars(),
        start.ex(),
        a as int,
        b as int,
        gate,
    ));
}

/// The spans of `from..to`, one after another.
pub open spec fn span_findings(
    t: Seq<char>,
    ex: Seq<ByteRange>,
    from: int,
    to: int,
    gate: Zy5Gate,
) -> Seq<IssueModel>
    decreases to - from,
{
    let end = next_of(t, SPAN_BREAKERS@, from, to);
    if from <= end < to {
        span_finding(t, ex, from, end, gate) + span_findings(t, ex, end + 1, to, gate)
    } else {
        span_finding(t, ex, from, to, gate)
    }
}

/// The limits of a domain, with or without the rhythm flag.
pub open spec fn gate_of(domain: Domain, rhythm: bool) -> Zy5Gate {
    Zy5Gate {
        min_chars: domain.premodifier_chars,
        min_de: if rhythm {
            1
        } else {
            domain.premodifier_de
        },
        calibrated_min_de: domain.premodifier_de,
        min_pause_free_run: if rhythm {
            RHYTHM_MIN_FRAGMENT_CJK
        } else {
            0
        },
    }
}

pub open spec fn premodifier_rule(
    t: Seq<char>,
    ex: Seq<ByteRange>,
    sentences: Seq<Bound>,
    gate: Zy5Gate,
) -> spec_fn(int) -> Seq<IssueModel> {
    |k: int| span_findings(t, ex, sentences[k].start as int, sentences[k].end as int, gate)
}

fn scan_spans(em: &mut Emitter<'_>, lo: usize, to: usize, gate: Zy5Gate)
    requires
        old(em).wf(),
        lo <= to <= old(em).chars().len(),
    ensures
        final(em).wf(),
        final(em).extends(
            old(em),
            span_findings(old(em).chars(), old(em).ex(), lo as int, to as int, gate),
        ),
{
    let ghost start = *em;
    let mut from: usize = lo;
    let mut end: usize = em.text.next(SPAN_BREAKERS.as_slice(), from, to);
    while end < to
        invariant
            em.wf(),
            lo <= from <= end <= to <= em.chars().len(),
            end == next_of(em.chars(), SPAN_BREAKERS@, from as int, to as int),
            em.text == start.text,
            em.excluded == start.excluded,
            em.out() + span_findings(em.chars(), em.ex(), from as int, to as int, gate)
                =~= start.out() + span_findings(em.chars(), em.ex(), lo as int, to as int, gate),
        decreases to - from,
    {
        emit_zy5_span_if_qualifies(em, from, end, gate);
        from = end + 1;
        end = em.text.next(SPAN_BREAKERS.as_slice(), from, to);
    }
    emit_zy5_span_if_qualifies(em, from, to, gate);
}

/// Long pre-modifiers. With the rhythm flag one 的 is enough, and what that
/// lets through is advisory and must not pause.
pub fn scan_zy5_long_premodifier(
    em: &mut Emitter<'_>,
    idx: &BoundaryIndex,
    domain: Domain,
    rhythm: bool,
)
    requires
        old(em).wf(),
        idx.fits(old(em).chars().len() as int),
    ensures
        final(em).wf(),
        final(em).extends(
            old(em),
            each(
                idx.sentences@.len() as int,
                premodifier_rule(
                    old(em).chars(),
                    old(em).ex(),
                    idx.sentences@,
                    gate_of(domain, rhythm),
                ),
            ),
        ),
{
    let ghost start = *em;
    let gate = if rhythm {
        Zy5Gate {
            min_chars: domain.premodifier_chars,
            min_de: 1,
            calibrated_min_de: domain.premodifier_de,
            min_pause_free_run: RHYTHM_MIN_FRAGMENT_CJK,
        }
    } else {
        Zy5Gate {
            min_chars: domain.premodifier_chars,
            min_de: domain.premodifier_de,
            calibrated_min_de: domain.premodifier_de,
            min_pause_free_run: 0,
        }
    };
    let ghost f = premodifier_rule(em.chars(), em.ex(), idx.sentences@, gate);
    let mut k: usize = 0;
    while k < idx.sentences.len()
        invariant
            em.wf(),
            k <= idx.sentences@.len(),
            idx.fits(em.chars().len() as int),
            f == premodifier_rule(start.chars(), start.ex(), idx.sentences@, gate),
            em.extends(&start, each(k as int, f)),
        decreases idx.sentences@.len() - k,
    {
        let s = idx.sentences[k];
        scan_spans(em, s.start, s.end, gate);
        assert(em.out() =~= start.out() + (each(k as int, f) + f(k as int)));
        k = k + 1;
    }
}

/// `best_end` is the furthest end among the pre-modifiers before `d`.
pub proof fn lemma_best_end(
    t: Seq<char>,
    ex: Seq<ByteRange>,
    a: int,
    b: int,
    min_chars: int,
    min_de: int,
    d: int,
)
    ensures
        match best_end(t, ex, a, b, min_chars, min_de, d) {
            Some(e) => (exists|x: int|
                a <= x < d && #[trigger] premodifier_at(t, ex, a, b, min_chars, min_de, x)
                    && noun_end(t, x + 1, b) == e) && (forall|x: int|
                a <= x < d && #[trigger] premodifier_at(t, ex, a, b, min_chars, min_de, x)
                    ==> noun_end(t, x + 1, b) <= e),
            None => forall|x: int|
                a <= x < d ==> !#[trigger] premodifier_at(t, ex, a, b, min_chars, min_de, x),
        },
    decreases d - a,
{
    if d > a {
        lemma_best_end(t, ex, a, b, min_chars, min_de, d - 1);
        if premodifier_at(t, ex, a, b, min_chars, min_de, d - 1) {
            assert(noun_end(t, (d - 1) + 1, b) == noun_end(t, d, b));
        }
    }
}

proof fn lemma_de_count_grows(t: Seq<char>, ex: Seq<ByteRange>, from: int, e: int, f: int)
    requires
        e <= f,
    ensures
        de_count(t, ex, from, e) <= de_count(t, ex, from, f),
    decreases f - e,
{
    if e < f {
        lemma_de_count_grows(t, ex, from, e, f - 1);
    }
}

/// The rhythm flag takes no finding away: what the calibrated gate reports of
/// a span, the relaxed gate reports in the same words.
pub proof fn law_rhythm_keeps_calibrated(
    t: Seq<char>,
    ex: Seq<ByteRange>,
    a: int,
    b: int,
    domain: Domain,
)
    requires
        0 <= a <= b <= t.len(),
    ensures
        span_finding(t, ex, a, b, gate_of(domain, false)).len() > 0 ==> span_finding(
            t,
            ex,
            a,
            b,
            gate_of(domain, true),
        ) == span_finding(t, ex, a, b, gate_of(domain, false)),
{
    let mc = domain.premodifier_chars as int;
    let md = domain.premodifier_de as int;
    if span_finding(t, ex, a, b, gate_of(domain, false)).len() > 0 {
        lemma_best_end(t, ex, a, b, mc, md, b);
        lemma_best_end(t, ex, a, b, mc, 1, b);
        let e0 = best_end(t, ex, a, b, mc, md, b)->0;
        let x0 = choose|x: int|
            a <= x < b && #[trigger] premodifier_at(t, ex, a, b, mc, md, x) && noun_end(
                t,
                x + 1,
                b,
            ) == e0;
        lemma_noun_end(t, x0 + 1, b);
        lemma_has_de(t, ex, a, x0, e0);
        assert(premodifier_at(t, ex, a, b, mc, 1, x0));
        let e1 = best_end(t, ex, a, b, mc, 1, b)->0;
        let x1 = choose|x: int|
            a <= x < b && #[trigger] premodifier_at(t, ex, a, b, mc, 1, x) && noun_end(
                t,
                x + 1,
                b,
            ) == e1;
        lemma_de_count_grows(t, ex, a, e0, e1);
        assert(premodifier_at(t, ex, a, b, mc, md, x1));
        assert(e0 == e1);
    }
}

} // verus!
