//! Phrases of machine-written prose.
use vstd::prelude::*;
use vstd::string::*;

use crate::chars::{ascii_digit, is_ascii_digit, SENTENCE_ENDS, TERMINALS};
use crate::emit::{
    ai_issue, any_hit, hits, joined, message, message_of, span_excluded, ByteRange, Emitter,
};
use crate::grammar::indexed::{one_decimal, round_to_even, rounded, tenths_of};
use crate::issue::{strings, IssueModel, Severity};
use crate::text::{
    after_last, any_in, bounded, byte_pos, ceil_pos, find_in, floor_pos, least, next_of, rfind_in,
    Text,
};
use crate::walk::{each, if_so, walk};

verus! {

/// Clues of the definition sense of 意味著.
pub const YIWEIZHE_DEFINITION_CLUES: [&'static str; 7] = [
    "定義",
    "是指",
    "就是",
    "亦即",
    "所謂",
    "稱為",
    "指的是",
];

/// Clues of its consequence sense.
pub const YIWEIZHE_CONSEQUENCE_CLUES: [&'static str; 9] = [
    "因此",
    "所以",
    "結果",
    "導致",
    "造成",
    "如果",
    "一旦",
    "將會",
    "可能",
];

/// Clues of its explanation sense.
pub const YIWEIZHE_EXPLANATION_CLUES: [&'static str; 5] = [
    "換言之",
    "換句話說",
    "簡單來說",
    "簡言之",
    "具體來說",
];

/// What to write for 意味著 in the sentence `from..to`: by definition clues
/// first, then consequence, then explanation. A clue inside an excluded range
/// chooses nothing.
pub open spec fn yiweizhe_sense(t: Seq<char>, ex: Seq<ByteRange>, from: int, to: int) -> Seq<
    Seq<char>,
> {
    if any_hit(t, ex, YIWEIZHE_DEFINITION_CLUES@, from, to) {
        seq!["表示"@]
    } else if any_hit(t, ex, YIWEIZHE_CONSEQUENCE_CLUES@, from, to) {
        seq!["代表"@]
    } else if any_hit(t, ex, YIWEIZHE_EXPLANATION_CLUES@, from, to) {
        seq!["也就是說"@]
    } else {
        Seq::empty()
    }
}

pub open spec fn yiweizhe_step(t: Seq<char>, ex: Seq<ByteRange>) -> spec_fn(int) -> (
    int,
    Seq<IssueModel>,
) {
    |p: int|
        (
            p + 3,
            if_so(
                !span_excluded(t, ex, p, p + 3),
                ai_issue(
                    t,
                    p,
                    p + 3,
                    yiweizhe_sense(
                        t,
                        ex,
                        after_last(t, SENTENCE_ENDS@, p),
                        next_of(t, SENTENCE_ENDS@, p + 3, t.len() as int),
                    ),
                    Severity::Info,
                    None,
                    "AI semantic safety word; native zh-TW prefers context-specific alternatives (表示/代表/也就是說)"@,
                ),
            ),
        )
}

proof fn lemma_clues_nonempty()
    ensures
        forall|j: int| 0 <= j < 7 ==> (#[trigger] YIWEIZHE_DEFINITION_CLUES@[j])@.len() >= 1,
        forall|j: int| 0 <= j < 9 ==> (#[trigger] YIWEIZHE_CONSEQUENCE_CLUES@[j])@.len() >= 1,
        forall|j: int| 0 <= j < 5 ==> (#[trigger] YIWEIZHE_EXPLANATION_CLUES@[j])@.len() >= 1,
{
    reveal_strlit("定義");
    reveal_strlit("是指");
    reveal_strlit("就是");
    reveal_strlit("亦即");
    reveal_strlit("所謂");
    reveal_strlit("稱為");
    reveal_strlit("指的是");
    reveal_strlit("因此");
    reveal_strlit("所以");
    reveal_strlit("結果");
    reveal_strlit("導致");
    reveal_strlit("造成");
    reveal_strlit("如果");
    reveal_strlit("一旦");
    reveal_strlit("將會");
    reveal_strlit("可能");
    reveal_strlit("換言之");
    reveal_strlit("換句話說");
    reveal_strlit("簡單來說");
    reveal_strlit("簡言之");
    reveal_strlit("具體來說");
}

fn one(s: &str) -> (r: Vec<String>)
    ensures
        strings(r@) == seq![s@],
{
    let mut r: Vec<String> = Vec::new();
    r.push(s.to_owned());
    assert(strings(r@) =~= seq![s@]);
    r
}

fn choose_yiweizhe(em: &Emitter<'_>, from: usize, to: usize) -> (r: Vec<String>)
    requires
        em.wf(),
        from <= to <= em.chars().len(),
    ensures
        strings(r@) == yiweizhe_sense(em.chars(), em.ex(), from as int, to as int),
{
    proof {
        lemma_clues_nonempty();
    }
    if em.any_hit(YIWEIZHE_DEFINITION_CLUES.as_slice(), from, to) {
        one("表示")
    } else if em.any_hit(YIWEIZHE_CONSEQUENCE_CLUES.as_slice(), from, to) {
        one("代表")
    } else if em.any_hit(YIWEIZHE_EXPLANATION_CLUES.as_slice(), from, to) {
        one("也就是說")
    } else {
        let r: Vec<String> = Vec::new();
        assert(strings(r@) =~= Seq::empty());
        r
    }
}

/// 意味著, with the word that its sentence calls for. Where the sentence gives
/// no clue, the finding is advisory.
pub fn scan_ai_semantic_safety(em: &mut Emitter<'_>)
    requires
        old(em).wf(),
    ensures
        final(em).wf(),
        final(em).extends(
            old(em),
            walk(
                old(em).chars(),
                "意味著"@,
                0,
                old(em).chars().len() as int,
                yiweizhe_step(old(em).chars(), old(em).ex()),
            ),
        ),
{
    let ghost start = *em;
    let ghost step = yiweizhe_step(em.chars(), em.ex());
    proof {
        reveal_strlit("意味著");
    }
    let n: usize = em.text.len();
    let mut from: usize = 0;
    let mut more: bool = true;
    while more
        invariant
            em.wf(),
            from <= n,
            n == em.chars().len(),
            "意味著"@.len() == 3,
            em.text == start.text,
            em.excluded == start.excluded,
            step == yiweizhe_step(start.chars(), start.ex()),
            em.out() + (if more {
                walk(em.chars(), "意味著"@, from as int, n as int, step)
            } else {
                Seq::empty()
            }) =~= start.out() + walk(em.chars(), "意味著"@, 0, n as int, step),
        decreases
                n - from + (if more {
                    1int
                } else {
                    0int
                }),
    {
        match em.text.find("意味著", from, n) {
            Some(p) => {
                let ghost mid = *em;
                if !em.excluded_span(p, p + 3) {
                    let lo: usize = em.text.past_last(SENTENCE_ENDS.as_slice(), p);
                    let hi: usize = em.text.next(SENTENCE_ENDS.as_slice(), p + 3, n);
                    let fix = choose_yiweizhe(em, lo, hi);
                    em.report_ai(
                        p,
                        p + 3,
                        fix,
                        Severity::Info,
                        None,
                        "AI semantic safety word; native zh-TW prefers context-specific alternatives (表示/代表/也就是說)".to_owned(),
                    );
                }
                assert(em.out() =~= mid.out() + step(p as int).1);
                from = p + 3;
            },
            None => {
                more = false;
            },
        }
    }
}

/// Inflated copulas and the plain word for each.
pub const COPULA_AVOIDANCE_PATTERNS: [(&'static str, &'static str); 5] = [
    ("作為", "是"),
    ("標誌著", "是"),
    ("充當", "是"),
    ("擁有", "有"),
    ("設有", "有"),
];

/// Words that mark technical prose.
pub const COPULA_TECH_CONTEXT: [&'static str; 10] = [
    "系統",
    "程式",
    "函式",
    "API",
    "介面",
    "模組",
    "元件",
    "架構",
    "伺服器",
    "資料庫",
];

/// The form at `p..end` is part of a longer word: 有所作為, 大作為, or 擁有 with
/// 權, 者, 感 or 量 after it.
pub open spec fn copula_compound(t: Seq<char>, p: int, end: int) -> bool {
    ||| t[p] == '作' && p > 0 && (t[p - 1] == '所' || t[p - 1] == '大')
    ||| t[p] == '擁' && end < t.len() && (t[end] == '權' || t[end] == '者' || t[end] == '感'
        || t[end] == '量')
}

pub fn is_copula_compound(text: &Text<'_>, p: usize, end: usize) -> (r: bool)
    requires
        text.wf(),
        p < end <= text@.len(),
    ensures
        r == copula_compound(text@, p as int, end as int),
{
    let n: usize = text.len();
    if text.ch(p) == '作' && p > 0 && (text.ch(p - 1) == '所' || text.ch(p - 1) == '大') {
        return true;
    }
    text.ch(p) == '擁' && end < n && (text.ch(end) == '權' || text.ch(end) == '者' || text.ch(
        end,
    ) == '感' || text.ch(end) == '量')
}

/// The copula at `p`, where a word of technical prose stands within eighty
/// bytes of it.
pub open spec fn copula_step(
    t: Seq<char>,
    ex: Seq<ByteRange>,
    entry: (&'static str, &'static str),
) -> spec_fn(int) -> (int, Seq<IssueModel>) {
    |p: int|
        {
            let end = p + entry.0@.len();
            let from = floor_pos(t, byte_pos(t, p) - 80);
            let to = ceil_pos(t, byte_pos(t, end) + 80);
            (
                end,
                if_so(
                    !span_excluded(t, ex, p, end) && !copula_compound(t, p, end) && any_in(
                        t,
                        COPULA_TECH_CONTEXT@,
                        from,
                        to,
                    ),
                    ai_issue(
                        t,
                        p,
                        end,
                        Seq::empty(),
                        Severity::Info,
                        None,
                        ("AI copula avoidance: consider restructuring with '"@ + entry.1@
                            + "' instead of '"@) + entry.0@ + "'"@,
                    ),
                ),
            )
        }
}

pub open spec fn copula_avoidance_rule(t: Seq<char>, ex: Seq<ByteRange>) -> spec_fn(int) -> Seq<
    IssueModel,
> {
    |k: int|
        walk(
            t,
            COPULA_AVOIDANCE_PATTERNS@[k].0@,
            0,
            t.len() as int,
            copula_step(t, ex, COPULA_AVOIDANCE_PATTERNS@[k]),
        )
}

proof fn lemma_floor_below_zero(t: Seq<char>, b: int, i: int)
    requires
        b <= 0,
        0 <= i <= t.len(),
    ensures
        floor_from_is_zero(t, b, i),
    decreases i,
{
    if i > 0 {
        lemma_floor_below_zero(t, b, i - 1);
        crate::text::lemma_byte_pos_monotone(t, 0, i);
    }
}

spec fn floor_from_is_zero(t: Seq<char>, b: int, i: int) -> bool {
    crate::text::floor_from(t, b, i) == 0
}

/// Position at most `n` bytes before `p`.
pub fn bytes_before(text: &Text<'_>, p: usize, n: usize) -> (r: usize)
    requires
        text.wf(),
        p <= text@.len(),
    ensures
        r == floor_pos(text@, byte_pos(text@, p as int) - n),
        r <= p,
{
    let b: usize = text.byte(p);
    let r: usize = if b >= n {
        text.floor(b - n)
    } else {
        proof {
            lemma_floor_below_zero(text@, b - n, text@.len() as int);
        }
        0
    };
    proof {
        if r > p {
            crate::text::lemma_byte_pos_monotone(text@, p as int, r as int);
        }
    }
    r
}

proof fn lemma_ceil_past_end(t: Seq<char>, b: int, i: int)
    requires
        0 <= i <= t.len(),
        b >= byte_pos(t, t.len() as int),
    ensures
        crate::text::ceil_from(t, b, i) == t.len(),
    decreases t.len() - i,
{
    if i < t.len() {
        crate::text::lemma_byte_pos_monotone(t, i, t.len() as int);
        lemma_ceil_past_end(t, b, i + 1);
    }
}

proof fn lemma_ceil_bound(t: Seq<char>, b: int, i: int, p: int)
    requires
        0 <= i <= t.len(),
        0 <= p <= t.len(),
        b >= byte_pos(t, p),
    ensures
        crate::text::ceil_from(t, b, i) >= p || i > p,
        crate::text::ceil_from(t, b, i) >= i,
    decreases t.len() - i,
{
    if i < t.len() && byte_pos(t, i) < b {
        lemma_ceil_bound(t, b, i + 1, p);
    } else if i < t.len() && i < p {
        crate::text::lemma_byte_pos_monotone(t, i, p);
    }
}

/// Position at least `n` bytes after `p`, or the end.
pub fn bytes_after(text: &Text<'_>, p: usize, n: usize) -> (r: usize)
    requires
        text.wf(),
        p <= text@.len(),
    ensures
        r == ceil_pos(text@, byte_pos(text@, p as int) + n),
        p <= r <= text@.len(),
{
    let b: usize = text.byte(p);
    let len: usize = text.len();
    let all: usize = text.byte(len);
    proof {
        crate::text::lemma_byte_pos_monotone(text@, p as int, len as int);
        lemma_ceil_bound(text@, byte_pos(text@, p as int) + n, 0, p as int);
    }
    if n <= all - b {
        text.ceil(b + n)
    } else {
        proof {
            lemma_ceil_past_end(text@, byte_pos(text@, p as int) + n, 0);
        }
        len
    }
}

fn report_copula(em: &mut Emitter<'_>, p: usize, entry: (&'static str, &'static str))
    requires
        old(em).wf(),
        p + entry.0@.len() <= old(em).chars().len(),
        entry.0@.len() >= 1,
    ensures
        final(em).wf(),
        final(em).extends(
            old(em),
            copula_step(old(em).chars(), old(em).ex(), entry)(p as int).1,
        ),
{
    let ghost start = *em;
    let ghost step = copula_step(em.chars(), em.ex(), entry);
    let _len: usize = em.text.len();
    let end: usize = p + entry.0.unicode_len();
    if !em.excluded_span(p, end) && !is_copula_compound(&em.text, p, end) {
        let from: usize = bytes_before(&em.text, p, 80);
        let to: usize = bytes_after(&em.text, end, 80);
        if em.text.any_in(COPULA_TECH_CONTEXT.as_slice(), from, to) {
            let head: String = joined(
                "AI copula avoidance: consider restructuring with '",
                entry.1,
                "' instead of '",
            );
            let context: String = joined(head.as_str(), entry.0, "'");
            em.advise_ai(p, end, Severity::Info, None, context);
        }
    }
    assert(em.out() =~= start.out() + step(p as int).1);
}

proof fn lemma_copulas_nonempty()
    ensures
        forall|j: int| 0 <= j < 5 ==> (#[trigger] COPULA_AVOIDANCE_PATTERNS@[j]).0@.len() >= 1,
{
    reveal_strlit("作為");
    reveal_strlit("標誌著");
    reveal_strlit("充當");
    reveal_strlit("擁有");
    reveal_strlit("設有");
}

/// Inflated copulas in technical prose.
pub fn scan_ai_copula_avoidance(em: &mut Emitter<'_>)
    requires
        old(em).wf(),
    ensures
        final(em).wf(),
        final(em).extends(
            old(em),
            each(
                COPULA_AVOIDANCE_PATTERNS@.len() as int,
                copula_avoidance_rule(old(em).chars(), old(em).ex()),
            ),
        ),
{
    let ghost start = *em;
    let ghost f = copula_avoidance_rule(em.chars(), em.ex());
    proof {
        lemma_copulas_nonempty();
    }
    let n: usize = em.text.len();
    let mut k: usize = 0;
    while k < 5
        invariant
            em.wf(),
            k <= 5,
            n == em.chars().len(),
            forall|j: int|
                0 <= j < 5 ==> (#[trigger] COPULA_AVOIDANCE_PATTERNS@[j]).0@.len() >= 1,
            f == copula_avoidance_rule(start.chars(), start.ex()),
            em.extends(&start, each(k as int, f)),
        decreases 5 - k,
    {
        let ghost before = *em;
        let entry = COPULA_AVOIDANCE_PATTERNS[k];
        let ghost step = copula_step(em.chars(), em.ex(), entry);
        let mut from: usize = 0;
        let mut more: bool = true;
        while more
            invariant
                em.wf(),
                from <= n,
                n == em.chars().len(),
                entry.0@.len() >= 1,
                em.text == before.text,
                em.excluded == before.excluded,
                step == copula_step(before.chars(), before.ex(), entry),
                em.out() + (if more {
                    walk(em.chars(), entry.0@, from as int, n as int, step)
                } else {
                    Seq::empty()
                }) =~= before.out() + walk(em.chars(), entry.0@, 0, n as int, step),
            decreases
                    n - from + (if more {
                        1int
                    } else {
                        0int
                    }),
        {
            match em.text.find(entry.0, from, n) {
                Some(p) => {
                    report_copula(em, p, entry);
                    from = p + entry.0.unicode_len();
                },
                None => {
                    more = false;
                },
            }
        }
        assert(em.out() =~= start.out() + (each(k as int, f) + f(k as int)));
        k = k + 1;
    }
}

/// Passives that lose nothing without their 被.
pub const PASSIVE_REWRITE_PATTERNS: [(&'static str, &'static str); 3] = [
    ("被廣泛使用", "廣泛使用"),
    ("被廣泛採用", "廣泛採用"),
    ("被廣泛應用", "廣泛應用"),
];

pub open spec fn passive_step(
    t: Seq<char>,
    ex: Seq<ByteRange>,
    entry: (&'static str, &'static str),
) -> spec_fn(int) -> (int, Seq<IssueModel>) {
    |p: int|
        {
            let end = p + entry.0@.len();
            (
                end,
                if_so(
                    !span_excluded(t, ex, p, end),
                    ai_issue(
                        t,
                        p,
                        end,
                        seq![entry.1@],
                        Severity::Info,
                        None,
                        "AI passive voice overuse; active voice is more natural in zh-TW"@,
                    ),
                ),
            )
        }
}

pub open spec fn passive_rewrite_rule(t: Seq<char>, ex: Seq<ByteRange>) -> spec_fn(int) -> Seq<
    IssueModel,
> {
    |k: int|
        walk(
            t,
            PASSIVE_REWRITE_PATTERNS@[k].0@,
            0,
            t.len() as int,
            passive_step(t, ex, PASSIVE_REWRITE_PATTERNS@[k]),
        )
}

/// Passives with an obvious active form.
pub fn scan_ai_passive(em: &mut Emitter<'_>)
    requires
        old(em).wf(),
    ensures
        final(em).wf(),
        final(em).extends(
            old(em),
            each(
                PASSIVE_REWRITE_PATTERNS@.len() as int,
                passive_rewrite_rule(old(em).chars(), old(em).ex()),
            ),
        ),
{
    let ghost start = *em;
    let ghost f = passive_rewrite_rule(em.chars(), em.ex());
    proof {
        reveal_strlit("被廣泛使用");
        reveal_strlit("被廣泛採用");
        reveal_strlit("被廣泛應用");
    }
    let n: usize = em.text.len();
    let mut k: usize = 0;
    while k < 3
        invariant
            em.wf(),
            k <= 3,
            n == em.chars().len(),
            forall|j: int|
                0 <= j < 3 ==> (#[trigger] PASSIVE_REWRITE_PATTERNS@[j]).0@.len() >= 1,
            f == passive_rewrite_rule(start.chars(), start.ex()),
            em.extends(&start, each(k as int, f)),
        decreases 3 - k,
    {
        let ghost before = *em;
        let entry = PASSIVE_REWRITE_PATTERNS[k];
        let ghost step = passive_step(em.chars(), em.ex(), entry);
        let mut from: usize = 0;
        let mut more: bool = true;
        while more
            invariant
                em.wf(),
                from <= n,
                n == em.chars().len(),
                entry.0@.len() >= 1,
                em.text == before.text,
                em.excluded == before.excluded,
                step == passive_step(before.chars(), before.ex(), entry),
                em.out() + (if more {
                    walk(em.chars(), entry.0@, from as int, n as int, step)
                } else {
                    Seq::empty()
                }) =~= before.out() + walk(em.chars(), entry.0@, 0, n as int, step),
            decreases
                    n - from + (if more {
                        1int
                    } else {
                        0int
                    }),
        {
            match em.text.find(entry.0, from, n) {
                Some(p) => {
                    let end: usize = p + entry.0.unicode_len();
                    let ghost mid = *em;
                    if !em.excluded_span(p, end) {
                        em.report_ai(
                            p,
                            end,
                            one(entry.1),
                            Severity::Info,
                            None,
                            "AI passive voice overuse; active voice is more natural in zh-TW".to_owned(),
                        );
                    }
                    assert(em.out() =~= mid.out() + step(p as int).1);
                    from = end;
                },
                None => {
                    more = false;
                },
            }
        }
        assert(em.out() =~= start.out() + (each(k as int, f) + f(k as int)));
        k = k + 1;
    }
}

/// What a moralising sentence says to its reader.
pub const DIDACTIC_PATTERNS: [&'static str; 9] = [
    "告訴我們",
    "告訴後人",
    "告訴世人",
    "提醒我們",
    "提醒後人",
    "提醒世人",
    "啟示我們",
    "啟示後人",
    "啟示世人",
];

/// What it draws the moral from.
pub const DIDACTIC_NOUNS: [&'static str; 5] = ["的故事", "的案例", "的經驗", "的教訓", "的歷史"];

/// Least, over the first `n` nouns, of the last place where each stands within
/// `from..to`.
pub open spec fn moral_start(t: Seq<char>, n: int, from: int, to: int) -> Option<int>
    decreases n,
{
    if n <= 0 {
        None
    } else {
        let rest = moral_start(t, n - 1, from, to);
        match (rest, rfind_in(t, DIDACTIC_NOUNS@[n - 1]@, from, to)) {
            (Some(a), Some(b)) => Some(least(a, b)),
            (Some(a), None) => Some(a),
            (None, b) => b,
        }
    }
}

/// The moral at `p`, where its noun stands within thirty bytes before it and
/// in the same sentence.
pub open spec fn didactic_step(t: Seq<char>, ex: Seq<ByteRange>, width: int) -> spec_fn(int) -> (
    int,
    Seq<IssueModel>,
) {
    |p: int|
        {
            let near = floor_pos(t, byte_pos(t, p) - 30);
            let own = after_last(t, TERMINALS@, p);
            let from = if near >= own {
                near
            } else {
                own
            };
            (
                p + width,
                match moral_start(t, 5, from, p) {
                    Some(s) => if_so(
                        !span_excluded(t, ex, p, p + width),
                        ai_issue(
                            t,
                            s,
                            p + width,
                            Seq::empty(),
                            Severity::Info,
                            None,
                            "AI didactic pattern; technical articles rarely use moralizing conclusions"@,
                        ),
                    ),
                    None => Seq::empty(),
                },
            )
        }
}

pub open spec fn didactic_rule(t: Seq<char>, ex: Seq<ByteRange>) -> spec_fn(int) -> Seq<
    IssueModel,
> {
    |k: int|
        walk(t, DIDACTIC_PATTERNS@[k]@, 0, t.len() as int, didactic_step(t, ex, 4))
}

fn find_moral_start(text: &Text<'_>, from: usize, to: usize) -> (r: Option<usize>)
    requires
        text.wf(),
        from <= to <= text@.len(),
    ensures
        match (r, moral_start(text@, 5, from as int, to as int)) {
            (Some(a), Some(b)) => a == b && from <= a <= to,
            (None, None) => true,
            _ => false,
        },
{
    let mut best: Option<usize> = None;
    let mut k: usize = 0;
    while k < 5
        invariant
            text.wf(),
            k <= 5,
            from <= to <= text@.len(),
            match (best, moral_start(text@, k as int, from as int, to as int)) {
                (Some(a), Some(b)) => a == b && from <= a <= to,
                (None, None) => true,
                _ => false,
            },
        decreases 5 - k,
    {
        let here = text.rfind(DIDACTIC_NOUNS[k], from, to);
        best = match (best, here) {
            (Some(a), Some(b)) => if a <= b {
                Some(a)
            } else {
                Some(b)
            },
            (Some(a), None) => Some(a),
            (None, b) => b,
        };
        k = k + 1;
    }
    best
}

proof fn lemma_didactic_are_four()
    ensures
        forall|j: int| 0 <= j < 9 ==> (#[trigger] DIDACTIC_PATTERNS@[j])@.len() == 4,
{
    reveal_strlit("告訴我們");
    reveal_strlit("告訴後人");
    reveal_strlit("告訴世人");
    reveal_strlit("提醒我們");
    reveal_strlit("提醒後人");
    reveal_strlit("提醒世人");
    reveal_strlit("啟示我們");
    reveal_strlit("啟示後人");
    reveal_strlit("啟示世人");
}

fn report_didactic(em: &mut Emitter<'_>, p: usize)
    requires
        old(em).wf(),
        p + 4 <= old(em).chars().len(),
    ensures
        final(em).wf(),
        final(em).extends(
            old(em),
            didactic_step(old(em).chars(), old(em).ex(), 4)(p as int).1,
        ),
{
    let ghost start = *em;
    let ghost step = didactic_step(em.chars(), em.ex(), 4);
    let _len: usize = em.text.len();
    if !em.excluded_span(p, p + 4) {
        let near: usize = bytes_before(&em.text, p, 30);
        let own: usize = em.text.past_last(TERMINALS.as_slice(), p);
        let from: usize = if near >= own {
            near
        } else {
            own
        };
        if let Some(s) = find_moral_start(&em.text, from, p) {
            em.advise_ai(
                s,
                p + 4,
                Severity::Info,
                None,
                "AI didactic pattern; technical articles rarely use moralizing conclusions".to_owned(),
            );
        }
    }
    assert(em.out() =~= start.out() + step(p as int).1);
}

/// Moralising conclusions: the history of something tells us.
pub fn scan_ai_didactic(em: &mut Emitter<'_>)
    requires
        old(em).wf(),
    ensures
        final(em).wf(),
        final(em).extends(
            old(em),
            each(DIDACTIC_PATTERNS@.len() as int, didactic_rule(old(em).chars(), old(em).ex())),
        ),
{
    let ghost start = *em;
    let ghost f = didactic_rule(em.chars(), em.ex());
    proof {
        lemma_didactic_are_four();
    }
    let n: usize = em.text.len();
    let mut k: usize = 0;
    while k < 9
        invariant
            em.wf(),
            k <= 9,
            n == em.chars().len(),
            forall|j: int| 0 <= j < 9 ==> (#[trigger] DIDACTIC_PATTERNS@[j])@.len() == 4,
            f == didactic_rule(start.chars(), start.ex()),
            em.extends(&start, each(k as int, f)),
        decreases 9 - k,
    {
        let ghost before = *em;
        let pattern: &'static str = DIDACTIC_PATTERNS[k];
        let ghost step = didactic_step(em.chars(), em.ex(), 4);
        let mut from: usize = 0;
        let mut more: bool = true;
        while more
            invariant
                em.wf(),
                from <= n,
                n == em.chars().len(),
                pattern@.len() == 4,
                em.text == before.text,
                em.excluded == before.excluded,
                step == didactic_step(before.chars(), before.ex(), 4),
                em.out() + (if more {
                    walk(em.chars(), pattern@, from as int, n as int, step)
                } else {
                    Seq::empty()
                }) =~= before.out() + walk(em.chars(), pattern@, 0, n as int, step),
            decreases
                    n - from + (if more {
                        1int
                    } else {
                        0int
                    }),
        {
            match em.text.find(pattern, from, n) {
                Some(p) => {
                    report_didactic(em, p);
                    from = p + 4;
                },
                None => {
                    more = false;
                },
            }
        }
        assert(em.out() =~= start.out() + (each(k as int, f) + f(k as int)));
        k = k + 1;
    }
}

/// Verbs that claim a lead.
pub const LEAD_VERBS: [&'static str; 3] = ["領先", "超前", "超越"];

/// Over what the lead is claimed.
pub const LEAD_OBJECTS: [&'static str; 3] = ["時代", "業界", "同期"];

/// End of the first 年 of `i..to` that one or two digits run into, `digits`
/// digits standing right before `i`.
pub open spec fn duration_end(t: Seq<char>, i: int, to: int, digits: nat) -> Option<int>
    decreases to - i,
{
    if i >= to {
        None
    } else if t[i] == '年' && 1 <= digits <= 2 {
        Some(i + 1)
    } else {
        duration_end(
            t,
            i + 1,
            to,
            if ascii_digit(t[i]) {
                digits + 1
            } else {
                0
            },
        )
    }
}

/// End of the duration that follows the first object, from the `k`-th on, with
/// one within twenty bytes after it.
pub open spec fn lead_end(t: Seq<char>, k: int, from: int, to: int) -> Option<int>
    decreases 3 - k,
{
    if k < 0 || k >= 3 {
        None
    } else {
        match find_in(t, LEAD_OBJECTS@[k]@, from, to) {
            Some(q) => {
                let after = q + LEAD_OBJECTS@[k]@.len();
                let stop = floor_pos(t, least(byte_pos(t, to), byte_pos(t, after) + 20));
                match duration_end(t, after, stop, 0) {
                    Some(e) => Some(e),
                    None => lead_end(t, k + 1, from, to),
                }
            },
            None => lead_end(t, k + 1, from, to),
        }
    }
}

/// The lead claimed at `p`, within thirty characters and in the same sentence.
pub open spec fn exaggeration_step(t: Seq<char>, ex: Seq<ByteRange>) -> spec_fn(int) -> (
    int,
    Seq<IssueModel>,
) {
    |p: int|
        {
            let after = p + 2;
            let to = next_of(t, TERMINALS@, after, least(after + 30, t.len() as int));
            (
                after,
                match lead_end(t, 0, after, to) {
                    Some(e) => if_so(
                        !span_excluded(t, ex, p, after),
                        ai_issue(
                            t,
                            p,
                            e,
                            Seq::empty(),
                            Severity::Info,
                            None,
                            "AI vague exaggeration; replace with concrete technical comparison"@,
                        ),
                    ),
                    None => Seq::empty(),
                },
            )
        }
}

pub open spec fn exaggeration_rule(t: Seq<char>, ex: Seq<ByteRange>) -> spec_fn(int) -> Seq<
    IssueModel,
> {
    |k: int| walk(t, LEAD_VERBS@[k]@, 0, t.len() as int, exaggeration_step(t, ex))
}

fn find_duration_end(text: &Text<'_>, from: usize, to: usize) -> (r: Option<usize>)
    requires
        text.wf(),
        from <= text@.len(),
        to <= text@.len(),
    ensures
        match (r, duration_end(text@, from as int, to as int, 0)) {
            (Some(a), Some(b)) => a == b && from < a <= to,
            (None, None) => true,
            _ => false,
        },
{
    let mut i: usize = from;
    let mut digits: usize = 0;
    while i < to
        invariant
            text.wf(),
            from <= i,
            to <= text@.len(),
            digits <= i - from,
            duration_end(text@, i as int, to as int, digits as nat) == duration_end(
                text@,
                from as int,
                to as int,
                0,
            ),
        decreases to - i,
    {
        let c = text.ch(i);
        if c == '年' && 1 <= digits && digits <= 2 {
            return Some(i + 1);
        }
        if is_ascii_digit(c) {
            digits = digits + 1;
        } else {
            digits = 0;
        }
        i = i + 1;
    }
    None
}

proof fn lemma_lead_words_are_two()
    ensures
        forall|j: int| 0 <= j < 3 ==> (#[trigger] LEAD_VERBS@[j])@.len() == 2,
        forall|j: int| 0 <= j < 3 ==> (#[trigger] LEAD_OBJECTS@[j])@.len() == 2,
{
    reveal_strlit("領先");
    reveal_strlit("超前");
    reveal_strlit("超越");
    reveal_strlit("時代");
    reveal_strlit("業界");
    reveal_strlit("同期");
}

fn find_lead_end(text: &Text<'_>, from: usize, to: usize) -> (r: Option<usize>)
    requires
        text.wf(),
        from <= to <= text@.len(),
    ensures
        match (r, lead_end(text@, 0, from as int, to as int)) {
            (Some(a), Some(b)) => a == b && from <= a <= text@.len(),
            (None, None) => true,
            _ => false,
        },
{
    proof {
        lemma_lead_words_are_two();
    }
    let mut k: usize = 0;
    while k < 3
        invariant
            text.wf(),
            k <= 3,
            from <= to <= text@.len(),
            forall|j: int| 0 <= j < 3 ==> (#[trigger] LEAD_OBJECTS@[j])@.len() == 2,
            lead_end(text@, k as int, from as int, to as int) == lead_end(
                text@,
                0,
                from as int,
                to as int,
            ),
        decreases 3 - k,
    {
        if let Some(q) = text.find(LEAD_OBJECTS[k], from, to) {
            let after: usize = q + 2;
            let end: usize = text.byte(to);
            let near: usize = text.byte(after);
            proof {
                crate::text::lemma_byte_pos_monotone(text@, after as int, to as int);
            }
            let limit: usize = if end - near <= 20 {
                end
            } else {
                near + 20
            };
            let stop: usize = text.floor(limit);
            if let Some(e) = find_duration_end(text, after, stop) {
                return Some(e);
            }
        }
        k = k + 1;
    }
    None
}

fn report_exaggeration(em: &mut Emitter<'_>, p: usize)
    requires
        old(em).wf(),
        p + 2 <= old(em).chars().len(),
    ensures
        final(em).wf(),
        final(em).extends(
            old(em),
            exaggeration_step(old(em).chars(), old(em).ex())(p as int).1,
        ),
{
    let ghost start = *em;
    let ghost step = exaggeration_step(em.chars(), em.ex());
    let n: usize = em.text.len();
    let after: usize = p + 2;
    if !em.excluded_span(p, after) {
        let far: usize = bounded(after, 30, n);
        let to: usize = em.text.next(TERMINALS.as_slice(), after, far);
        if let Some(e) = find_lead_end(&em.text, after, to) {
            em.advise_ai(
                p,
                e,
                Severity::Info,
                None,
                "AI vague exaggeration; replace with concrete technical comparison".to_owned(),
            );
        }
    }
    assert(em.out() =~= start.out() + step(p as int).1);
}

/// A lead over the age or the industry, measured in years.
pub fn scan_ai_vague_exaggeration(em: &mut Emitter<'_>)
    requires
        old(em).wf(),
    ensures
        final(em).wf(),
        final(em).extends(
            old(em),
            each(LEAD_VERBS@.len() as int, exaggeration_rule(old(em).chars(), old(em).ex())),
        ),
{
    let ghost start = *em;
    let ghost f = exaggeration_rule(em.chars(), em.ex());
    proof {
        lemma_lead_words_are_two();
    }
    let n: usize = em.text.len();
    let mut k: usize = 0;
    while k < 3
        invariant
            em.wf(),
            k <= 3,
            n == em.chars().len(),
            forall|j: int| 0 <= j < 3 ==> (#[trigger] LEAD_VERBS@[j])@.len() == 2,
            f == exaggeration_rule(start.chars(), start.ex()),
            em.extends(&start, each(k as int, f)),
        decreases 3 - k,
    {
        let ghost before = *em;
        let verb: &'static str = LEAD_VERBS[k];
        let ghost step = exaggeration_step(em.chars(), em.ex());
        let mut from: usize = 0;
        let mut more: bool = true;
        while more
            invariant
                em.wf(),
                from <= n,
                n == em.chars().len(),
                verb@.len() == 2,
                em.text == before.text,
                em.excluded == before.excluded,
                step == exaggeration_step(before.chars(), before.ex()),
                em.out() + (if more {
                    walk(em.chars(), verb@, from as int, n as int, step)
                } else {
                    Seq::empty()
                }) =~= before.out() + walk(em.chars(), verb@, 0, n as int, step),
            decreases
                    n - from + (if more {
                        1int
                    } else {
                        0int
                    }),
        {
            match em.text.find(verb, from, n) {
                Some(p) => {
                    report_exaggeration(em, p);
                    from = p + 2;
                },
                None => {
                    more = false;
                },
            }
        }
        assert(em.out() =~= start.out() + (each(k as int, f) + f(k as int)));
        k = k + 1;
    }
}

/// What the phrase detectors report, one detector after another.
pub open spec fn ai_grammar_findings(t: Seq<char>, ex: Seq<ByteRange>) -> Seq<IssueModel> {
    walk(t, "意味著"@, 0, t.len() as int, yiweizhe_step(t, ex)) + each(
        COPULA_AVOIDANCE_PATTERNS@.len() as int,
        copula_avoidance_rule(t, ex),
    ) + each(PASSIVE_REWRITE_PATTERNS@.len() as int, passive_rewrite_rule(t, ex)) + each(
        DIDACTIC_PATTERNS@.len() as int,
        didactic_rule(t, ex),
    ) + each(LEAD_VERBS@.len() as int, exaggeration_rule(t, ex))
}

/// The phrase detectors.
pub fn scan_ai_grammar(em: &mut Emitter<'_>)
    requires
        old(em).wf(),
    ensures
        final(em).wf(),
        final(em).extends(old(em), ai_grammar_findings(old(em).chars(), old(em).ex())),
{
    let ghost start = *em;
    scan_ai_semantic_safety(em);
    scan_ai_copula_avoidance(em);
    scan_ai_passive(em);
    scan_ai_didactic(em);
    scan_ai_vague_exaggeration(em);
    assert(em.out() =~= start.out() + ai_grammar_findings(start.chars(), start.ex()));
}

/// Tracked phrases: how often per thousand characters, in tenths, and how many
/// are acceptable.
pub const DENSITY_TRACKED_PHRASES: [(&'static str, usize, usize); 10] = [
    ("更重要的是", 5, 5),
    ("值得注意的是", 3, 3),
    ("這意味著", 5, 5),
    ("不容忽視", 2, 2),
    ("深刻影響", 3, 3),
    ("從某種意義上", 2, 2),
    ("從某種程度上", 2, 2),
    ("需要注意的是", 3, 3),
    ("在某種程度上", 2, 2),
    ("在這個過程中", 3, 3),
];

pub open spec fn density_context(
    entry: (&'static str, usize, usize),
    count: nat,
    chars: int,
    percent: int,
) -> Seq<char> {
    "AI density: 「"@ + entry.0@ + message("」 在本文出現 "@, count, " 次 ("@) + one_decimal(
        rounded(10000 * count as int, chars),
    ) + "次/千字，閾值 "@ + one_decimal(rounded(entry.1 * percent, 100)) + message(
        ")，疑似 AI 生成的轉折公式。建議減至 "@,
        entry.2 as nat,
        " 次以內。"@,
    )
}

/// A phrase that occurs more often per thousand characters than its limit,
/// scaled by `percent` per cent. The finding stands on its first occurrence.
pub open spec fn density_rule(t: Seq<char>, ex: Seq<ByteRange>, percent: int) -> spec_fn(
    int,
) -> Seq<IssueModel> {
    |k: int|
        {
            let entry = DENSITY_TRACKED_PHRASES@[k];
            let found = hits(t, ex, entry.0@, 0, t.len() as int);
            if_so(
                found.len() > 0 && 1000000 * found.len() > entry.1 * percent * t.len(),
                ai_issue(
                    t,
                    found[0],
                    found[0] + entry.0@.len(),
                    Seq::empty(),
                    Severity::Warning,
                    None,
                    density_context(entry, found.len(), t.len() as int, percent),
                ),
            )
        }
}

/// Texts under five hundred characters give no signal.
pub open spec fn density_findings(t: Seq<char>, ex: Seq<ByteRange>, percent: int) -> Seq<
    IssueModel,
> {
    if t.len() < 500 {
        Seq::empty()
    } else {
        each(DENSITY_TRACKED_PHRASES@.len() as int, density_rule(t, ex, percent))
    }
}

fn density_message(
    entry: (&'static str, usize, usize),
    count: usize,
    chars: usize,
    percent: u32,
) -> (r: String)
    requires
        500 <= chars,
        count <= chars,
        entry.1 <= 10,
    ensures
        r@ == density_context(entry, count as nat, chars as int, percent as int),
{
    let density: usize = round_to_even(10000 * (count as u128), chars as u128, 10000);
    proof {
        assert(entry.1 * percent <= 10 * percent) by (nonlinear_arith)
            requires
                entry.1 <= 10,
        ;
    }
    let limit: usize = round_to_even((entry.1 as u128) * (percent as u128), 100, 429496730);
    let a: String = joined("AI density: 「", entry.0, message_of("」 在本文出現 ", count, " 次 (").as_str());
    let b: String = joined(a.as_str(), tenths_of(density).as_str(), "次/千字，閾值 ");
    let c: String = message_of(")，疑似 AI 生成的轉折公式。建議減至 ", entry.2, " 次以內。");
    let r: String = joined(b.as_str(), tenths_of(limit).as_str(), c.as_str());
    assert(r@ =~= density_context(entry, count as nat, chars as int, percent as int));
    r
}

proof fn lemma_tracked()
    ensures
        forall|j: int|
            0 <= j < 10 ==> (#[trigger] DENSITY_TRACKED_PHRASES@[j]).0@.len() >= 1
                && DENSITY_TRACKED_PHRASES@[j].1 <= 10,
{
    reveal_strlit("更重要的是");
    reveal_strlit("值得注意的是");
    reveal_strlit("這意味著");
    reveal_strlit("不容忽視");
    reveal_strlit("深刻影響");
    reveal_strlit("從某種意義上");
    reveal_strlit("從某種程度上");
    reveal_strlit("需要注意的是");
    reveal_strlit("在某種程度上");
    reveal_strlit("在這個過程中");
}

/// Density of the tracked phrases over the document, the limits being scaled
/// by `percent` per cent.
pub fn scan_ai_density(em: &mut Emitter<'_>, percent: u32)
    requires
        old(em).wf(),
    ensures
        final(em).wf(),
        final(em).extends(
            old(em),
            density_findings(old(em).chars(), old(em).ex(), percent as int),
        ),
{
    let ghost start = *em;
    let n: usize = em.text.len();
    if n < 500 {
        assert(em.out() =~= start.out() + Seq::<IssueModel>::empty());
        return;
    }
    let ghost f = density_rule(em.chars(), em.ex(), percent as int);
    proof {
        lemma_tracked();
    }
    let mut k: usize = 0;
    while k < 10
        invariant
            em.wf(),
            k <= 10,
            n == em.chars().len(),
            n >= 500,
            forall|j: int|
                0 <= j < 10 ==> (#[trigger] DENSITY_TRACKED_PHRASES@[j]).0@.len() >= 1
                    && DENSITY_TRACKED_PHRASES@[j].1 <= 10,
            f == density_rule(start.chars(), start.ex(), percent as int),
            em.extends(&start, each(k as int, f)),
        decreases 10 - k,
    {
        let entry = DENSITY_TRACKED_PHRASES[k];
        let (count, first) = em.count_hits(entry.0, 0, n);
        proof {
            assert(entry.1 * percent <= 10 * percent) by (nonlinear_arith)
                requires
                    entry.1 <= 10,
            ;
        }
        let limit: u128 = (entry.1 as u128) * (percent as u128);
        proof {
            assert(limit * n <= u128::MAX) by (nonlinear_arith)
                requires
                    limit <= 0xF_FFFF_FFFF,
                    n <= u64::MAX,
            ;
            assert(entry.1 * percent * n == limit * n);
        }
        if count > 0 && 1000000 * (count as u128) > limit * (n as u128) {
            em.advise_ai(
                first,
                first + entry.0.unicode_len(),
                Severity::Warning,
                None,
                density_message(entry, count, n, percent),
            );
        }
        assert(em.out() =~= start.out() + (each(k as int, f) + f(k as int)));
        k = k + 1;
    }
}

/// A phrase that is reported under a limit is reported under any lower one.
pub proof fn law_lower_limits_report_more(
    t: Seq<char>,
    ex: Seq<ByteRange>,
    lower: int,
    higher: int,
    k: int,
)
    requires
        0 <= lower <= higher,
        density_rule(t, ex, higher)(k).len() > 0,
    ensures
        density_rule(t, ex, lower)(k).len() > 0,
{
    let entry = DENSITY_TRACKED_PHRASES@[k];
    let (a, n) = (entry.1 as int, t.len() as int);
    assert(a * lower * n <= a * higher * n) by (nonlinear_arith)
        requires
            0 <= a,
            0 <= n,
            0 <= lower <= higher,
    ;
}

} // verus!
