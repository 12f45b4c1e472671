//! English calques that the bare text shows, without its sentences and
//! paragraphs.
use vstd::prelude::*;

use crate::chars::{
    ascii_letter, is_ascii_letter, is_clause_boundary_char, CLAUSE_MARKS, TERMINALS,
};
use crate::emit::{joined, span_excluded, translationese_issue, ByteRange, Emitter};
use crate::issue::{IssueModel, PhaseFamily, PhasePass, Register, Severity};
use crate::text::{
    any_at, any_ending, any_in, bounded, find_in, has_char_in, least, listed, next_of, Text,
};
use crate::walk::{each, if_so, walk};

verus! {

/// End of the window of `n` characters after `from` that stays inside the
/// sentence.
pub open spec fn sentence_window(t: Seq<char>, from: int, n: int, to: int) -> int {
    next_of(t, TERMINALS@, from, least(from + n, to))
}

pub fn window_end(text: &Text<'_>, from: usize, n: usize, to: usize) -> (r: usize)
    requires
        text.wf(),
        from <= to <= text@.len(),
    ensures
        r == sentence_window(text@, from as int, n as int, to as int),
        from <= r <= to,
{
    text.next(TERMINALS.as_slice(), from, bounded(from, n, to))
}

/// Words that open a superlative.
pub const SUPERLATIVES: [&'static str; 2] = ["最", "極為"];

/// Tails of nouns that name a person by profession or role.
pub const PERSON_NOUN_TAILS: [&'static str; 16] = [
    "畫家",
    "學者",
    "作家",
    "工程師",
    "程式設計師",
    "設計師",
    "研究員",
    "運動員",
    "球員",
    "演員",
    "歌手",
    "作者",
    "記者",
    "教授",
    "醫師",
    "醫生",
];

/// The superlative at `p`, with its 之一 in the same sentence, one to twenty
/// characters other than 之 between them, and no person noun before it.
pub open spec fn superlative_step(
    t: Seq<char>,
    ex: Seq<ByteRange>,
    opener: Seq<char>,
) -> spec_fn(int) -> (int, Seq<IssueModel>) {
    |p: int|
        {
            let after = p + opener.len();
            match find_in(t, "之一"@, after, sentence_window(t, after, 22, t.len() as int)) {
                None => (after, Seq::empty()),
                Some(q) => if q == after || has_char_in(t, seq!['之'], after, q) {
                    (after, Seq::empty())
                } else {
                    (
                        q + 2,
                        if_so(
                            !any_ending(t, PERSON_NOUN_TAILS@, after, q) && !span_excluded(
                                t,
                                ex,
                                p,
                                q + 2,
                            ),
                            translationese_issue(
                                t,
                                p,
                                q + 2,
                                Seq::empty(),
                                Severity::Info,
                                Some((PhaseFamily::YiZhi, PhasePass::Lexical)),
                                "翻譯腔：之一最高級套語，省去「之一」改用「極為…」/「非常…」/「數一數二的…」"@,
                            ),
                        ),
                    )
                },
            }
        }
}

pub open spec fn superlative_rule(t: Seq<char>, ex: Seq<ByteRange>) -> spec_fn(int) -> Seq<
    IssueModel,
> {
    |k: int|
        walk(
            t,
            SUPERLATIVES@[k]@,
            0,
            t.len() as int,
            superlative_step(t, ex, SUPERLATIVES@[k]@),
        )
}

/// One superlative: where the search goes on after it.
fn report_superlative(em: &mut Emitter<'_>, p: usize, width: usize, opener: &'static str) -> (next:
    usize)
    requires
        old(em).wf(),
        p + width <= old(em).chars().len(),
        width == opener@.len(),
        width >= 1,
    ensures
        final(em).wf(),
        p < next <= old(em).chars().len(),
        next == superlative_step(old(em).chars(), old(em).ex(), opener@)(p as int).0,
        final(em).extends(
            old(em),
            superlative_step(old(em).chars(), old(em).ex(), opener@)(p as int).1,
        ),
{
    let ghost start = *em;
    let ghost step = superlative_step(em.chars(), em.ex(), opener@);
    proof {
        reveal_strlit("之一");
    }
    let n: usize = em.text.len();
    let after: usize = p + width;
    let end: usize = window_end(&em.text, after, 22, n);
    let zhi: [char; 1] = ['之'];
    assert(zhi@ =~= seq!['之']);
    match em.text.find("之一", after, end) {
        None => {
            assert(em.out() =~= start.out() + step(p as int).1);
            after
        },
        Some(q) => {
            if q == after || em.text.has_char(zhi.as_slice(), after, q) {
                assert(em.out() =~= start.out() + step(p as int).1);
                after
            } else {
                if !em.text.any_ending(PERSON_NOUN_TAILS.as_slice(), after, q)
                    && !em.excluded_span(p, q + 2) {
                    em.advise_translationese(
                        p,
                        q + 2,
                        Severity::Info,
                        Some((PhaseFamily::YiZhi, PhasePass::Lexical)),
                        "翻譯腔：之一最高級套語，省去「之一」改用「極為…」/「非常…」/「數一數二的…」".to_owned(),
                    );
                }
                assert(em.out() =~= start.out() + step(p as int).1);
                q + 2
            }
        },
    }
}

/// The calque of "one of the most": 最 or 極為 with 之一 after it.
pub fn scan_zy1a_superlative_yi_zhi(em: &mut Emitter<'_>)
    requires
        old(em).wf(),
    ensures
        final(em).wf(),
        final(em).extends(
            old(em),
            each(SUPERLATIVES@.len() as int, superlative_rule(old(em).chars(), old(em).ex())),
        ),
{
    let ghost start = *em;
    let ghost f = superlative_rule(em.chars(), em.ex());
    proof {
        reveal_strlit("最");
        reveal_strlit("極為");
    }
    let n: usize = em.text.len();
    let mut k: usize = 0;
    while k < 2
        invariant
            em.wf(),
            k <= 2,
            n == em.chars().len(),
            forall|j: int| 0 <= j < 2 ==> (#[trigger] SUPERLATIVES@[j])@.len() >= 1,
            f == superlative_rule(start.chars(), start.ex()),
            em.extends(&start, each(k as int, f)),
        decreases 2 - k,
    {
        let ghost before = *em;
        let opener: &'static str = SUPERLATIVES[k];
        let ghost step = superlative_step(em.chars(), em.ex(), opener@);
        let width: usize = opener.unicode_len();
        let mut from: usize = 0;
        let mut more: bool = true;
        while more
            invariant
                em.wf(),
                from <= n,
                n == em.chars().len(),
                width == opener@.len(),
                width >= 1,
                em.text == before.text,
                em.excluded == before.excluded,
                step == superlative_step(before.chars(), before.ex(), opener@),
                em.out() + (if more {
                    walk(em.chars(), opener@, from as int, n as int, step)
                } else {
                    Seq::empty()
                }) =~= before.out() + walk(em.chars(), opener@, 0, n as int, step),
            decreases
                    n - from + (if more {
                        1int
                    } else {
                        0int
                    }),
        {
            match em.text.find(opener, from, n) {
                Some(p) => {
                    let next: usize = report_superlative(em, p, width, opener);
                    from = next;
                },
                None => {
                    more = false;
                },
            }
        }
        assert(em.out() =~= start.out() + (each(k as int, f) + f(k as int)));
        k = k + 1;
    }
}

/// Paired connectives: opener, closer, how many characters may stand between
/// them, and what the pair is called.
pub const CONNECTIVES: [(&'static str, &'static str, usize, &'static str); 4] = [
    ("因為", "所以", 40, "因為…所以"),
    ("雖然", "但是", 40, "雖然…但是"),
    ("當", "的時候", 30, "當…的時候"),
    ("如果", "那麼", 40, "如果…那麼"),
];

/// What after 當 makes another word of it.
pub const SKIP_NEXT: [char; 17] = [
    '下',
    '時',
    '作',
    '初',
    '今',
    '年',
    '日',
    '前',
    '地',
    '局',
    '事',
    '中',
    '然',
    '面',
    '選',
    '權',
    '代',
];

/// 當 at `p`, and what follows makes another word of it.
pub open spec fn another_dang_word(t: Seq<char>, p: int, to: int) -> bool {
    t[p] == '當' && p + 1 < to && SKIP_NEXT@.contains(t[p + 1])
}

pub fn starts_another_dang_word(text: &Text<'_>, p: usize, to: usize) -> (r: bool)
    requires
        text.wf(),
        p < to <= text@.len(),
    ensures
        r == another_dang_word(text@, p as int, to as int),
{
    let n: usize = text.len();
    text.ch(p) == '當' && p + 1 < to && listed(SKIP_NEXT.as_slice(), text.ch(p + 1))
}

/// First place of the needle in the sentence with at most `n` characters
/// between `from` and it.
pub open spec fn within_chars(
    t: Seq<char>,
    needle: Seq<char>,
    from: int,
    n: int,
    to: int,
) -> Option<int> {
    find_in(t, needle, from, sentence_window(t, from, n + needle.len(), to))
}

/// Characters from the beginning of a gap of `n` to the end of the needle behind
/// it, as far as they can be counted.
pub fn reach(n: usize, needle: &str) -> (r: usize)
    ensures
        r == n + needle@.len() || (r == usize::MAX && n + needle@.len() > usize::MAX),
{
    let width: usize = needle.unicode_len();
    if n <= usize::MAX - width {
        n + width
    } else {
        usize::MAX
    }
}

pub fn find_within_chars(
    text: &Text<'_>,
    from: usize,
    n: usize,
    needle: &str,
    to: usize,
) -> (r: Option<usize>)
    requires
        text.wf(),
        from <= to <= text@.len(),
    ensures
        match (r, within_chars(text@, needle@, from as int, n as int, to as int)) {
            (Some(p), Some(q)) => p == q && from <= p && p + needle@.len() <= to,
            (None, None) => true,
            _ => false,
        },
{
    let end: usize = window_end(text, from, reach(n, needle), to);
    text.find(needle, from, end)
}

/// The connective at `p`, where its other half follows.
pub open spec fn connective_step(
    t: Seq<char>,
    ex: Seq<ByteRange>,
    entry: (&'static str, &'static str, usize, &'static str),
) -> spec_fn(int) -> (int, Seq<IssueModel>) {
    |p: int|
        {
            let after = p + entry.0@.len();
            if another_dang_word(t, p, t.len() as int) {
                (after, Seq::empty())
            } else {
                match within_chars(t, entry.1@, after, entry.2 as int, t.len() as int) {
                    None => (after, Seq::empty()),
                    Some(q) => {
                        let end = q + entry.1@.len();
                        (
                            end,
                            if_so(
                                !span_excluded(t, ex, p, end),
                                translationese_issue(
                                    t,
                                    p,
                                    end,
                                    Seq::empty(),
                                    Severity::Info,
                                    Some((PhaseFamily::Connective, PhasePass::Lexical)),
                                    "翻譯腔：連接詞贅餘（"@ + entry.3@
                                        + "），中文常省略其中一端"@,
                                ),
                            ),
                        )
                    },
                }
            }
        }
}

pub open spec fn connective_rule(t: Seq<char>, ex: Seq<ByteRange>) -> spec_fn(int) -> Seq<
    IssueModel,
> {
    |k: int|
        walk(
            t,
            CONNECTIVES@[k].0@,
            0,
            t.len() as int,
            connective_step(t, ex, CONNECTIVES@[k]),
        )
}

fn report_connective(
    em: &mut Emitter<'_>,
    p: usize,
    entry: (&'static str, &'static str, usize, &'static str),
) -> (next: usize)
    requires
        old(em).wf(),
        p + entry.0@.len() <= old(em).chars().len(),
        entry.0@.len() >= 1,
    ensures
        final(em).wf(),
        p < next <= old(em).chars().len(),
        next == connective_step(old(em).chars(), old(em).ex(), entry)(p as int).0,
        final(em).extends(
            old(em),
            connective_step(old(em).chars(), old(em).ex(), entry)(p as int).1,
        ),
{
    let ghost start = *em;
    let ghost step = connective_step(em.chars(), em.ex(), entry);
    let n: usize = em.text.len();
    let after: usize = p + entry.0.unicode_len();
    if starts_another_dang_word(&em.text, p, n) {
        assert(em.out() =~= start.out() + step(p as int).1);
        return after;
    }
    match find_within_chars(&em.text, after, entry.2, entry.1, n) {
        None => {
            assert(em.out() =~= start.out() + step(p as int).1);
            after
        },
        Some(q) => {
            let end: usize = q + entry.1.unicode_len();
            if !em.excluded_span(p, end) {
                em.advise_translationese(
                    p,
                    end,
                    Severity::Info,
                    Some((PhaseFamily::Connective, PhasePass::Lexical)),
                    joined("翻譯腔：連接詞贅餘（", entry.3, "），中文常省略其中一端"),
                );
            }
            assert(em.out() =~= start.out() + step(p as int).1);
            end
        },
    }
}

proof fn lemma_connectives_nonempty()
    ensures
        forall|j: int| 0 <= j < 4 ==> (#[trigger] CONNECTIVES@[j]).0@.len() >= 1,
{
    reveal_strlit("因為");
    reveal_strlit("雖然");
    reveal_strlit("當");
    reveal_strlit("如果");
}

/// What the connective pass reports in a register.
pub open spec fn connective_findings(t: Seq<char>, ex: Seq<ByteRange>, register: Register) -> Seq<
    IssueModel,
> {
    if register == Register::Formal {
        Seq::empty()
    } else {
        each(CONNECTIVES@.len() as int, connective_rule(t, ex))
    }
}

/// Paired connectives that Chinese leaves to context. A formal document
/// mandates them, so there nothing is reported.
pub fn scan_zy2a_connective_calques(em: &mut Emitter<'_>, register: Register)
    requires
        old(em).wf(),
    ensures
        final(em).wf(),
        final(em).extends(
            old(em),
            connective_findings(old(em).chars(), old(em).ex(), register),
        ),
{
    let ghost start = *em;
    if register == Register::Formal {
        assert(em.out() =~= start.out() + Seq::<IssueModel>::empty());
        return;
    }
    let ghost f = connective_rule(em.chars(), em.ex());
    proof {
        lemma_connectives_nonempty();
    }
    let n: usize = em.text.len();
    let mut k: usize = 0;
    while k < 4
        invariant
            em.wf(),
            k <= 4,
            n == em.chars().len(),
            forall|j: int| 0 <= j < 4 ==> (#[trigger] CONNECTIVES@[j]).0@.len() >= 1,
            f == connective_rule(start.chars(), start.ex()),
            em.extends(&start, each(k as int, f)),
        decreases 4 - k,
    {
        let ghost before = *em;
        let entry = CONNECTIVES[k];
        let ghost step = connective_step(em.chars(), em.ex(), entry);
        let mut from: usize = 0;
        let mut more: bool = true;
        while more
            invariant
                em.wf(),
                from <= n,
                n == em.chars().len(),
                entry.0@.len() >= 1,
                em.text == before.text,
                em.excluded == before.excluded,
                step == connective_step(before.chars(), before.ex(), entry),
                em.out() + (if more {
                    walk(em.chars(), entry.0@, from as int, n as int, step)
                } else {
                    Seq::empty()
                }) =~= before.out() + walk(em.chars(), entry.0@, 0, n as int, step),
            decreases
                    n - from + (if more {
                        1int
                    } else {
                        0int
                    }),
        {
            match em.text.find(entry.0, from, n) {
                Some(p) => {
                    let next: usize = report_connective(em, p, entry);
                    from = next;
                },
                None => {
                    more = false;
                },
            }
        }
        assert(em.out() =~= start.out() + (each(k as int, f) + f(k as int)));
        k = k + 1;
    }
}

/// Nominalised verbs with the 的 before them.
pub const NOMINAL_HEADS: [&'static str; 9] = [
    "的實施",
    "的分析",
    "的講解",
    "的理解",
    "的認識",
    "的發現",
    "的提升",
    "的下降",
    "的改善",
];

/// Heads that name a measure, and those that name its effect.
pub const MEASURE_HEADS: [&'static str; 4] = ["的實施", "的改善", "的提升", "的下降"];

pub const EFFECT_HEADS: [&'static str; 3] = ["的提升", "的改善", "的下降"];

/// Heads that name a study, and those that name its result.
pub const STUDY_HEADS: [&'static str; 4] = ["的分析", "的講解", "的理解", "的認識"];

pub const RESULT_HEADS: [&'static str; 3] = ["的發現", "的理解", "的認識"];

/// Words that coordinate two phrases.
pub const COORDINATORS: [&'static str; 6] = ["和", "與", "及", "並", "且", "或"];

/// First position of `i..to` at which a nominal head stands.
pub open spec fn next_head(t: Seq<char>, i: int, to: int) -> int
    decreases to - i,
{
    if i >= to {
        to
    } else if any_at(t, NOMINAL_HEADS@, i, to) {
        i
    } else {
        next_head(t, i + 1, to)
    }
}

/// The heads at `a` and `b` form a pair: they touch, or they are of one of the
/// two families with no coordination between them.
pub open spec fn head_pair(t: Seq<char>, a: int, b: int, to: int) -> bool {
    b == a + 3 || (!any_in(t, COORDINATORS@, a + 3, b) && ((any_at(t, MEASURE_HEADS@, a, to)
        && any_at(t, EFFECT_HEADS@, b, to)) || (any_at(t, STUDY_HEADS@, a, to) && any_at(
        t,
        RESULT_HEADS@,
        b,
        to,
    ))))
}

/// First two heads on end that form a pair, `a` being the head before `i`.
pub open spec fn first_head_pair(t: Seq<char>, a: int, i: int, to: int) -> Option<(int, int)>
    decreases to - i,
{
    let b = next_head(t, i, to);
    if b < i || b >= to {
        None
    } else if head_pair(t, a, b, to) {
        Some((a, b + 3))
    } else {
        first_head_pair(t, b, b + 1, to)
    }
}

/// The nominalisation shape of the clause `from..to`.
pub open spec fn nominal_shape(t: Seq<char>, from: int, to: int) -> Option<(int, int)> {
    let a = next_head(t, from, to);
    if from <= a < to {
        first_head_pair(t, a, a + 1, to)
    } else {
        None
    }
}

pub open spec fn nominal_clause(t: Seq<char>, ex: Seq<ByteRange>, from: int, to: int) -> Seq<
    IssueModel,
> {
    match nominal_shape(t, from, to) {
        Some((a, e)) => if_so(
            !span_excluded(t, ex, a, e),
            translationese_issue(
                t,
                a,
                e,
                Seq::empty(),
                Severity::Info,
                Some((PhaseFamily::Nominalization, PhasePass::Lexical)),
                "翻譯腔：名詞化動詞鏈（2 處「的+動名詞」），建議改用動詞句"@,
            ),
        ),
        None => Seq::empty(),
    }
}

/// The clauses of `t` from `from` on.
pub open spec fn nominal_clauses(t: Seq<char>, ex: Seq<ByteRange>, from: int) -> Seq<IssueModel>
    decreases t.len() - from,
{
    let n = t.len() as int;
    let end = next_of(t, CLAUSE_MARKS@, from, n);
    if from <= end < n {
        nominal_clause(t, ex, from, end) + nominal_clauses(t, ex, end + 1)
    } else {
        nominal_clause(t, ex, from, n)
    }
}

proof fn lemma_heads_are_three()
    ensures
        forall|j: int| 0 <= j < 9 ==> (#[trigger] NOMINAL_HEADS@[j])@.len() == 3,
{
    reveal_strlit("的實施");
    reveal_strlit("的分析");
    reveal_strlit("的講解");
    reveal_strlit("的理解");
    reveal_strlit("的認識");
    reveal_strlit("的發現");
    reveal_strlit("的提升");
    reveal_strlit("的下降");
    reveal_strlit("的改善");
}

fn find_head(text: &Text<'_>, i: usize, to: usize) -> (r: usize)
    requires
        text.wf(),
        i <= to <= text@.len(),
    ensures
        r == next_head(text@, i as int, to as int),
        i <= r <= to,
        r < to ==> r + 3 <= to,
{
    proof {
        lemma_heads_are_three();
    }
    let mut k: usize = i;
    while k < to
        invariant
            text.wf(),
            i <= k <= to <= text@.len(),
            forall|j: int| 0 <= j < 9 ==> (#[trigger] NOMINAL_HEADS@[j])@.len() == 3,
            next_head(text@, k as int, to as int) == next_head(text@, i as int, to as int),
        decreases to - k,
    {
        if text.any_at(NOMINAL_HEADS.as_slice(), k, to) {
            return k;
        }
        k = k + 1;
    }
    to
}

pub fn contains_zy3a_coordination(text: &Text<'_>, from: usize, to: usize) -> (r: bool)
    requires
        text.wf(),
        from <= to <= text@.len(),
    ensures
        r == any_in(text@, COORDINATORS@, from as int, to as int),
{
    text.any_in(COORDINATORS.as_slice(), from, to)
}

fn is_head_pair(text: &Text<'_>, a: usize, b: usize, to: usize) -> (r: bool)
    requires
        text.wf(),
        a < b,
        a + 3 <= b || b < a + 3,
        b + 3 <= to <= text@.len(),
    ensures
        r == head_pair(text@, a as int, b as int, to as int),
{
    if b == a + 3 {
        return true;
    }
    let quiet: bool = if a + 3 <= b {
        !contains_zy3a_coordination(text, a + 3, b)
    } else {
        proof {
            lemma_no_entry(text@, a + 3, b as int);
        }
        true
    };
    quiet && ((text.any_at(MEASURE_HEADS.as_slice(), a, to) && text.any_at(
        EFFECT_HEADS.as_slice(),
        b,
        to,
    )) || (text.any_at(STUDY_HEADS.as_slice(), a, to) && text.any_at(
        RESULT_HEADS.as_slice(),
        b,
        to,
    )))
}

proof fn lemma_no_entry(t: Seq<char>, from: int, to: int)
    requires
        to < from,
    ensures
        !any_in(t, COORDINATORS@, from, to),
{
}

/// First pair of nominal heads in the clause `from..to`.
pub fn find_zy3a_shape(text: &Text<'_>, from: usize, to: usize) -> (r: Option<(usize, usize)>)
    requires
        text.wf(),
        from <= to <= text@.len(),
    ensures
        match (r, nominal_shape(text@, from as int, to as int)) {
            (Some(a), Some(b)) => a.0 == b.0 && a.1 == b.1 && from <= a.0 <= a.1 <= to,
            (None, None) => true,
            _ => false,
        },
{
    let mut a: usize = find_head(text, from, to);
    if a >= to {
        return None;
    }
    let mut b: usize = find_head(text, a + 1, to);
    while b < to
        invariant
            text.wf(),
            from <= a < to,
            a < b <= to <= text@.len(),
            b < to ==> b + 3 <= to,
            b == next_head(text@, a + 1, to as int),
            nominal_shape(text@, from as int, to as int) == first_head_pair(
                text@,
                a as int,
                a + 1,
                to as int,
            ),
        decreases to - a,
    {
        if is_head_pair(text, a, b, to) {
            return Some((a, b + 3));
        }
        a = b;
        b = find_head(text, a + 1, to);
    }
    None
}

fn emit_zy3a_clause(em: &mut Emitter<'_>, from: usize, to: usize)
    requires
        old(em).wf(),
        from <= to <= old(em).chars().len(),
    ensures
        final(em).wf(),
        final(em).extends(
            old(em),
            nominal_clause(old(em).chars(), old(em).ex(), from as int, to as int),
        ),
{
    let ghost start = *em;
    if let Some((a, e)) = find_zy3a_shape(&em.text, from, to) {
        if !em.excluded_span(a, e) {
            em.advise_translationese(
                a,
                e,
                Severity::Info,
                Some((PhaseFamily::Nominalization, PhasePass::Lexical)),
                "翻譯腔：名詞化動詞鏈（2 處「的+動名詞」），建議改用動詞句".to_owned(),
            );
        }
    }
    assert(em.out() =~= start.out() + nominal_clause(
        start.chars(),
        start.ex(),
        from as int,
        to as int,
    ));
}

/// Two nominalised verbs in one clause that stand to each other as cause and
/// effect.
pub fn scan_zy3a_finite_nominalization(em: &mut Emitter<'_>)
    requires
        old(em).wf(),
    ensures
        final(em).wf(),
        final(em).extends(old(em), nominal_clauses(old(em).chars(), old(em).ex(), 0)),
{
    let ghost start = *em;
    let n: usize = em.text.len();
    let mut from: usize = 0;
    let mut end: usize = em.text.next(CLAUSE_MARKS.as_slice(), from, n);
    while end < n
        invariant
            em.wf(),
            n == em.chars().len(),
            from <= end <= n,
            end == next_of(em.chars(), CLAUSE_MARKS@, from as int, n as int),
            em.text == start.text,
            em.excluded == start.excluded,
            em.out() + nominal_clauses(em.chars(), em.ex(), from as int) =~= start.out()
                + nominal_clauses(em.chars(), em.ex(), 0),
        decreases n - from,
    {
        emit_zy3a_clause(em, from, end);
        from = end + 1;
        end = em.text.next(CLAUSE_MARKS.as_slice(), from, n);
    }
    emit_zy3a_clause(em, from, n);
}

/// False friends: the term, what to write instead, and how the pair is called.
pub const FALSE_FRIENDS: [(&'static str, &'static str, &'static str); 8] = [
    ("實際上", "其實", "實際上→其實"),
    ("字面上", "簡直/真就是", "字面上→簡直"),
    ("基本上", "大致而言/整體來看", "基本上→大致而言"),
    ("絕對地", "完全", "絕對地→完全"),
    ("肯定地", "絕對/無疑", "肯定地→絕對"),
    ("明顯地", "顯然", "明顯地→顯然"),
    ("嚴肅地表示", "鄭重表示/說真的", "嚴肅地表示→鄭重表示"),
    ("誠實地說", "老實說", "誠實地說→老實說"),
];

/// Where the clause that holds position `pos` begins.
pub open spec fn clause_start(t: Seq<char>, pos: int) -> int
    decreases pos,
{
    if pos <= 0 {
        0
    } else if CLAUSE_MARKS@.contains(t[pos - 1]) {
        pos
    } else {
        clause_start(t, pos - 1)
    }
}

/// Where it ends.
pub open spec fn clause_end(t: Seq<char>, pos: int) -> int {
    next_of(t, CLAUSE_MARKS@, pos, t.len() as int)
}

/// The clause that holds position `pos`.
pub fn clause_bounds(text: &Text<'_>, pos: usize) -> (r: (usize, usize))
    requires
        text.wf(),
        pos <= text@.len(),
    ensures
        r.0 == clause_start(text@, pos as int),
        r.1 == clause_end(text@, pos as int),
        r.0 <= pos <= r.1 <= text@.len(),
{
    let mut s: usize = pos;
    while s > 0 && !is_clause_boundary_char(text.ch(s - 1))
        invariant
            text.wf(),
            s <= pos <= text@.len(),
            clause_start(text@, s as int) == clause_start(text@, pos as int),
        decreases s,
    {
        s = s - 1;
    }
    (s, text.next(CLAUSE_MARKS.as_slice(), pos, text.len()))
}

/// Occurrences of the `k`-th term from `from` on that are not excluded.
pub open spec fn friend_hits(t: Seq<char>, ex: Seq<ByteRange>, k: int, from: int) -> Seq<(int, int)>
    decreases t.len() - from,
{
    match find_in(t, FALSE_FRIENDS@[k].0@, from, t.len() as int) {
        None => Seq::empty(),
        Some(p) => {
            let end = p + FALSE_FRIENDS@[k].0@.len();
            let here: Seq<(int, int)> = if span_excluded(t, ex, p, end) {
                Seq::empty()
            } else {
                seq![(p, k)]
            };
            if from < end <= t.len() {
                here + friend_hits(t, ex, k, end)
            } else {
                here
            }
        },
    }
}

/// Occurrences of the first `n` terms.
pub open spec fn all_friend_hits(t: Seq<char>, ex: Seq<ByteRange>, n: int) -> Seq<(int, int)>
    decreases n,
{
    if n <= 0 {
        Seq::empty()
    } else {
        all_friend_hits(t, ex, n - 1) + friend_hits(t, ex, n - 1, 0)
    }
}

/// Past the blanks at `i`, of which at most `n` are skipped.
pub open spec fn skip_blanks(t: Seq<char>, i: int, n: nat) -> int
    decreases n,
{
    if n > 0 && i < t.len() && (t[i] == ' ' || t[i] == '\t') {
        skip_blanks(t, i + 1, (n - 1) as nat)
    } else {
        i
    }
}

/// A gloss in round brackets with a Latin letter in it follows `after`, at
/// most two blanks away, and is not excluded.
pub open spec fn gloss_after(t: Seq<char>, ex: Seq<ByteRange>, after: int) -> bool {
    let i = skip_blanks(t, after, 2);
    &&& i < t.len()
    &&& t[i] == '('
    &&& match find_in(t, ")"@, i + 1, t.len() as int) {
        Some(close) => !span_excluded(t, ex, i, close + 1) && exists|j: int|
            i + 1 <= j < close && ascii_letter(#[trigger] t[j]),
        None => false,
    }
}

pub fn has_ascii_parenthetical_after(em: &Emitter<'_>, after: usize) -> (r: bool)
    requires
        em.wf(),
        after <= em.chars().len(),
    ensures
        r == gloss_after(em.chars(), em.ex(), after as int),
{
    let n: usize = em.text.len();
    let ghost t = em.chars();
    let mut i: usize = after;
    let mut left: usize = 2;
    while left > 0 && i < n && (em.text.ch(i) == ' ' || em.text.ch(i) == '\t')
        invariant
            em.wf(),
            t == em.chars(),
            n == t.len(),
            after <= i <= n,
            skip_blanks(t, i as int, left as nat) == skip_blanks(t, after as int, 2),
        decreases left,
    {
        i = i + 1;
        left = left - 1;
    }
    if i >= n || em.text.ch(i) != '(' {
        return false;
    }
    proof {
        reveal_strlit(")");
    }
    match em.text.find(")", i + 1, n) {
        None => false,
        Some(close) => {
            if em.excluded_span(i, close + 1) {
                return false;
            }
            let mut j: usize = i + 1;
            while j < close
                invariant
                    em.wf(),
                    t == em.chars(),
                    i + 1 <= j <= close < t.len(),
                    i == skip_blanks(t, after as int, 2),
                    t[i as int] == '(',
                    find_in(t, ")"@, i + 1, t.len() as int) == Some(close as int),
                    !span_excluded(t, em.ex(), i as int, close + 1),
                    forall|m: int| i + 1 <= m < j ==> !ascii_letter(#[trigger] t[m]),
                decreases close - j,
            {
                if is_ascii_letter(em.text.ch(j)) {
                    assert(ascii_letter(t[j as int]));
                    return true;
                }
                j = j + 1;
            }
            false
        },
    }
}

/// Two hits stand in one clause.
pub open spec fn same_clause(t: Seq<char>, p: int, q: int) -> bool {
    clause_start(t, p) == clause_start(t, q) && clause_end(t, p) == clause_end(t, q)
}

/// A hit is reported where its clause holds another, or a gloss follows it.
pub open spec fn friend_rule(
    t: Seq<char>,
    ex: Seq<ByteRange>,
    hits: Seq<(int, int)>,
) -> spec_fn(int) -> Seq<IssueModel> {
    |h: int|
        {
            let (p, k) = hits[h];
            let end = p + FALSE_FRIENDS@[k].0@.len();
            if_so(
                (exists|o: int|
                    0 <= o < hits.len() && o != h && same_clause(t, (#[trigger] hits[o]).0, p))
                    || gloss_after(t, ex, end),
                translationese_issue(
                    t,
                    p,
                    end,
                    Seq::empty(),
                    Severity::Info,
                    Some((PhaseFamily::FalseFriend, PhasePass::Lexical)),
                    ("翻譯腔：假性對應詞（"@ + FALSE_FRIENDS@[k].2@
                        + "），文脈含其他翻譯特徵，建議改寫為「"@) + FALSE_FRIENDS@[k].1@ + "」"@,
                ),
            )
        }
}

/// What the false-friend pass reports.
pub open spec fn friend_findings(t: Seq<char>, ex: Seq<ByteRange>) -> Seq<IssueModel> {
    let hits = all_friend_hits(t, ex, FALSE_FRIENDS@.len() as int);
    each(hits.len() as int, friend_rule(t, ex, hits))
}

pub open spec fn pairs(v: Seq<(usize, usize)>) -> Seq<(int, int)> {
    Seq::new(v.len(), |i: int| (v[i].0 as int, v[i].1 as int))
}

proof fn lemma_friends_nonempty()
    ensures
        forall|j: int| 0 <= j < 8 ==> (#[trigger] FALSE_FRIENDS@[j]).0@.len() >= 1,
{
    reveal_strlit("實際上");
    reveal_strlit("字面上");
    reveal_strlit("基本上");
    reveal_strlit("絕對地");
    reveal_strlit("肯定地");
    reveal_strlit("明顯地");
    reveal_strlit("嚴肅地表示");
    reveal_strlit("誠實地說");
}

fn collect_friend_hits(em: &Emitter<'_>) -> (r: Vec<(usize, usize)>)
    requires
        em.wf(),
    ensures
        pairs(r@) == all_friend_hits(em.chars(), em.ex(), FALSE_FRIENDS@.len() as int),
        forall|h: int|
            0 <= h < r@.len() ==> {
                &&& (#[trigger] r@[h]).1 < 8
                &&& r@[h].0 + FALSE_FRIENDS@[r@[h].1 as int].0@.len() <= em.chars().len()
            },
{
    let ghost t = em.chars();
    let ghost ex = em.ex();
    let n: usize = em.text.len();
    let mut r: Vec<(usize, usize)> = Vec::new();
    proof {
        lemma_friends_nonempty();
    }
    assert(pairs(r@) =~= all_friend_hits(t, ex, 0));
    let mut k: usize = 0;
    while k < 8
        invariant
            em.wf(),
            t == em.chars(),
            ex == em.ex(),
            n == t.len(),
            k <= 8,
            forall|j: int| 0 <= j < 8 ==> (#[trigger] FALSE_FRIENDS@[j]).0@.len() >= 1,
            pairs(r@) == all_friend_hits(t, ex, k as int),
            forall|h: int|
                0 <= h < r@.len() ==> {
                    &&& (#[trigger] r@[h]).1 < 8
                    &&& r@[h].0 + FALSE_FRIENDS@[r@[h].1 as int].0@.len() <= t.len()
                },
        decreases 8 - k,
    {
        let ghost before = pairs(r@);
        let term: &'static str = FALSE_FRIENDS[k].0;
        let width: usize = term.unicode_len();
        let mut from: usize = 0;
        let mut more: bool = true;
        while more
            invariant
                em.wf(),
                t == em.chars(),
                ex == em.ex(),
                n == t.len(),
                k < 8,
                from <= n,
                width == term@.len(),
                width >= 1,
                term == FALSE_FRIENDS@[k as int].0,
                pairs(r@) + (if more {
                    friend_hits(t, ex, k as int, from as int)
                } else {
                    Seq::empty()
                }) =~= before + friend_hits(t, ex, k as int, 0),
                forall|h: int|
                    0 <= h < r@.len() ==> {
                        &&& (#[trigger] r@[h]).1 < 8
                        &&& r@[h].0 + FALSE_FRIENDS@[r@[h].1 as int].0@.len() <= t.len()
                    },
            decreases
                    n - from + (if more {
                        1int
                    } else {
                        0int
                    }),
        {
            match em.text.find(term, from, n) {
                Some(p) => {
                    let ghost mid = pairs(r@);
                    if !em.excluded_span(p, p + width) {
                        r.push((p, k));
                        assert(pairs(r@) =~= mid.push((p as int, k as int)));
                    }
                    from = p + width;
                },
                None => {
                    more = false;
                },
            }
        }
        k = k + 1;
    }
    r
}

fn has_companion(text: &Text<'_>, hits: &Vec<(usize, usize)>, h: usize) -> (r: bool)
    requires
        text.wf(),
        h < hits@.len(),
        forall|o: int| 0 <= o < hits@.len() ==> (#[trigger] hits@[o]).0 <= text@.len(),
    ensures
        r == exists|o: int|
            0 <= o < hits@.len() && o != h && same_clause(
                text@,
                (#[trigger] pairs(hits@)[o]).0,
                hits@[h as int].0 as int,
            ),
{
    let own = clause_bounds(text, hits[h].0);
    let mut o: usize = 0;
    while o < hits.len()
        invariant
            text.wf(),
            o <= hits@.len(),
            h < hits@.len(),
            own.0 == clause_start(text@, hits@[h as int].0 as int),
            own.1 == clause_end(text@, hits@[h as int].0 as int),
            forall|m: int| 0 <= m < hits@.len() ==> (#[trigger] hits@[m]).0 <= text@.len(),
            forall|m: int|
                0 <= m < o && m != h ==> !same_clause(
                    text@,
                    (#[trigger] pairs(hits@)[m]).0,
                    hits@[h as int].0 as int,
                ),
        decreases hits@.len() - o,
    {
        if o != h {
            let other = clause_bounds(text, hits[o].0);
            if other.0 == own.0 && other.1 == own.1 {
                assert(same_clause(
                    text@,
                    pairs(hits@)[o as int].0,
                    hits@[h as int].0 as int,
                ));
                return true;
            }
        }
        o = o + 1;
    }
    false
}

/// False friends of English adverbs, where the clause shows other signs of
/// translation.
pub fn scan_zy4a_false_friends(em: &mut Emitter<'_>)
    requires
        old(em).wf(),
    ensures
        final(em).wf(),
        final(em).extends(old(em), friend_findings(old(em).chars(), old(em).ex())),
{
    let ghost start = *em;
    let hits = collect_friend_hits(em);
    let ghost model = pairs(hits@);
    let ghost f = friend_rule(em.chars(), em.ex(), model);
    let mut h: usize = 0;
    while h < hits.len()
        invariant
            em.wf(),
            h <= hits@.len(),
            model == pairs(hits@),
            f == friend_rule(start.chars(), start.ex(), model),
            forall|j: int|
                0 <= j < hits@.len() ==> {
                    &&& (#[trigger] hits@[j]).1 < 8
                    &&& hits@[j].0 + FALSE_FRIENDS@[hits@[j].1 as int].0@.len()
                        <= em.chars().len()
                },
            em.extends(&start, each(h as int, f)),
        decreases hits@.len() - h,
    {
        let (p, k) = hits[h];
        let _len: usize = em.text.len();
        let end: usize = p + FALSE_FRIENDS[k].0.unicode_len();
        if has_companion(&em.text, &hits, h) || has_ascii_parenthetical_after(em, end) {
            let head: String = joined(
                "翻譯腔：假性對應詞（",
                FALSE_FRIENDS[k].2,
                "），文脈含其他翻譯特徵，建議改寫為「",
            );
            let context: String = joined(head.as_str(), FALSE_FRIENDS[k].1, "」");
            em.advise_translationese(
                p,
                end,
                Severity::Info,
                Some((PhaseFamily::FalseFriend, PhasePass::Lexical)),
                context,
            );
        }
        assert(model[h as int] == (p as int, k as int));
        assert(em.out() =~= start.out() + (each(h as int, f) + f(h as int)));
        h = h + 1;
    }
}

/// What the lexical pass reports: superlatives, connectives, nominalisations
/// and false friends, in this order.
pub open spec fn lexical_findings(t: Seq<char>, ex: Seq<ByteRange>, register: Register) -> Seq<
    IssueModel,
> {
    each(SUPERLATIVES@.len() as int, superlative_rule(t, ex)) + connective_findings(t, ex, register)
        + nominal_clauses(t, ex, 0) + friend_findings(t, ex)
}

/// The calque detectors that read the bare text.
pub fn scan_translationese_lexical(em: &mut Emitter<'_>, register: Register)
    requires
        old(em).wf(),
    ensures
        final(em).wf(),
        final(em).extends(old(em), lexical_findings(old(em).chars(), old(em).ex(), register)),
{
    let ghost start = *em;
    scan_zy1a_superlative_yi_zhi(em);
    scan_zy2a_connective_calques(em, register);
    scan_zy3a_finite_nominalization(em);
    scan_zy4a_false_friends(em);
    assert(em.out() =~= start.out() + lexical_findings(start.chars(), start.ex(), register));
}

} // verus!
