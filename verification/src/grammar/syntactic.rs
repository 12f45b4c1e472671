//! Syntactic translationese: constructions carried over from English that
//! show in a sentence or a paragraph.
use vstd::prelude::*;

use crate::bounds::{Bound, BoundaryIndex, Paragraph};
use crate::emit::{
    excluded_in, is_excluded, message, message_of, span_excluded, translationese_issue, ByteRange,
    Emitter,
};
use crate::issue::{strings, IssueModel, Severity};
use crate::text::{
    any_at, any_in, bounded, byte_pos, contains_in, count_char, count_where, find_in,
    first_entry_in, has_char_in, least, lemma_byte_pos_monotone, next_of,
};
use crate::walk::{each, if_so, walk};

verus! {

/// Passive forms that are standard in technical prose.
pub const PASSIVE_WHITELIST: [&'static str; 6] = [
    "被定義為",
    "被廣泛採用",
    "被置於",
    "被稱作",
    "被觀察到",
    "被記錄為",
];

/// A 被 that counts: not excluded, and not one of the accepted forms.
pub open spec fn counted_bei(t: Seq<char>, ex: Seq<ByteRange>, to: int) -> spec_fn(int) -> bool {
    |i: int|
        t[i] == '被' && !span_excluded(t, ex, i, i + 1) && !any_at(t, PASSIVE_WHITELIST@, i, to)
}

/// `n / d`, rounded up.
pub open spec fn ceil_div(n: int, d: int) -> int {
    (n + d - 1) / d
}

/// The larger of two numbers.
pub open spec fn most(a: int, b: int) -> int {
    if a >= b {
        a
    } else {
        b
    }
}

/// More than two 被 per hundred characters of a paragraph, and more than two
/// in it.
pub open spec fn passive_rule(
    t: Seq<char>,
    ex: Seq<ByteRange>,
    paragraphs: Seq<Paragraph>,
) -> spec_fn(int) -> Seq<IssueModel> {
    |k: int|
        {
            let (from, to) = (paragraphs[k].start as int, paragraphs[k].end as int);
            let n = count_where(from, to, counted_bei(t, ex, to));
            if_so(
                to - from >= 20 && n > most(ceil_div(to - from, 50), 2),
                translationese_issue(
                    t,
                    from,
                    least(from + 2, to),
                    Seq::empty(),
                    Severity::Warning,
                    None,
                    message("翻譯腔：被動語態密度過高 — 段落內 "@, n, " 處 '被' 字句"@),
                ),
            )
        }
}

fn count_bei(em: &Emitter<'_>, from: usize, to: usize) -> (n: usize)
    requires
        em.wf(),
        from <= to <= em.chars().len(),
    ensures
        n == count_where(from as int, to as int, counted_bei(em.chars(), em.ex(), to as int)),
{
    let mut i: usize = from;
    let mut n: usize = 0;
    let ghost f = counted_bei(em.chars(), em.ex(), to as int);
    while i < to
        invariant
            em.wf(),
            from <= i <= to <= em.chars().len(),
            f == counted_bei(em.chars(), em.ex(), to as int),
            n == count_where(from as int, i as int, f),
            n <= i - from,
        decreases to - i,
    {
        if em.text.ch(i) == '被' && !em.excluded_span(i, i + 1) && !em.text.any_at(
            PASSIVE_WHITELIST.as_slice(),
            i,
            to,
        ) {
            assert(f(i as int));
            n = n + 1;
        } else {
            assert(!f(i as int));
        }
        i = i + 1;
    }
    n
}

/// Passive voice density: reports a paragraph that overuses 被.
pub fn scan_trans_passive_density(em: &mut Emitter<'_>, idx: &BoundaryIndex)
    requires
        old(em).wf(),
        idx.fits(old(em).chars().len() as int),
    ensures
        final(em).wf(),
        final(em).extends(
            old(em),
            each(
                idx.paragraphs@.len() as int,
                passive_rule(old(em).chars(), old(em).ex(), idx.paragraphs@),
            ),
        ),
{
    let ghost start = *em;
    let ghost f = passive_rule(em.chars(), em.ex(), idx.paragraphs@);
    let mut k: usize = 0;
    while k < idx.paragraphs.len()
        invariant
            em.wf(),
            k <= idx.paragraphs@.len(),
            idx.fits(em.chars().len() as int),
            f == passive_rule(start.chars(), start.ex(), idx.paragraphs@),
            em.extends(&start, each(k as int, f)),
        decreases idx.paragraphs@.len() - k,
    {
        let p = idx.paragraphs[k];
        let len: usize = p.end - p.start;
        if len >= 20 {
            let n: usize = count_bei(em, p.start, p.end);
            let per: usize = len / 50 + (if len % 50 == 0 {
                0
            } else {
                1
            });
            assert(per == ceil_div(len as int, 50));
            let limit: usize = if per >= 2 {
                per
            } else {
                2
            };
            if n > limit {
                let to: usize = bounded(p.start, 2, p.end);
                em.advise_translationese(
                    p.start,
                    to,
                    Severity::Warning,
                    None,
                    message_of("翻譯腔：被動語態密度過高 — 段落內 ", n, " 處 '被' 字句"),
                );
            }
        }
        assert(em.out() =~= start.out() + (each(k as int, f) + f(k as int)));
        k = k + 1;
    }
}

/// Abstract nouns that a calqued subject ends in.
pub const ABSTRACT_NOUNS: [&'static str; 6] = [
    "的減少",
    "的增加",
    "的提高",
    "的下降",
    "的通過",
    "的實施",
];

/// Verbs that such a subject takes.
pub const ABSTRACT_VERBS: [&'static str; 3] = ["導致", "標誌著", "意味著"];

/// A sentence whose first twenty characters hold the abstract noun and which
/// holds the verb.
pub open spec fn abstract_rule(
    t: Seq<char>,
    ex: Seq<ByteRange>,
    sentences: Seq<Bound>,
) -> spec_fn(int) -> Seq<IssueModel> {
    |k: int|
        {
            let (from, to) = (sentences[k].start as int, sentences[k].end as int);
            let (b, e) = (byte_pos(t, from), byte_pos(t, to));
            if_so(
                any_in(t, ABSTRACT_NOUNS@, from, least(from + 20, to)) && any_in(
                    t,
                    ABSTRACT_VERBS@,
                    from,
                    to,
                ) && !excluded_in(ex, b, b + least(e - b, 12)),
                translationese_issue(
                    t,
                    from,
                    to,
                    Seq::empty(),
                    Severity::Info,
                    None,
                    "翻譯腔：抽象主語（的+抽象名詞+導致/意味著），歐化句型"@,
                ),
            )
        }
}

/// Abstract subject: a noun phrase in 的減少 and the like at the head of a
/// sentence, with 導致 or a verb of its kind in it.
pub fn scan_trans_abstract_subject(em: &mut Emitter<'_>, idx: &BoundaryIndex)
    requires
        old(em).wf(),
        idx.fits(old(em).chars().len() as int),
    ensures
        final(em).wf(),
        final(em).extends(
            old(em),
            each(
                idx.sentences@.len() as int,
                abstract_rule(old(em).chars(), old(em).ex(), idx.sentences@),
            ),
        ),
{
    let ghost start = *em;
    let ghost f = abstract_rule(em.chars(), em.ex(), idx.sentences@);
    let mut k: usize = 0;
    while k < idx.sentences.len()
        invariant
            em.wf(),
            k <= idx.sentences@.len(),
            idx.fits(em.chars().len() as int),
            f == abstract_rule(start.chars(), start.ex(), idx.sentences@),
            em.extends(&start, each(k as int, f)),
        decreases idx.sentences@.len() - k,
    {
        let s = idx.sentences[k];
        let head: usize = bounded(s.start, 20, s.end);
        if em.text.any_in(ABSTRACT_NOUNS.as_slice(), s.start, head) && em.text.any_in(
            ABSTRACT_VERBS.as_slice(),
            s.start,
            s.end,
        ) {
            proof {
                lemma_byte_pos_monotone(em.chars(), s.start as int, s.end as int);
            }
            let b: usize = em.text.byte(s.start);
            let e: usize = em.text.byte(s.end);
            let near: usize = if e - b <= 12 {
                e
            } else {
                b + 12
            };
            if !is_excluded(b, near, em.excluded.as_slice()) {
                em.advise_translationese(
                    s.start,
                    s.end,
                    Severity::Info,
                    None,
                    "翻譯腔：抽象主語（的+抽象名詞+導致/意味著），歐化句型".to_owned(),
                );
            }
        }
        assert(em.out() =~= start.out() + (each(k as int, f) + f(k as int)));
        k = k + 1;
    }
}

/// Words that open a condition.
pub const CONDITIONALS: [&'static str; 3] = ["如果", "假如", "若"];

/// The first conditional of the list that stands in the second half of a
/// sentence of six characters or more.
pub open spec fn displaced_rule(
    t: Seq<char>,
    ex: Seq<ByteRange>,
    sentences: Seq<Bound>,
) -> spec_fn(int) -> Seq<IssueModel> {
    |k: int|
        {
            let (from, to) = (sentences[k].start as int, sentences[k].end as int);
            let middle = from + (to - from) / 2;
            match first_entry_in(t, CONDITIONALS@, 0, middle, to) {
                Some((c, p)) => {
                    let end = p + CONDITIONALS@[c]@.len();
                    if_so(
                        to - from >= 6 && !span_excluded(t, ex, p, end),
                        translationese_issue(
                            t,
                            p,
                            end,
                            Seq::empty(),
                            Severity::Info,
                            None,
                            if contains_in(t, "的話"@, end, to) {
                                "翻譯腔：後置條件句（…如果…的話），建議將條件前置"@
                            } else {
                                "翻譯腔：後置條件句，建議將條件前置"@
                            },
                        ),
                    )
                },
                None => Seq::empty(),
            }
        }
}

/// A condition that stands after its main clause.
pub fn scan_trans_displaced_conditional(em: &mut Emitter<'_>, idx: &BoundaryIndex)
    requires
        old(em).wf(),
        idx.fits(old(em).chars().len() as int),
    ensures
        final(em).wf(),
        final(em).extends(
            old(em),
            each(
                idx.sentences@.len() as int,
                displaced_rule(old(em).chars(), old(em).ex(), idx.sentences@),
            ),
        ),
{
    let ghost start = *em;
    let ghost f = displaced_rule(em.chars(), em.ex(), idx.sentences@);
    let mut k: usize = 0;
    while k < idx.sentences.len()
        invariant
            em.wf(),
            k <= idx.sentences@.len(),
            idx.fits(em.chars().len() as int),
            f == displaced_rule(start.chars(), start.ex(), idx.sentences@),
            em.extends(&start, each(k as int, f)),
        decreases idx.sentences@.len() - k,
    {
        let s = idx.sentences[k];
        if s.end - s.start >= 6 {
            let middle: usize = s.start + (s.end - s.start) / 2;
            if let Some((c, p)) = em.text.first_entry(CONDITIONALS.as_slice(), middle, s.end) {
                let end: usize = p + CONDITIONALS[c].unicode_len();
                if !em.excluded_span(p, end) {
                    let context: &str = if em.text.find("的話", end, s.end).is_some() {
                        "翻譯腔：後置條件句（…如果…的話），建議將條件前置"
                    } else {
                        "翻譯腔：後置條件句，建議將條件前置"
                    };
                    em.advise_translationese(p, end, Severity::Info, None, context.to_owned());
                }
            }
        }
        assert(em.out() =~= start.out() + (each(k as int, f) + f(k as int)));
        k = k + 1;
    }
}

/// Pronouns that open a sentence.
pub const PRONOUNS: [&'static str; 5] = ["他", "她", "它", "他們", "她們"];

/// The finding on a run of `n` sentences whose first begins at `first`.
pub open spec fn pronoun_run(t: Seq<char>, ex: Seq<ByteRange>, first: int, n: int) -> Seq<
    IssueModel,
> {
    if_so(
        n >= 3 && !span_excluded(t, ex, first, first + 1),
        translationese_issue(
            t,
            first,
            first + 1,
            Seq::empty(),
            Severity::Info,
            None,
            message("翻譯腔：代詞過度使用 — 連續 "@, n as nat, " 句以代詞開頭"@),
        ),
    )
}

/// The runs of the sentences `k..last`, `n` sentences from `first` on being
/// open.
pub open spec fn pronoun_runs(
    t: Seq<char>,
    ex: Seq<ByteRange>,
    sentences: Seq<Bound>,
    k: int,
    last: int,
    first: int,
    n: int,
) -> Seq<IssueModel>
    decreases last - k,
{
    if k >= last {
        pronoun_run(t, ex, first, n)
    } else if any_at(t, PRONOUNS@, sentences[k].start as int, sentences[k].end as int) {
        pronoun_runs(
            t,
            ex,
            sentences,
            k + 1,
            last,
            if n == 0 {
                sentences[k].start as int
            } else {
                first
            },
            n + 1,
        )
    } else {
        pronoun_run(t, ex, first, n) + pronoun_runs(t, ex, sentences, k + 1, last, first, 0)
    }
}

pub open spec fn pronoun_rule(
    t: Seq<char>,
    ex: Seq<ByteRange>,
    sentences: Seq<Bound>,
    paragraphs: Seq<Paragraph>,
) -> spec_fn(int) -> Seq<IssueModel> {
    |k: int|
        pronoun_runs(
            t,
            ex,
            sentences,
            paragraphs[k].first as int,
            paragraphs[k].last as int,
            0,
            0,
        )
}

fn report_pronoun_run(em: &mut Emitter<'_>, first: usize, n: usize)
    requires
        old(em).wf(),
        n >= 3 ==> first < old(em).chars().len(),
    ensures
        final(em).wf(),
        final(em).extends(
            old(em),
            pronoun_run(old(em).chars(), old(em).ex(), first as int, n as int),
        ),
{
    let ghost start = *em;
    let _len: usize = em.text.len();
    if n >= 3 && !em.excluded_span(first, first + 1) {
        em.advise_translationese(
            first,
            first + 1,
            Severity::Info,
            None,
            message_of("翻譯腔：代詞過度使用 — 連續 ", n, " 句以代詞開頭"),
        );
    }
    assert(em.out() =~= start.out() + pronoun_run(
        start.chars(),
        start.ex(),
        first as int,
        n as int,
    ));
}

/// Three or more sentences on end that open on a pronoun.
pub fn scan_trans_pronoun_overuse(em: &mut Emitter<'_>, idx: &BoundaryIndex)
    requires
        old(em).wf(),
        idx.fits(old(em).chars().len() as int),
    ensures
        final(em).wf(),
        final(em).extends(
            old(em),
            each(
                idx.paragraphs@.len() as int,
                pronoun_rule(old(em).chars(), old(em).ex(), idx.sentences@, idx.paragraphs@),
            ),
        ),
{
    let ghost start = *em;
    let ghost f = pronoun_rule(em.chars(), em.ex(), idx.sentences@, idx.paragraphs@);
    proof {
        reveal_strlit("他");
        reveal_strlit("她");
        reveal_strlit("它");
        reveal_strlit("他們");
        reveal_strlit("她們");
    }
    let mut k: usize = 0;
    while k < idx.paragraphs.len()
        invariant
            em.wf(),
            k <= idx.paragraphs@.len(),
            idx.fits(em.chars().len() as int),
            f == pronoun_rule(start.chars(), start.ex(), idx.sentences@, idx.paragraphs@),
            em.extends(&start, each(k as int, f)),
            forall|j: int| 0 <= j < 5 ==> (#[trigger] PRONOUNS@[j])@.len() >= 1,
        decreases idx.paragraphs@.len() - k,
    {
        let ghost before = *em;
        let p = idx.paragraphs[k];
        let mut j: usize = p.first;
        let mut first: usize = 0;
        let mut n: usize = 0;
        while j < p.last
            invariant
                em.wf(),
                p.first <= j <= p.last <= idx.sentences@.len(),
                idx.fits(em.chars().len() as int),
                n <= j - p.first,
                n > 0 ==> first < em.chars().len(),
                em.text == before.text,
                em.excluded == before.excluded,
                em.out() + pronoun_runs(
                    em.chars(),
                    em.ex(),
                    idx.sentences@,
                    j as int,
                    p.last as int,
                    first as int,
                    n as int,
                ) =~= before.out() + pronoun_runs(
                    em.chars(),
                    em.ex(),
                    idx.sentences@,
                    p.first as int,
                    p.last as int,
                    0,
                    0,
                ),
                forall|i: int| 0 <= i < 5 ==> (#[trigger] PRONOUNS@[i])@.len() >= 1,
            decreases p.last - j,
        {
            let s = idx.sentences[j];
            if em.text.any_at(PRONOUNS.as_slice(), s.start, s.end) {
                if n == 0 {
                    first = s.start;
                }
                n = n + 1;
            } else {
                report_pronoun_run(em, first, n);
                n = 0;
            }
            j = j + 1;
        }
        report_pronoun_run(em, first, n);
        assert(em.out() =~= start.out() + (each(k as int, f) + f(k as int)));
        k = k + 1;
    }
}

/// Copulas with a classifier.
pub const COPULA_PATTERNS: [&'static str; 3] = ["是一個", "是一名", "是一位"];

/// First pattern, from the `k`-th on, that stands in `from..to` with a 的
/// somewhere after it.
pub open spec fn copula_entry(t: Seq<char>, k: int, from: int, to: int) -> Option<(int, int)>
    decreases COPULA_PATTERNS@.len() - k,
{
    if k < 0 || k >= COPULA_PATTERNS@.len() {
        None
    } else {
        match find_in(t, COPULA_PATTERNS@[k]@, from, to) {
            Some(p) => if contains_in(t, "的"@, p + COPULA_PATTERNS@[k]@.len(), to) {
                Some((p, p + COPULA_PATTERNS@[k]@.len()))
            } else {
                copula_entry(t, k + 1, from, to)
            },
            None => copula_entry(t, k + 1, from, to),
        }
    }
}

pub open spec fn copula_rule(
    t: Seq<char>,
    ex: Seq<ByteRange>,
    sentences: Seq<Bound>,
) -> spec_fn(int) -> Seq<IssueModel> {
    |k: int|
        match copula_entry(t, 0, sentences[k].start as int, sentences[k].end as int) {
            Some((p, end)) => if_so(
                !span_excluded(t, ex, p, end),
                translationese_issue(
                    t,
                    p,
                    end,
                    Seq::empty(),
                    Severity::Info,
                    None,
                    "翻譯腔：繫詞+量詞膨脹（是一個/名/位…的…），建議刪除繫詞+量詞"@,
                ),
            ),
            None => Seq::empty(),
        }
}

fn find_copula(em: &Emitter<'_>, from: usize, to: usize) -> (r: Option<(usize, usize)>)
    requires
        em.wf(),
        from <= to <= em.chars().len(),
    ensures
        match (r, copula_entry(em.chars(), 0, from as int, to as int)) {
            (Some(a), Some(b)) => a.0 == b.0 && a.1 == b.1 && a.0 <= a.1 <= to,
            (None, None) => true,
            _ => false,
        },
{
    let mut k: usize = 0;
    while k < 3
        invariant
            em.wf(),
            k <= 3,
            from <= to <= em.chars().len(),
            copula_entry(em.chars(), k as int, from as int, to as int) == copula_entry(
                em.chars(),
                0,
                from as int,
                to as int,
            ),
        decreases 3 - k,
    {
        if let Some(p) = em.text.find(COPULA_PATTERNS[k], from, to) {
            let end: usize = p + COPULA_PATTERNS[k].unicode_len();
            if em.text.find("的", end, to).is_some() {
                return Some((p, end));
            }
        }
        k = k + 1;
    }
    None
}

/// Copula with a classifier before a 的 clause, one per sentence.
pub fn scan_trans_copula_classifier(em: &mut Emitter<'_>, idx: &BoundaryIndex)
    requires
        old(em).wf(),
        idx.fits(old(em).chars().len() as int),
    ensures
        final(em).wf(),
        final(em).extends(
            old(em),
            each(
                idx.sentences@.len() as int,
                copula_rule(old(em).chars(), old(em).ex(), idx.sentences@),
            ),
        ),
{
    let ghost start = *em;
    let ghost f = copula_rule(em.chars(), em.ex(), idx.sentences@);
    let mut k: usize = 0;
    while k < idx.sentences.len()
        invariant
            em.wf(),
            k <= idx.sentences@.len(),
            idx.fits(em.chars().len() as int),
            f == copula_rule(start.chars(), start.ex(), idx.sentences@),
            em.extends(&start, each(k as int, f)),
        decreases idx.sentences@.len() - k,
    {
        let s = idx.sentences[k];
        if let Some((p, end)) = find_copula(em, s.start, s.end) {
            if !em.excluded_span(p, end) {
                em.advise_translationese(
                    p,
                    end,
                    Severity::Info,
                    None,
                    "翻譯腔：繫詞+量詞膨脹（是一個/名/位…的…），建議刪除繫詞+量詞".to_owned(),
                );
            }
        }
        assert(em.out() =~= start.out() + (each(k as int, f) + f(k as int)));
        k = k + 1;
    }
}

/// A form and what to write in its place.
pub const CONFUSIONS: [(&'static str, &'static str); 10] = [
    ("仔細的看", "仔細地看"),
    ("認真的聽", "認真地聽"),
    ("慢慢的走", "慢慢地走"),
    ("靜靜的坐", "靜靜地坐"),
    ("快速的跑", "快速地跑"),
    ("努力的工作", "努力地工作"),
    ("安靜的離開", "安靜地離開"),
    ("輕輕的放", "輕輕地放"),
    ("默默的承受", "默默地承受"),
    ("悄悄的走", "悄悄地走"),
];

/// Adverbs that can do without 地.
pub const ADVERBS: [(&'static str, &'static str); 10] = [
    ("慢慢地", "慢慢"),
    ("靜靜地", "靜靜"),
    ("認真地", "認真"),
    ("安靜地", "安靜"),
    ("輕輕地", "輕輕"),
    ("默默地", "默默"),
    ("悄悄地", "悄悄"),
    ("漸漸地", "漸漸"),
    ("緩緩地", "緩緩"),
    ("偷偷地", "偷偷"),
];

/// One occurrence of a form that is to be rewritten.
pub open spec fn rewrite_step(
    t: Seq<char>,
    ex: Seq<ByteRange>,
    entry: (&'static str, &'static str),
    severity: Severity,
    context: Seq<char>,
) -> spec_fn(int) -> (int, Seq<IssueModel>) {
    |p: int|
        {
            let end = p + entry.0@.len();
            (
                end,
                if_so(
                    !span_excluded(t, ex, p, end),
                    translationese_issue(t, p, end, seq![entry.1@], severity, None, context),
                ),
            )
        }
}

/// Every occurrence of every form of the table.
pub open spec fn rewrite_rule(
    t: Seq<char>,
    ex: Seq<ByteRange>,
    table: Seq<(&'static str, &'static str)>,
    severity: Severity,
    context: Seq<char>,
) -> spec_fn(int) -> Seq<IssueModel> {
    |k: int|
        walk(
            t,
            table[k].0@,
            0,
            t.len() as int,
            rewrite_step(t, ex, table[k], severity, context),
        )
}

fn scan_rewrites(
    em: &mut Emitter<'_>,
    table: &[(&'static str, &'static str)],
    severity: Severity,
    context: &'static str,
)
    requires
        old(em).wf(),
        forall|k: int| 0 <= k < table@.len() ==> (#[trigger] table@[k]).0@.len() >= 1,
    ensures
        final(em).wf(),
        final(em).extends(
            old(em),
            each(
                table@.len() as int,
                rewrite_rule(old(em).chars(), old(em).ex(), table@, severity, context@),
            ),
        ),
{
    let ghost start = *em;
    let ghost f = rewrite_rule(em.chars(), em.ex(), table@, severity, context@);
    let n: usize = em.text.len();
    let mut k: usize = 0;
    while k < table.len()
        invariant
            em.wf(),
            k <= table@.len(),
            n == em.chars().len(),
            forall|j: int| 0 <= j < table@.len() ==> (#[trigger] table@[j]).0@.len() >= 1,
            f == rewrite_rule(start.chars(), start.ex(), table@, severity, context@),
            em.extends(&start, each(k as int, f)),
        decreases table@.len() - k,
    {
        let ghost before = *em;
        let entry = table[k];
        let ghost step = rewrite_step(em.chars(), em.ex(), entry, severity, context@);
        let width: usize = entry.0.unicode_len();
        let mut from: usize = 0;
        let mut more: bool = true;
        while more
            invariant
                em.wf(),
                from <= n,
                n == em.chars().len(),
                width == entry.0@.len(),
                width >= 1,
                em.text == before.text,
                em.excluded == before.excluded,
                step == rewrite_step(before.chars(), before.ex(), entry, severity, context@),
                em.out() + (if more {
                    walk(em.chars(), entry.0@, from as int, n as int, step)
                } else {
                    Seq::empty()
                }) =~= before.out() + walk(em.chars(), entry.0@, 0, n as int, step),
            decreases
                    n - from + (if more {
                        1int
                    } else {
                        0int
                    }),
        {
            match em.text.find(entry.0, from, n) {
                Some(p) => {
                    let end: usize = p + width;
                    let ghost mid = *em;
                    if !em.excluded_span(p, end) {
                        let mut fix: Vec<String> = Vec::new();
                        fix.push(entry.1.to_owned());
                        assert(strings(fix@) =~= seq![entry.1@]);
                        em.report_translationese(
                            p,
                            end,
                            fix,
                            severity,
                            None,
                            context.to_owned(),
                        );
                    }
                    assert(em.out() =~= mid.out() + step(p as int).1);
                    from = end;
                },
                None => {
                    more = false;
                },
            }
        }
        assert(em.out() =~= start.out() + (each(k as int, f) + f(k as int)));
        k = k + 1;
    }
}

/// 的 where 地 belongs between an adverb and its verb.
pub fn scan_trans_adverbial_particle_mixup(em: &mut Emitter<'_>)
    requires
        old(em).wf(),
    ensures
        final(em).wf(),
        final(em).extends(
            old(em),
            each(
                CONFUSIONS@.len() as int,
                rewrite_rule(
                    old(em).chars(),
                    old(em).ex(),
                    CONFUSIONS@,
                    Severity::Warning,
                    "翻譯腔：的/地混淆 — 副詞修飾動詞應用「地」"@,
                ),
            ),
        ),
{
    proof {
        reveal_strlit("仔細的看");
        reveal_strlit("認真的聽");
        reveal_strlit("慢慢的走");
        reveal_strlit("靜靜的坐");
        reveal_strlit("快速的跑");
        reveal_strlit("努力的工作");
        reveal_strlit("安靜的離開");
        reveal_strlit("輕輕的放");
        reveal_strlit("默默的承受");
        reveal_strlit("悄悄的走");
    }
    scan_rewrites(
        em,
        CONFUSIONS.as_slice(),
        Severity::Warning,
        "翻譯腔：的/地混淆 — 副詞修飾動詞應用「地」",
    );
}

/// 地 after a disyllabic adverb that does not need it.
pub fn scan_trans_adverbial_particle_redundant(em: &mut Emitter<'_>)
    requires
        old(em).wf(),
    ensures
        final(em).wf(),
        final(em).extends(
            old(em),
            each(
                ADVERBS@.len() as int,
                rewrite_rule(
                    old(em).chars(),
                    old(em).ex(),
                    ADVERBS@,
                    Severity::Info,
                    "翻譯腔：雙音節副詞+「地」冗餘，可省略「地」"@,
                ),
            ),
        ),
{
    proof {
        reveal_strlit("慢慢地");
        reveal_strlit("靜靜地");
        reveal_strlit("認真地");
        reveal_strlit("安靜地");
        reveal_strlit("輕輕地");
        reveal_strlit("默默地");
        reveal_strlit("悄悄地");
        reveal_strlit("漸漸地");
        reveal_strlit("緩緩地");
        reveal_strlit("偷偷地");
    }
    scan_rewrites(
        em,
        ADVERBS.as_slice(),
        Severity::Info,
        "翻譯腔：雙音節副詞+「地」冗餘，可省略「地」",
    );
}

/// Marks that divide a sentence into clauses for the count of 的.
pub const COMMAS: [char; 2] = ['，', ','];

/// A clause with four 的 or more.
pub open spec fn de_clause(t: Seq<char>, ex: Seq<ByteRange>, from: int, to: int) -> Seq<
    IssueModel,
> {
    if_so(
        from < to && count_char(t, '的', from, to) >= 4 && !span_excluded(t, ex, from, to),
        translationese_issue(
            t,
            from,
            to,
            Seq::empty(),
            Severity::Warning,
            None,
            message(
                "翻譯腔：的的不休 — 一個子句中出現 "@,
                count_char(t, '的', from, to),
                " 個「的」（余光中）"@,
            ),
        ),
    )
}

/// The clauses of `from..to`, one after another.
pub open spec fn de_clauses(t: Seq<char>, ex: Seq<ByteRange>, from: int, to: int) -> Seq<IssueModel>
    decreases to - from,
{
    let end = next_of(t, COMMAS@, from, to);
    if from <= end < to {
        de_clause(t, ex, from, end) + de_clauses(t, ex, end + 1, to)
    } else {
        de_clause(t, ex, from, to)
    }
}

pub open spec fn de_chain_rule(
    t: Seq<char>,
    ex: Seq<ByteRange>,
    sentences: Seq<Bound>,
) -> spec_fn(int) -> Seq<IssueModel> {
    |k: int| de_clauses(t, ex, sentences[k].start as int, sentences[k].end as int)
}

fn emit_excessive_de_chain(em: &mut Emitter<'_>, from: usize, to: usize)
    requires
        old(em).wf(),
        from <= to <= old(em).chars().len(),
    ensures
        final(em).wf(),
        final(em).extends(
            old(em),
            de_clause(old(em).chars(), old(em).ex(), from as int, to as int),
        ),
{
    let ghost start = *em;
    if from < to {
        let n: usize = em.text.count('的', from, to);
        if n >= 4 && !em.excluded_span(from, to) {
            em.advise_translationese(
                from,
                to,
                Severity::Warning,
                None,
                message_of("翻譯腔：的的不休 — 一個子句中出現 ", n, " 個「的」（余光中）"),
            );
        }
    }
    assert(em.out() =~= start.out() + de_clause(start.chars(), start.ex(), from as int, to as int));
}

/// Four or more 的 in one clause.
pub fn scan_trans_excessive_de_chain(em: &mut Emitter<'_>, idx: &BoundaryIndex)
    requires
        old(em).wf(),
        idx.fits(old(em).chars().len() as int),
    ensures
        final(em).wf(),
        final(em).extends(
            old(em),
            each(
                idx.sentences@.len() as int,
                de_chain_rule(old(em).chars(), old(em).ex(), idx.sentences@),
            ),
        ),
{
    let ghost start = *em;
    let ghost f = de_chain_rule(em.chars(), em.ex(), idx.sentences@);
    let mut k: usize = 0;
    while k < idx.sentences.len()
        invariant
            em.wf(),
            k <= idx.sentences@.len(),
            idx.fits(em.chars().len() as int),
            f == de_chain_rule(start.chars(), start.ex(), idx.sentences@),
            em.extends(&start, each(k as int, f)),
        decreases idx.sentences@.len() - k,
    {
        let ghost before = *em;
        let s = idx.sentences[k];
        let mut from: usize = s.start;
        let mut end: usize = em.text.next(COMMAS.as_slice(), from, s.end);
        while end < s.end
            invariant
                em.wf(),
                from <= end <= s.end <= em.chars().len(),
                end == next_of(em.chars(), COMMAS@, from as int, s.end as int),
                em.text == before.text,
                em.excluded == before.excluded,
                em.out() + de_clauses(em.chars(), em.ex(), from as int, s.end as int)
                    =~= before.out() + de_clauses(
                    em.chars(),
                    em.ex(),
                    s.start as int,
                    s.end as int,
                ),
            decreases s.end - from,
        {
            emit_excessive_de_chain(em, from, end);
            from = end + 1;
            end = em.text.next(COMMAS.as_slice(), from, s.end);
        }
        emit_excessive_de_chain(em, from, s.end);
        assert(em.out() =~= start.out() + (each(k as int, f) + f(k as int)));
        k = k + 1;
    }
}

/// Marks of a date.
pub const DATE_MARKS: [char; 13] = [
    '年',
    '月',
    '日',
    '0',
    '1',
    '2',
    '3',
    '4',
    '5',
    '6',
    '7',
    '8',
    '9',
];

/// How many tense markers stand within `from..to`.
pub open spec fn tense_markers(t: Seq<char>, from: int, to: int) -> nat {
    count_char(t, '曾', from, to) + count_char(t, '已', from, to) + count_char(t, '過', from, to)
        + count_char(t, '了', from, to)
}

/// A dated sentence with three tense markers or more.
pub open spec fn tense_rule(
    t: Seq<char>,
    ex: Seq<ByteRange>,
    sentences: Seq<Bound>,
) -> spec_fn(int) -> Seq<IssueModel> {
    |k: int|
        {
            let (from, to) = (sentences[k].start as int, sentences[k].end as int);
            let (b, e) = (byte_pos(t, from), byte_pos(t, to));
            let n = tense_markers(t, from, to);
            if_so(
                has_char_in(t, DATE_MARKS@, from, to) && n >= 3 && !excluded_in(
                    ex,
                    b,
                    b + least(e - b, 6),
                ),
                translationese_issue(
                    t,
                    from,
                    to,
                    Seq::empty(),
                    Severity::Info,
                    None,
                    message("翻譯腔：時態標記冗餘 — 句中已有日期，"@, n, " 個時態詞多餘"@),
                ),
            )
        }
}

proof fn lemma_four_counts(t: Seq<char>, from: int, to: int)
    requires
        0 <= from <= to <= t.len(),
    ensures
        tense_markers(t, from, to) <= to - from,
    decreases to - from,
{
    if from < to {
        lemma_four_counts(t, from, to - 1);
    }
}

/// Tense markers that an explicit date makes redundant.
pub fn scan_trans_tense_marker(em: &mut Emitter<'_>, idx: &BoundaryIndex)
    requires
        old(em).wf(),
        idx.fits(old(em).chars().len() as int),
    ensures
        final(em).wf(),
        final(em).extends(
            old(em),
            each(
                idx.sentences@.len() as int,
                tense_rule(old(em).chars(), old(em).ex(), idx.sentences@),
            ),
        ),
{
    let ghost start = *em;
    let ghost f = tense_rule(em.chars(), em.ex(), idx.sentences@);
    let mut k: usize = 0;
    while k < idx.sentences.len()
        invariant
            em.wf(),
            k <= idx.sentences@.len(),
            idx.fits(em.chars().len() as int),
            f == tense_rule(start.chars(), start.ex(), idx.sentences@),
            em.extends(&start, each(k as int, f)),
        decreases idx.sentences@.len() - k,
    {
        let s = idx.sentences[k];
        if em.text.has_char(DATE_MARKS.as_slice(), s.start, s.end) {
            proof {
                lemma_four_counts(em.chars(), s.start as int, s.end as int);
                lemma_byte_pos_monotone(em.chars(), s.start as int, s.end as int);
            }
            let a: usize = em.text.count('曾', s.start, s.end);
            let b: usize = em.text.count('已', s.start, s.end);
            let c: usize = em.text.count('過', s.start, s.end);
            let d: usize = em.text.count('了', s.start, s.end);
            let n: usize = a + b + c + d;
            let from: usize = em.text.byte(s.start);
            let to: usize = em.text.byte(s.end);
            let near: usize = if to - from <= 6 {
                to
            } else {
                from + 6
            };
            if n >= 3 && !is_excluded(from, near, em.excluded.as_slice()) {
                em.advise_translationese(
                    s.start,
                    s.end,
                    Severity::Info,
                    None,
                    message_of("翻譯腔：時態標記冗餘 — 句中已有日期，", n, " 個時態詞多餘"),
                );
            }
        }
        assert(em.out() =~= start.out() + (each(k as int, f) + f(k as int)));
        k = k + 1;
    }
}

} // verus!
