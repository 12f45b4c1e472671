//! Calque detectors that read the sentences and paragraphs of the document.
use vstd::prelude::*;
use vstd::string::*;

use crate::bounds::{Bound, BoundaryIndex, Paragraph};
use crate::emit::{
    decimal, hits, message, message_of, numeral, span_excluded, translationese_issue, ByteRange,
    Emitter,
};
use crate::grammar::calque::{another_dang_word, reach, starts_another_dang_word};
use crate::issue::{strings, IssueModel, PhaseFamily, PhasePass, Severity};
use crate::text::{any_at, bounded, find_in, least, Text};
use crate::walk::{each, if_so, walk};

verus! {

/// The register of the document, and the limits that hold in it.
#[derive(Clone, Copy, Debug)]
pub struct Domain {
    pub name: &'static str,
    /// 之一 per two hundred characters, in tenths.
    pub yi_zhi_tenths: usize,
    /// Nominalised heads on end.
    pub chain_min: usize,
    /// Characters of a pre-modifier.
    pub premodifier_chars: usize,
    /// 的 of a pre-modifier.
    pub premodifier_de: usize,
}

/// `tenths` with one decimal place.
pub open spec fn one_decimal(tenths: nat) -> Seq<char> {
    decimal(tenths / 10) + "."@ + decimal(tenths % 10)
}

/// `n / d`, rounded to the nearest whole number, and half way to the even one.
pub open spec fn rounded(n: int, d: int) -> nat {
    let (q, r) = (n / d, n % d);
    if 2 * r > d || (2 * r == d && q % 2 == 1) {
        (q + 1) as nat
    } else {
        q as nat
    }
}

/// `n / d`, rounded to the nearest whole number, and half way to the even one.
/// `most` bounds the quotient.
pub(crate) fn round_to_even(n: u128, d: u128, most: u64) -> (r: usize)
    requires
        0 < d <= u64::MAX,
        n <= most * d,
        most < u32::MAX,
    ensures
        r == rounded(n as int, d as int),
{
    let q: u128 = n / d;
    let rest: u128 = n % d;
    proof {
        vstd::arithmetic::div_mod::lemma_div_is_ordered(n as int, most * d, d as int);
        vstd::arithmetic::div_mod::lemma_div_multiples_vanish(most as int, d as int);
        assert(d * most == most * d) by (nonlinear_arith);
    }
    if 2 * rest > d || (2 * rest == d && q % 2 == 1) {
        (q + 1) as usize
    } else {
        q as usize
    }
}

/// Density per two hundred characters in tenths.
pub open spec fn density_tenths(count: nat, chars: int) -> nat {
    rounded(2000 * count as int, chars)
}

pub open spec fn yi_zhi_context(count: nat, chars: int, domain: Domain) -> Seq<char> {
    message("翻譯腔：之一 段落密度過高 — "@, count, " 處 / 200字 ("@) + one_decimal(
        density_tenths(count, chars),
    ) + ")，超過 "@ + domain.name@ + " 域閾值 "@ + one_decimal(domain.yi_zhi_tenths as nat)
}

/// A paragraph of a hundred characters or more with at least two 之一 and at
/// least as many per two hundred characters as the domain allows. The finding
/// stands on the first of them.
pub open spec fn yi_zhi_rule(
    t: Seq<char>,
    ex: Seq<ByteRange>,
    paragraphs: Seq<Paragraph>,
    domain: Domain,
) -> spec_fn(int) -> Seq<IssueModel> {
    |k: int|
        {
            let (from, to) = (paragraphs[k].start as int, paragraphs[k].end as int);
            let found = hits(t, ex, "之一"@, from, to);
            if_so(
                to - from >= 100 && found.len() >= 2 && 2000 * found.len() >= domain.yi_zhi_tenths * (
                to - from),
                translationese_issue(
                    t,
                    found[0],
                    found[0] + 2,
                    Seq::empty(),
                    Severity::Info,
                    Some((PhaseFamily::YiZhi, PhasePass::Indexed)),
                    yi_zhi_context(found.len(), to - from, domain),
                ),
            )
        }
}

pub fn tenths_of(tenths: usize) -> (r: String)
    ensures
        r@ == one_decimal(tenths as nat),
{
    numeral(tenths / 10).concat(".").concat(numeral(tenths % 10).as_str())
}

fn yi_zhi_message(count: usize, chars: usize, domain: Domain) -> (r: String)
    requires
        100 <= chars,
        count <= chars,
    ensures
        r@ == yi_zhi_context(count as nat, chars as int, domain),
{
    let tenths: usize = round_to_even(2000 * (count as u128), chars as u128, 2000);
    let head: String = message_of("翻譯腔：之一 段落密度過高 — ", count, " 處 / 200字 (");
    head.concat(tenths_of(tenths).as_str()).concat(")，超過 ").concat(domain.name).concat(
        " 域閾值 ",
    ).concat(tenths_of(domain.yi_zhi_tenths).as_str())
}

/// Density of 之一 in a paragraph.
pub fn scan_zy1b_yi_zhi_density(em: &mut Emitter<'_>, idx: &BoundaryIndex, domain: Domain)
    requires
        old(em).wf(),
        idx.fits(old(em).chars().len() as int),
    ensures
        final(em).wf(),
        final(em).extends(
            old(em),
            each(
                idx.paragraphs@.len() as int,
                yi_zhi_rule(old(em).chars(), old(em).ex(), idx.paragraphs@, domain),
            ),
        ),
{
    let ghost start = *em;
    let ghost f = yi_zhi_rule(em.chars(), em.ex(), idx.paragraphs@, domain);
    let mut k: usize = 0;
    while k < idx.paragraphs.len()
        invariant
            em.wf(),
            k <= idx.paragraphs@.len(),
            idx.fits(em.chars().len() as int),
            f == yi_zhi_rule(start.chars(), start.ex(), idx.paragraphs@, domain),
            em.extends(&start, each(k as int, f)),
        decreases idx.paragraphs@.len() - k,
    {
        let p = idx.paragraphs[k];
        let len: usize = p.end - p.start;
        if len >= 100 {
            proof {
                reveal_strlit("之一");
            }
            let (n, first) = em.count_hits("之一", p.start, p.end);
            let limit: usize = domain.yi_zhi_tenths;
            proof {
                assert(limit * len <= u128::MAX) by (nonlinear_arith)
                    requires
                        limit <= u64::MAX,
                        len <= u64::MAX,
                ;
            }
            if n >= 2 && 2000 * (n as u128) >= (limit as u128) * (len as u128) {
                em.advise_translationese(
                    first,
                    first + 2,
                    Severity::Info,
                    Some((PhaseFamily::YiZhi, PhasePass::Indexed)),
                    yi_zhi_message(n, len, domain),
                );
            }
        }
        assert(em.out() =~= start.out() + (each(k as int, f) + f(k as int)));
        k = k + 1;
    }
}

/// Paired connectives: opener, closer, how many characters may stand between
/// them, whether the opener is the half to drop, and what the pair is called.
pub const SENTENCE_CONNECTIVES: [(&'static str, &'static str, usize, bool, &'static str); 4] = [
    ("因為", "所以", 40, true, "因為…所以"),
    ("雖然", "但是", 40, true, "雖然…但是"),
    ("當", "的時候", 30, false, "當…的時候"),
    ("如果", "那麼", 40, false, "如果…那麼"),
];

/// The half to drop.
pub open spec fn drop_form(
    entry: (&'static str, &'static str, usize, bool, &'static str),
) -> Seq<char> {
    if entry.3 {
        entry.0@
    } else {
        entry.1@
    }
}

/// The connective at `p` of the sentence that ends at `to`, where its other
/// half follows. The suggestion is the span without the half to drop.
pub open spec fn bounded_step(
    t: Seq<char>,
    ex: Seq<ByteRange>,
    to: int,
    entry: (&'static str, &'static str, usize, bool, &'static str),
) -> spec_fn(int) -> (int, Seq<IssueModel>) {
    |p: int|
        {
            let after = p + entry.0@.len();
            if another_dang_word(t, p, to) {
                (after, Seq::empty())
            } else {
                match find_in(t, entry.1@, after, least(after + entry.2 + entry.1@.len(), to)) {
                    None => (after, Seq::empty()),
                    Some(q) => {
                        let end = q + entry.1@.len();
                        (
                            end,
                            if_so(
                                !span_excluded(t, ex, p, end),
                                translationese_issue(
                                    t,
                                    p,
                                    end,
                                    seq![
                                        if entry.3 {
                                            t.subrange(after, end)
                                        } else {
                                            t.subrange(p, q)
                                        },
                                    ],
                                    Severity::Info,
                                    Some((PhaseFamily::Connective, PhasePass::Indexed)),
                                    "翻譯腔：句內連接詞贅餘（"@ + entry.4@ + "），建議刪除「"@
                                        + drop_form(entry) + "」僅保留另一端"@,
                                ),
                            ),
                        )
                    },
                }
            }
        }
}

/// The connectives of the sentence `from..to`, pair by pair.
pub open spec fn bounded_pairs(t: Seq<char>, ex: Seq<ByteRange>, from: int, to: int) -> spec_fn(
    int,
) -> Seq<IssueModel> {
    |j: int|
        walk(
            t,
            SENTENCE_CONNECTIVES@[j].0@,
            from,
            to,
            bounded_step(t, ex, to, SENTENCE_CONNECTIVES@[j]),
        )
}

pub open spec fn bounded_rule(
    t: Seq<char>,
    ex: Seq<ByteRange>,
    sentences: Seq<Bound>,
) -> spec_fn(int) -> Seq<IssueModel> {
    |k: int| each(4, bounded_pairs(t, ex, sentences[k].start as int, sentences[k].end as int))
}

fn report_bounded(
    em: &mut Emitter<'_>,
    p: usize,
    to: usize,
    entry: (&'static str, &'static str, usize, bool, &'static str),
) -> (next: usize)
    requires
        old(em).wf(),
        p + entry.0@.len() <= to <= old(em).chars().len(),
        entry.0@.len() >= 1,
    ensures
        final(em).wf(),
        p < next <= to,
        next == bounded_step(old(em).chars(), old(em).ex(), to as int, entry)(p as int).0,
        final(em).extends(
            old(em),
            bounded_step(old(em).chars(), old(em).ex(), to as int, entry)(p as int).1,
        ),
{
    let ghost start = *em;
    let ghost step = bounded_step(em.chars(), em.ex(), to as int, entry);
    let n: usize = em.text.len();
    let after: usize = p + entry.0.unicode_len();
    if starts_another_dang_word(&em.text, p, to) {
        assert(em.out() =~= start.out() + step(p as int).1);
        return after;
    }
    match em.text.find(entry.1, after, bounded(after, reach(entry.2, entry.1), to)) {
        None => {
            assert(em.out() =~= start.out() + step(p as int).1);
            after
        },
        Some(q) => {
            let end: usize = q + entry.1.unicode_len();
            if !em.excluded_span(p, end) {
                let mut fix: Vec<String> = Vec::new();
                if entry.3 {
                    fix.push(em.text.slice(after, end));
                } else {
                    fix.push(em.text.slice(p, q));
                }
                assert(strings(fix@) =~= seq![fix@[0]@]);
                let drop: &'static str = if entry.3 {
                    entry.0
                } else {
                    entry.1
                };
                let context: String = "翻譯腔：句內連接詞贅餘（".to_owned().concat(entry.4).concat(
                    "），建議刪除「",
                ).concat(drop).concat("」僅保留另一端");
                em.report_translationese(
                    p,
                    end,
                    fix,
                    Severity::Info,
                    Some((PhaseFamily::Connective, PhasePass::Indexed)),
                    context,
                );
            }
            assert(em.out() =~= start.out() + step(p as int).1);
            end
        },
    }
}

proof fn lemma_connectives_nonempty()
    ensures
        forall|j: int| 0 <= j < 4 ==> (#[trigger] SENTENCE_CONNECTIVES@[j]).0@.len() >= 1,
{
    reveal_strlit("因為");
    reveal_strlit("雖然");
    reveal_strlit("當");
    reveal_strlit("如果");
}

fn scan_bounded_sentence(em: &mut Emitter<'_>, lo: usize, to: usize)
    requires
        old(em).wf(),
        lo <= to <= old(em).chars().len(),
    ensures
        final(em).wf(),
        final(em).extends(
            old(em),
            each(4, bounded_pairs(old(em).chars(), old(em).ex(), lo as int, to as int)),
        ),
{
    let ghost start = *em;
    let ghost f = bounded_pairs(em.chars(), em.ex(), lo as int, to as int);
    proof {
        lemma_connectives_nonempty();
    }
    let mut k: usize = 0;
    while k < 4
        invariant
            em.wf(),
            k <= 4,
            lo <= to <= em.chars().len(),
            forall|j: int| 0 <= j < 4 ==> (#[trigger] SENTENCE_CONNECTIVES@[j]).0@.len() >= 1,
            f == bounded_pairs(start.chars(), start.ex(), lo as int, to as int),
            em.extends(&start, each(k as int, f)),
        decreases 4 - k,
    {
        let ghost before = *em;
        let entry = SENTENCE_CONNECTIVES[k];
        let ghost step = bounded_step(em.chars(), em.ex(), to as int, entry);
        let mut from: usize = lo;
        let mut more: bool = true;
        while more
            invariant
                em.wf(),
                lo <= from <= to <= em.chars().len(),
                entry.0@.len() >= 1,
                em.text == before.text,
                em.excluded == before.excluded,
                step == bounded_step(before.chars(), before.ex(), to as int, entry),
                em.out() + (if more {
                    walk(em.chars(), entry.0@, from as int, to as int, step)
                } else {
                    Seq::empty()
                }) =~= before.out() + walk(em.chars(), entry.0@, lo as int, to as int, step),
            decreases
                    to - from + (if more {
                        1int
                    } else {
                        0int
                    }),
        {
            match em.text.find(entry.0, from, to) {
                Some(p) => {
                    let next: usize = report_bounded(em, p, to, entry);
                    from = next;
                },
                None => {
                    more = false;
                },
            }
        }
        assert(em.out() =~= start.out() + (each(k as int, f) + f(k as int)));
        k = k + 1;
    }
}

/// Paired connectives with both halves in one sentence, with the fix that
/// drops one of them.
pub fn scan_zy2b_sentence_bounded_connectives(em: &mut Emitter<'_>, idx: &BoundaryIndex)
    requires
        old(em).wf(),
        idx.fits(old(em).chars().len() as int),
    ensures
        final(em).wf(),
        final(em).extends(
            old(em),
            each(
                idx.sentences@.len() as int,
                bounded_rule(old(em).chars(), old(em).ex(), idx.sentences@),
            ),
        ),
{
    let ghost start = *em;
    let ghost f = bounded_rule(em.chars(), em.ex(), idx.sentences@);
    let mut k: usize = 0;
    while k < idx.sentences.len()
        invariant
            em.wf(),
            k <= idx.sentences@.len(),
            idx.fits(em.chars().len() as int),
            f == bounded_rule(start.chars(), start.ex(), idx.sentences@),
            em.extends(&start, each(k as int, f)),
        decreases idx.sentences@.len() - k,
    {
        let s = idx.sentences[k];
        scan_bounded_sentence(em, s.start, s.end);
        assert(em.out() =~= start.out() + (each(k as int, f) + f(k as int)));
        k = k + 1;
    }
}

/// Nominalised verbs that chain with 的.
pub const ZY3B_ABSTRACT_HEADS: [&'static str; 26] = [
    "實施",
    "分析",
    "講解",
    "理解",
    "認識",
    "發現",
    "提升",
    "下降",
    "改善",
    "評估",
    "探索",
    "建構",
    "推動",
    "落實",
    "形成",
    "確立",
    "發展",
    "建立",
    "促進",
    "強化",
    "深化",
    "整合",
    "統合",
    "落地",
    "規劃",
    "執行",
];

/// An abstract head stands at `i`, within `..to`.
pub open spec fn abstract_head_at(t: Seq<char>, i: int, to: int) -> bool {
    any_at(t, ZY3B_ABSTRACT_HEADS@, i, to)
}

/// First position of `i..to` at which an abstract head stands, else `to`.
pub open spec fn next_abstract_head(t: Seq<char>, i: int, to: int) -> int
    decreases to - i,
{
    if i >= to {
        to
    } else if abstract_head_at(t, i, to) {
        i
    } else {
        next_abstract_head(t, i + 1, to)
    }
}

/// How many heads chain from the one at `i`, and where the last of them ends.
pub open spec fn head_chain(t: Seq<char>, i: int, to: int) -> (nat, int)
    decreases to - i,
{
    if i + 3 < to && t[i + 2] == '的' && abstract_head_at(t, i + 3, to) {
        let rest = head_chain(t, i + 3, to);
        (rest.0 + 1, rest.1)
    } else {
        (1, i + 2)
    }
}

/// The chains of the sentence that ends at `to`, from `from` on.
pub open spec fn chain_findings(
    t: Seq<char>,
    ex: Seq<ByteRange>,
    chain_min: int,
    from: int,
    to: int,
) -> Seq<IssueModel>
    decreases to - from,
{
    let i = next_abstract_head(t, from, to);
    if i < from || i + 2 > to {
        Seq::empty()
    } else {
        let (depth, end) = head_chain(t, i, to);
        if depth >= chain_min && i < end <= to {
            if_so(
                !span_excluded(t, ex, i, end),
                translationese_issue(
                    t,
                    i,
                    end,
                    Seq::empty(),
                    Severity::Info,
                    Some((PhaseFamily::Nominalization, PhasePass::Indexed)),
                    message("翻譯腔：名詞化串接 — "@, depth, " 級「的+抽象名詞」鏈"@),
                ),
            ) + chain_findings(t, ex, chain_min, end, to)
        } else {
            chain_findings(t, ex, chain_min, i + 2, to)
        }
    }
}

pub open spec fn chain_rule(
    t: Seq<char>,
    ex: Seq<ByteRange>,
    sentences: Seq<Bound>,
    chain_min: int,
) -> spec_fn(int) -> Seq<IssueModel> {
    |k: int|
        chain_findings(t, ex, chain_min, sentences[k].start as int, sentences[k].end as int)
}

proof fn lemma_heads_are_two()
    ensures
        forall|j: int| 0 <= j < 26 ==> (#[trigger] ZY3B_ABSTRACT_HEADS@[j])@.len() == 2,
{
    reveal_strlit("實施");
    reveal_strlit("分析");
    reveal_strlit("講解");
    reveal_strlit("理解");
    reveal_strlit("認識");
    reveal_strlit("發現");
    reveal_strlit("提升");
    reveal_strlit("下降");
    reveal_strlit("改善");
    reveal_strlit("評估");
    reveal_strlit("探索");
    reveal_strlit("建構");
    reveal_strlit("推動");
    reveal_strlit("落實");
    reveal_strlit("形成");
    reveal_strlit("確立");
    reveal_strlit("發展");
    reveal_strlit("建立");
    reveal_strlit("促進");
    reveal_strlit("強化");
    reveal_strlit("深化");
    reveal_strlit("整合");
    reveal_strlit("統合");
    reveal_strlit("落地");
    reveal_strlit("規劃");
    reveal_strlit("執行");
}

/// First abstract head at or after `from`.
pub fn find_first_abstract_head_at_or_after(text: &Text<'_>, from: usize, to: usize) -> (r: usize)
    requires
        text.wf(),
        from <= to <= text@.len(),
    ensures
        r == next_abstract_head(text@, from as int, to as int),
        from <= r <= to,
        r < to ==> r + 2 <= to,
{
    proof {
        lemma_heads_are_two();
    }
    let mut i: usize = from;
    while i < to
        invariant
            text.wf(),
            from <= i <= to <= text@.len(),
            forall|j: int| 0 <= j < 26 ==> (#[trigger] ZY3B_ABSTRACT_HEADS@[j])@.len() == 2,
            next_abstract_head(text@, i as int, to as int) == next_abstract_head(
                text@,
                from as int,
                to as int,
            ),
        decreases to - i,
    {
        if text.any_at(ZY3B_ABSTRACT_HEADS.as_slice(), i, to) {
            return i;
        }
        i = i + 1;
    }
    to
}

/// Walks the chain of heads from the one at `start`: how many they are, and
/// where the last ends. A 的 that no head follows is left out.
pub fn walk_zy3b_chain(text: &Text<'_>, start: usize, to: usize) -> (r: (usize, usize))
    requires
        text.wf(),
        start + 2 <= to <= text@.len(),
    ensures
        r.0 == head_chain(text@, start as int, to as int).0,
        r.1 == head_chain(text@, start as int, to as int).1,
        start + 2 <= r.1 <= to,
{
    proof {
        lemma_heads_are_two();
    }
    let mut depth: usize = 1;
    let mut i: usize = start;
    while to - i > 3 && text.ch(i + 2) == '的' && text.any_at(
        ZY3B_ABSTRACT_HEADS.as_slice(),
        i + 3,
        to,
    )
        invariant
            text.wf(),
            start <= i,
            i + 2 <= to <= text@.len(),
            1 <= depth <= i - start + 1,
            forall|j: int| 0 <= j < 26 ==> (#[trigger] ZY3B_ABSTRACT_HEADS@[j])@.len() == 2,
            head_chain(text@, start as int, to as int).0 == head_chain(
                text@,
                i as int,
                to as int,
            ).0 + depth - 1,
            head_chain(text@, start as int, to as int).1 == head_chain(
                text@,
                i as int,
                to as int,
            ).1,
        decreases to - i,
    {
        i = i + 3;
        depth = depth + 1;
    }
    (depth, i + 2)
}

fn scan_chains(em: &mut Emitter<'_>, lo: usize, to: usize, chain_min: usize)
    requires
        old(em).wf(),
        lo <= to <= old(em).chars().len(),
    ensures
        final(em).wf(),
        final(em).extends(
            old(em),
            chain_findings(old(em).chars(), old(em).ex(), chain_min as int, lo as int, to as int),
        ),
{
    let ghost start = *em;
    let mut from: usize = lo;
    let mut i: usize = find_first_abstract_head_at_or_after(&em.text, from, to);
    while i < to
        invariant
            em.wf(),
            lo <= from <= i <= to <= em.chars().len(),
            i < to ==> i + 2 <= to,
            i == next_abstract_head(em.chars(), from as int, to as int),
            em.text == start.text,
            em.excluded == start.excluded,
            em.out() + chain_findings(
                em.chars(),
                em.ex(),
                chain_min as int,
                from as int,
                to as int,
            ) =~= start.out() + chain_findings(
                em.chars(),
                em.ex(),
                chain_min as int,
                lo as int,
                to as int,
            ),
        decreases to - from,
    {
        let (depth, end) = walk_zy3b_chain(&em.text, i, to);
        if depth >= chain_min {
            if !em.excluded_span(i, end) {
                em.advise_translationese(
                    i,
                    end,
                    Severity::Info,
                    Some((PhaseFamily::Nominalization, PhasePass::Indexed)),
                    message_of("翻譯腔：名詞化串接 — ", depth, " 級「的+抽象名詞」鏈"),
                );
            }
            from = end;
        } else {
            from = i + 2;
        }
        i = find_first_abstract_head_at_or_after(&em.text, from, to);
    }
}

/// Chains of nominalised verbs as long as the domain allows or longer.
pub fn scan_zy3b_nominalization_chain(em: &mut Emitter<'_>, idx: &BoundaryIndex, domain: Domain)
    requires
        old(em).wf(),
        idx.fits(old(em).chars().len() as int),
    ensures
        final(em).wf(),
        final(em).extends(
            old(em),
            each(
                idx.sentences@.len() as int,
                chain_rule(
                    old(em).chars(),
                    old(em).ex(),
                    idx.sentences@,
                    domain.chain_min as int,
                ),
            ),
        ),
{
    let ghost start = *em;
    let ghost f = chain_rule(em.chars(), em.ex(), idx.sentences@, domain.chain_min as int);
    let mut k: usize = 0;
    while k < idx.sentences.len()
        invariant
            em.wf(),
            k <= idx.sentences@.len(),
            idx.fits(em.chars().len() as int),
            f == chain_rule(
                start.chars(),
                start.ex(),
                idx.sentences@,
                domain.chain_min as int,
            ),
            em.extends(&start, each(k as int, f)),
        decreases idx.sentences@.len() - k,
    {
        let s = idx.sentences[k];
        scan_chains(em, s.start, s.end, domain.chain_min);
        assert(em.out() =~= start.out() + (each(k as int, f) + f(k as int)));
        k = k + 1;
    }
}

} // verus!
