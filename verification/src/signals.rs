//! What a document as a whole gives away.
use vstd::prelude::*;
use vstd::string::*;

use crate::chars::within;
use crate::issue::{models, strings, Issue, IssueModel, IssueType};
use crate::text::{contains_in, count_where, find_in, lemma_count_where_bound, lemma_find_in, Text};

verus! {

/// Words that fill speech.
pub const ORAL_MARKERS: [&'static str; 28] = [
    "嗯",
    "啊",
    "呢",
    "吧",
    "哦",
    "喔",
    "欸",
    "哎",
    "唉",
    "嘛",
    "齁",
    "蛤",
    "咧",
    "啦",
    "耶",
    "哇",
    "呀",
    "喂",
    "就是",
    "其實",
    "然後",
    "所以說",
    "基本上",
    "對不對",
    "就是說",
    "怎麼說",
    "那個",
    "這個",
];

/// A text with fewer ideographs than this is too short to be judged.
pub const LEAST_IDEOGRAPHS: usize = 20;

/// An ideograph of the basic block.
pub open spec fn basic_ideograph(c: char) -> bool {
    within(c, 0x4e00, 0x9fff)
}

fn is_basic_ideograph(c: char) -> (r: bool)
    ensures
        r == basic_ideograph(c),
{
    let u: u32 = c as u32;
    0x4e00 <= u && u <= 0x9fff
}

/// The `i`-th character belongs to an occurrence of the word. Occurrences are
/// taken from `from` on, one after another.
pub open spec fn in_word(t: Seq<char>, word: Seq<char>, from: int, i: int) -> bool
    decreases t.len() - from,
{
    match find_in(t, word, from, t.len() as int) {
        None => false,
        Some(p) => p <= i < p + word.len() || (from < p + word.len() <= t.len() && in_word(
            t,
            word,
            p + word.len(),
            i,
        )),
    }
}

/// The `i`-th character belongs to one of the first `n` markers.
pub open spec fn in_marker(t: Seq<char>, n: int, i: int) -> bool {
    exists|k: int| 0 <= k < n && #[trigger] in_word(t, ORAL_MARKERS@[k]@, 0, i)
}

pub open spec fn ideograph_at(t: Seq<char>) -> spec_fn(int) -> bool {
    |i: int| basic_ideograph(t[i])
}

pub open spec fn marker_at(t: Seq<char>) -> spec_fn(int) -> bool {
    |i: int| basic_ideograph(t[i]) && in_marker(t, 28, i)
}

/// How much of a text is filler: the ideographs in markers, of all of them.
#[derive(Clone, Copy, Debug, PartialEq, Eq, Structural)]
pub struct OralDensity {
    pub marker_chars: usize,
    pub cjk_count: usize,
}

impl OralDensity {
    /// More than one ideograph in twenty is filler.
    pub open spec fn high(self) -> bool {
        self.marker_chars * 20 > self.cjk_count
    }

    pub fn is_high(self) -> (r: bool)
        ensures
            r == self.high(),
    {
        self.marker_chars > self.cjk_count / 20
    }
}

pub open spec fn oral_density(t: Seq<char>) -> Option<OralDensity> {
    let n = t.len() as int;
    if count_where(0, n, ideograph_at(t)) < LEAST_IDEOGRAPHS {
        None
    } else {
        Some(
            OralDensity {
                marker_chars: count_where(0, n, marker_at(t)) as usize,
                cjk_count: count_where(0, n, ideograph_at(t)) as usize,
            },
        )
    }
}

fn mark_span(marks: &mut Vec<bool>, from: usize, to: usize)
    requires
        from <= to <= old(marks)@.len(),
    ensures
        final(marks)@.len() == old(marks)@.len(),
        forall|j: int|
            0 <= j < old(marks)@.len() ==> #[trigger] final(marks)@[j] == (old(marks)@[j] || (from
                <= j < to)),
{
    let ghost entry = marks@;
    let mut i: usize = from;
    while i < to
        invariant
            from <= i <= to <= marks@.len(),
            marks@.len() == entry.len(),
            forall|j: int|
                0 <= j < entry.len() ==> #[trigger] marks@[j] == (entry[j] || (from <= j < i)),
        decreases to - i,
    {
        marks.set(i, true);
        i = i + 1;
    }
}

/// With the occurrences from `from` on marked besides, the `i`-th character is
/// marked where those of the whole text mark it.
spec fn due(t: Seq<char>, word: Seq<char>, from: int, before: bool, now: bool, i: int) -> bool {
    (now || in_word(t, word, from, i)) == (before || in_word(t, word, 0, i))
}

spec fn remaining(
    t: Seq<char>,
    word: Seq<char>,
    from: int,
    before: Seq<bool>,
    now: Seq<bool>,
) -> bool {
    forall|i: int| 0 <= i < t.len() ==> #[trigger] due(t, word, from, before[i], now[i], i)
}

/// Marks the characters of the occurrences of a word, besides those that are
/// marked already.
fn mark_word(text: &Text<'_>, word: &str, marks: &mut Vec<bool>)
    requires
        text.wf(),
        old(marks)@.len() == text@.len(),
        word@.len() > 0,
    ensures
        final(marks)@.len() == text@.len(),
        forall|i: int|
            0 <= i < text@.len() ==> (#[trigger] final(marks)@[i] == (old(marks)@[i] || in_word(
                text@,
                word@,
                0,
                i,
            ))),
{
    let ghost before = marks@;
    let n: usize = text.len();
    let width: usize = word.unicode_len();
    let mut from: usize = 0;
    while from <= n
        invariant
            text.wf(),
            n == text@.len(),
            width == word@.len(),
            width > 0,
            from <= n,
            marks@.len() == n,
            before == old(marks)@,
            before.len() == n,
            remaining(text@, word@, from as int, before, marks@),
        decreases n + 1 - from,
    {
        proof {
            lemma_find_in(text@, word@, from as int, n as int);
        }
        match text.find(word, from, n) {
            None => {
                assert forall|i: int| 0 <= i < n implies #[trigger] marks@[i] == (before[i]
                    || in_word(text@, word@, 0, i)) by {
                    assert(due(text@, word@, from as int, before[i], marks@[i], i));
                    assert(!in_word(text@, word@, from as int, i));
                }
                return ;
            },
            Some(p) => {
                let end: usize = p + width;
                let ghost entry = marks@;
                mark_span(marks, p, end);
                proof {
                    assert forall|j: int| 0 <= j < n implies #[trigger] due(
                        text@,
                        word@,
                        end as int,
                        before[j],
                        marks@[j],
                        j,
                    ) by {
                        assert(due(text@, word@, from as int, before[j], entry[j], j));
                        assert(marks@[j] == (entry[j] || (p <= j < end)));
                    }
                }
                from = end;
            },
        }
    }
}

proof fn lemma_markers_nonempty(k: int)
    requires
        0 <= k < 28,
    ensures
        ORAL_MARKERS@[k]@.len() > 0,
{
    reveal_strlit("嗯");
    reveal_strlit("啊");
    reveal_strlit("呢");
    reveal_strlit("吧");
    reveal_strlit("哦");
    reveal_strlit("喔");
    reveal_strlit("欸");
    reveal_strlit("哎");
    reveal_strlit("唉");
    reveal_strlit("嘛");
    reveal_strlit("齁");
    reveal_strlit("蛤");
    reveal_strlit("咧");
    reveal_strlit("啦");
    reveal_strlit("耶");
    reveal_strlit("哇");
    reveal_strlit("呀");
    reveal_strlit("喂");
    reveal_strlit("就是");
    reveal_strlit("其實");
    reveal_strlit("然後");
    reveal_strlit("所以說");
    reveal_strlit("基本上");
    reveal_strlit("對不對");
    reveal_strlit("就是說");
    reveal_strlit("怎麼說");
    reveal_strlit("那個");
    reveal_strlit("這個");
}

fn mark_markers(text: &Text<'_>) -> (marks: Vec<bool>)
    requires
        text.wf(),
    ensures
        marks@.len() == text@.len(),
        forall|i: int| 0 <= i < text@.len() ==> #[trigger] marks@[i] == in_marker(text@, 28, i),
{
    let n: usize = text.len();
    let mut marks: Vec<bool> = Vec::new();
    let mut i: usize = 0;
    while i < n
        invariant
            i <= n,
            marks@.len() == i,
            forall|j: int| 0 <= j < i ==> !#[trigger] marks@[j],
        decreases n - i,
    {
        marks.push(false);
        i = i + 1;
    }
    let mut k: usize = 0;
    while k < 28
        invariant
            text.wf(),
            k <= 28,
            n == text@.len(),
            marks@.len() == n,
            forall|j: int| 0 <= j < n ==> #[trigger] marks@[j] == in_marker(text@, k as int, j),
        decreases 28 - k,
    {
        let ghost before = marks@;
        proof {
            lemma_markers_nonempty(k as int);
        }
        mark_word(text, ORAL_MARKERS[k], &mut marks);
        proof {
            assert forall|j: int| 0 <= j < n implies #[trigger] marks@[j] == in_marker(
                text@,
                k + 1,
                j,
            ) by {
                assert(before[j] == in_marker(text@, k as int, j));
                if in_marker(text@, k as int, j) {
                    let m = choose|m: int|
                        0 <= m < k && #[trigger] in_word(text@, ORAL_MARKERS@[m]@, 0, j);
                    assert(in_word(text@, ORAL_MARKERS@[m]@, 0, j));
                }
                if in_word(text@, ORAL_MARKERS@[k as int]@, 0, j) {
                    assert(in_marker(text@, k + 1, j));
                }
            }
        }
        k = k + 1;
    }
    marks
}

/// How much of the text is filler. A text that is too short is not judged.
pub fn compute_oral_density(text: &Text<'_>) -> (r: Option<OralDensity>)
    requires
        text.wf(),
    ensures
        r == oral_density(text@),
{
    let n: usize = text.len();
    let ghost t = text@;
    let mut cjk_count: usize = 0;
    let mut i: usize = 0;
    while i < n
        invariant
            text.wf(),
            t == text@,
            n == t.len(),
            i <= n,
            cjk_count == count_where(0, i as int, ideograph_at(t)),
            cjk_count <= i,
        decreases n - i,
    {
        if is_basic_ideograph(text.ch(i)) {
            cjk_count = cjk_count + 1;
        }
        i = i + 1;
    }
    if cjk_count < LEAST_IDEOGRAPHS {
        return None;
    }
    let marks = mark_markers(text);
    let mut marker_chars: usize = 0;
    let mut j: usize = 0;
    while j < n
        invariant
            text.wf(),
            t == text@,
            n == t.len(),
            j <= n,
            marks@.len() == n,
            forall|m: int| 0 <= m < n ==> #[trigger] marks@[m] == in_marker(t, 28, m),
            marker_chars == count_where(0, j as int, marker_at(t)),
            marker_chars <= j,
        decreases n - j,
    {
        if marks[j] && is_basic_ideograph(text.ch(j)) {
            marker_chars = marker_chars + 1;
        }
        j = j + 1;
    }
    Some(OralDensity { marker_chars, cjk_count })
}

/// The filler is part of the text.
pub proof fn law_density_is_a_share(t: Seq<char>)
    requires
        oral_density(t) is Some,
        t.len() <= usize::MAX,
    ensures
        oral_density(t)->0.marker_chars <= oral_density(t)->0.cjk_count,
{
    let n = t.len() as int;
    lemma_count_where_bound(0, n, ideograph_at(t));
    lemma_count_where_bound(0, n, marker_at(t));
    lemma_fewer(n, marker_at(t), ideograph_at(t));
}

proof fn lemma_fewer(n: int, f: spec_fn(int) -> bool, g: spec_fn(int) -> bool)
    requires
        forall|i: int| #[trigger] f(i) ==> g(i),
    ensures
        count_where(0, n, f) <= count_where(0, n, g),
    decreases n,
{
    if n > 0 {
        lemma_fewer(n - 1, f, g);
        assert(f(n - 1) ==> g(n - 1));
    }
}

pub open spec fn ascii_upper(c: char) -> bool {
    'A' <= c <= 'Z'
}

/// `found` is the capitals of `joined` with a space between any two.
pub open spec fn spaced_out(found: Seq<char>, joined: Seq<char>) -> bool {
    &&& joined.len() >= 2
    &&& found.len() == 2 * joined.len() - 1
    &&& forall|i: int|
        0 <= i < joined.len() ==> ascii_upper(#[trigger] joined[i]) && found[2 * i] == joined[i]
    &&& forall|i: int| 0 <= i < joined.len() - 1 ==> #[trigger] found[2 * i + 1] == ' '
}

/// The finding joins the letters of an acronym.
pub open spec fn spaced_acronym(m: IssueModel) -> bool {
    &&& m.rule_type is Repetition
    &&& m.suggestions.len() == 1
    &&& spaced_out(m.found, m.suggestions[0])
}

fn is_spaced_out(found: &Text<'_>, joined: &Text<'_>) -> (r: bool)
    requires
        found.wf(),
        joined.wf(),
    ensures
        r == spaced_out(found@, joined@),
{
    let n: usize = joined.len();
    let m: usize = found.len();
    if n < 2 || m % 2 == 0 || m / 2 + 1 != n {
        return false;
    }
    assert(m == 2 * n - 1);
    let mut i: usize = 0;
    while i < n
        invariant
            found.wf(),
            joined.wf(),
            n == joined@.len(),
            m == found@.len(),
            n >= 2,
            m == 2 * n - 1,
            i <= n,
            forall|k: int|
                0 <= k < i ==> ascii_upper(#[trigger] joined@[k]) && found@[2 * k] == joined@[k],
            forall|k: int| 0 <= k < i && k < n - 1 ==> #[trigger] found@[2 * k + 1] == ' ',
        decreases n - i,
    {
        let c = joined.ch(i);
        let upper: bool = 'A' <= c && c <= 'Z';
        if !upper || found.ch(2 * i) != c {
            assert(!(ascii_upper(joined@[i as int]) && found@[2 * i] == joined@[i as int]));
            return false;
        }
        if i < n - 1 && found.ch(2 * i + 1) != ' ' {
            assert(found@[2 * i + 1] != ' ');
            return false;
        }
        i = i + 1;
    }
    true
}

/// Whether the finding joins the letters of an acronym.
pub fn is_spaced_acronym_issue(issue: &Issue) -> (r: bool)
    ensures
        r == spaced_acronym(issue@),
{
    match issue.rule_type {
        IssueType::Repetition => {},
        _ => {
            return false;
        },
    }
    if issue.suggestions.len() != 1 {
        return false;
    }
    assert(issue@.suggestions[0] == issue.suggestions@[0]@);
    let found = Text::new(issue.found.as_str());
    let joined = Text::new(issue.suggestions[0].as_str());
    is_spaced_out(&found, &joined)
}

/// The finding is one that speech recognition leaves behind.
pub open spec fn misheard(m: IssueModel) -> bool {
    m.rule_type is Confusable && m.context is Some && contains_in(
        m.context->0,
        "ASR"@,
        0,
        (m.context->0).len() as int,
    )
}

/// The finding is a word said twice.
pub open spec fn stuttered(m: IssueModel) -> bool {
    m.rule_type is Repetition && !spaced_acronym(m)
}

pub open spec fn some_is(v: Seq<IssueModel>, f: spec_fn(IssueModel) -> bool) -> bool {
    exists|i: int| 0 <= i < v.len() && f(#[trigger] v[i])
}

pub open spec fn flag_if(b: bool, flag: Seq<char>) -> Seq<Seq<char>> {
    if b {
        seq![flag]
    } else {
        Seq::empty()
    }
}

/// The signals that the findings of a document give.
pub open spec fn quality_flags(v: Seq<IssueModel>) -> Seq<Seq<char>> {
    flag_if(some_is(v, |m: IssueModel| misheard(m)), "asr_artifacts"@) + flag_if(
        some_is(v, |m: IssueModel| stuttered(m)),
        "stutter_detected"@,
    ) + flag_if(some_is(v, |m: IssueModel| spaced_acronym(m)), "spaced_acronyms"@)
}

fn is_misheard(issue: &Issue) -> (r: bool)
    ensures
        r == misheard(issue@),
{
    match issue.rule_type {
        IssueType::Confusable => match &issue.context {
            Some(c) => {
                let t = Text::new(c.as_str());
                let n: usize = t.len();
                t.find("ASR", 0, n).is_some()
            },
            None => false,
        },
        _ => false,
    }
}

/// Adds a flag where it is due.
fn raise(flags: &mut Vec<String>, due: bool, flag: &str)
    ensures
        strings(final(flags)@) == strings(old(flags)@) + flag_if(due, flag@),
{
    let ghost before = strings(flags@);
    if due {
        flags.push(flag.to_owned());
    }
    assert(strings(flags@) =~= before + flag_if(due, flag@));
}

/// The signals that the findings give, for those who use a report.
pub fn build_quality_flags(issues: &Vec<Issue>) -> (r: Vec<String>)
    ensures
        strings(r@) == quality_flags(models(issues@)),
{
    let ghost v = models(issues@);
    let mut confusable: bool = false;
    let mut repeated: bool = false;
    let mut acronym: bool = false;
    let mut i: usize = 0;
    while i < issues.len()
        invariant
            i <= issues@.len(),
            v == models(issues@),
            confusable == exists|k: int| 0 <= k < i && misheard(#[trigger] v[k]),
            repeated == exists|k: int| 0 <= k < i && stuttered(#[trigger] v[k]),
            acronym == exists|k: int| 0 <= k < i && spaced_acronym(#[trigger] v[k]),
        decreases issues@.len() - i,
    {
        let issue = &issues[i];
        assert(v[i as int] == issue@);
        if is_misheard(issue) {
            confusable = true;
        }
        match issue.rule_type {
            IssueType::Repetition => {
                if is_spaced_acronym_issue(issue) {
                    acronym = true;
                } else {
                    repeated = true;
                }
            },
            _ => {},
        }
        i = i + 1;
    }
    proof {
        let f = |m: IssueModel| misheard(m);
        let g = |m: IssueModel| stuttered(m);
        let h = |m: IssueModel| spaced_acronym(m);
        if confusable {
            let k = choose|k: int| 0 <= k < v.len() && misheard(#[trigger] v[k]);
            assert(f(v[k]));
        }
        if repeated {
            let k = choose|k: int| 0 <= k < v.len() && stuttered(#[trigger] v[k]);
            assert(g(v[k]));
        }
        if acronym {
            let k = choose|k: int| 0 <= k < v.len() && spaced_acronym(#[trigger] v[k]);
            assert(h(v[k]));
        }
        assert(confusable == some_is(v, f));
        assert(repeated == some_is(v, g));
        assert(acronym == some_is(v, h));
    }
    let mut flags: Vec<String> = Vec::new();
    assert(strings(flags@) =~= Seq::empty());
    raise(&mut flags, confusable, "asr_artifacts");
    raise(&mut flags, repeated, "stutter_detected");
    raise(&mut flags, acronym, "spaced_acronyms");
    assert(strings(flags@) =~= quality_flags(v));
    flags
}

} // verus!
