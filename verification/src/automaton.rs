//! Pattern automata: what they hold, and what a search with them returns.
use aho_corasick::{AhoCorasick, AhoCorasickBuilder};
use daachorse::{CharwiseDoubleArrayAhoCorasick, CharwiseDoubleArrayAhoCorasickBuilder};
use vstd::prelude::*;
use vstd::string::*;
use vstd::utf8::*;

use crate::bytes::{bytes_at, lemma_bytes_to_chars, lemma_chars_to_bytes};
use crate::text::{any_in, byte_pos, contains_in, lemma_find_in};

verus! {

/// The bytewise automaton of `aho_corasick`.
#[verifier::external_type_specification]
#[verifier::external_body]
pub struct ExAhoCorasick(AhoCorasick);

/// The charwise automaton of `daachorse`.
#[verifier::external_type_specification]
#[verifier::external_body]
#[verifier::reject_recursive_types(V)]
pub struct ExCharwiseDoubleArrayAhoCorasick<V>(CharwiseDoubleArrayAhoCorasick<V>);

/// The patterns of a bytewise automaton, in the order of their numbers.
pub uninterp spec fn bytewise_patterns(ac: AhoCorasick) -> Seq<Seq<char>>;

/// Whether a bytewise automaton reports the leftmost match, and of several the
/// longest; else it reports every match.
pub uninterp spec fn bytewise_leftmost(ac: AhoCorasick) -> bool;

/// Whether a bytewise automaton takes an ASCII letter for the same letter in the
/// other case.
pub uninterp spec fn bytewise_folds(ac: AhoCorasick) -> bool;

/// The patterns of a charwise automaton, each in the place of the value that it
/// was given.
pub uninterp spec fn charwise_patterns(ac: CharwiseDoubleArrayAhoCorasick<usize>) -> Seq<Seq<char>>;

/// Whether a charwise automaton reports the leftmost match, and of several the
/// longest.
pub uninterp spec fn charwise_leftmost(ac: CharwiseDoubleArrayAhoCorasick<usize>) -> bool;

/// Whether `aho_corasick::AhoCorasickBuilder::build` accepts the patterns, for
/// leftmost-longest matches or for every match, and with the case of ASCII
/// letters left aside or not. It refuses sets that are too large.
pub uninterp spec fn bytewise_builds(
    patterns: Seq<Seq<char>>,
    leftmost: bool,
    folds: bool,
) -> bool;

/// The automaton finds leftmost-longest matches of its patterns as they are
/// written.
pub open spec fn finds_leftmost(ac: AhoCorasick) -> bool {
    bytewise_leftmost(ac) && !bytewise_folds(ac)
}

/// The automaton finds every match of its patterns as they are written.
pub open spec fn finds_every(ac: AhoCorasick) -> bool {
    !bytewise_leftmost(ac) && !bytewise_folds(ac)
}

/// Whether `daachorse::CharwiseDoubleArrayAhoCorasickBuilder::build_with_values`
/// accepts the patterns. It refuses sets that are too large.
pub uninterp spec fn charwise_builds(patterns: Seq<Seq<char>>) -> bool;

/// The entries of a list, each by its characters.
pub open spec fn texts(v: Seq<&str>) -> Seq<Seq<char>> {
    Seq::new(v.len(), |i: int| v[i]@)
}

/// No pattern is empty.
pub open spec fn all_nonempty(p: Seq<Seq<char>>) -> bool {
    forall|k: int| 0 <= k < p.len() ==> (#[trigger] p[k]).len() > 0
}

/// A match: the number of the pattern, and the bytes that it covers.
#[derive(Clone, Copy, Debug, PartialEq, Eq, Structural)]
pub struct Hit {
    pub pattern: usize,
    pub start: usize,
    pub end: usize,
}

/// The `k`-th pattern stands in `h` at byte `b`.
pub open spec fn pattern_at(p: Seq<Seq<char>>, h: Seq<u8>, k: int, b: int) -> bool {
    0 <= k < p.len() && bytes_at(h, encode_utf8(p[k]), b)
}

/// Where the search for the `i`-th match began.
pub open spec fn resumed_at(ms: Seq<Hit>, i: int) -> int {
    if i <= 0 {
        0
    } else {
        ms[i - 1].end as int
    }
}

/// The hit is a match of its pattern, none begins between `from` and it, and
/// none that begins with it is longer.
pub open spec fn leftmost_hit(p: Seq<Seq<char>>, h: Seq<u8>, m: Hit, from: int) -> bool {
    &&& pattern_at(p, h, m.pattern as int, m.start as int)
    &&& m.end == m.start + encode_utf8(p[m.pattern as int]).len()
    &&& from <= m.start
    &&& forall|k: int, b: int| from <= b < m.start ==> !#[trigger] pattern_at(p, h, k, b)
    &&& forall|k: int| #[trigger]
        pattern_at(p, h, k, m.start as int) ==> encode_utf8(p[k]).len() <= m.end - m.start
}

/// `ms` are the leftmost-longest matches of the patterns in `h`, each sought
/// from the end of the one before it, and nothing matches after the last.
pub open spec fn leftmost_longest(p: Seq<Seq<char>>, h: Seq<u8>, ms: Seq<Hit>) -> bool {
    &&& forall|i: int|
        0 <= i < ms.len() ==> leftmost_hit(p, h, #[trigger] ms[i], resumed_at(ms, i))
    &&& forall|k: int, b: int|
        resumed_at(ms, ms.len() as int) <= b ==> !#[trigger] pattern_at(p, h, k, b)
}

/// `ms` holds every match of the patterns in `h` and nothing else, each as the
/// byte where it begins and the number of its pattern.
pub open spec fn all_matches(p: Seq<Seq<char>>, h: Seq<u8>, ms: Seq<(usize, usize)>) -> bool {
    &&& forall|i: int|
        0 <= i < ms.len() ==> pattern_at(p, h, (#[trigger] ms[i]).1 as int, ms[i].0 as int)
    &&& forall|k: int, b: int| #[trigger]
        pattern_at(p, h, k, b) ==> exists|i: int|
            0 <= i < ms.len() && (#[trigger] ms[i]).0 == b && ms[i].1 == k
}

/// Builds a bytewise automaton for leftmost-longest matches with
/// `aho_corasick::AhoCorasickBuilder::build`, where the builder accepts the
/// patterns.
#[verifier::external_body]
pub(crate) fn build_leftmost(patterns: &[&str]) -> (r: Option<AhoCorasick>)
    ensures
        r is Some == bytewise_builds(texts(patterns@), true, false),
        r matches Some(ac) ==> bytewise_patterns(ac) == texts(patterns@) && finds_leftmost(ac),
{
    AhoCorasickBuilder::new()
        .match_kind(aho_corasick::MatchKind::LeftmostLongest)
        .build(patterns)
        .ok()
}

/// Builds a bytewise automaton that reports every match with
/// `aho_corasick::AhoCorasickBuilder::build`, as a noncontiguous NFA, where the
/// builder accepts the patterns.
#[verifier::external_body]
pub(crate) fn build_standard(patterns: &[&str]) -> (r: Option<AhoCorasick>)
    ensures
        r is Some == bytewise_builds(texts(patterns@), false, false),
        r matches Some(ac) ==> bytewise_patterns(ac) == texts(patterns@) && finds_every(ac),
{
    AhoCorasickBuilder::new()
        .match_kind(aho_corasick::MatchKind::Standard)
        .kind(Some(aho_corasick::AhoCorasickKind::NoncontiguousNFA))
        .build(patterns)
        .ok()
}

/// Builds a bytewise automaton for leftmost-longest matches, in which the case
/// of ASCII letters is left aside, with
/// `aho_corasick::AhoCorasickBuilder::build`, where the builder accepts the
/// patterns.
#[verifier::external_body]
pub(crate) fn build_folding(patterns: &[&str]) -> (r: Option<AhoCorasick>)
    ensures
        r is Some == bytewise_builds(texts(patterns@), true, true),
        r matches Some(ac) ==> bytewise_patterns(ac) == texts(patterns@) && bytewise_leftmost(ac)
            && bytewise_folds(ac),
{
    AhoCorasickBuilder::new()
        .match_kind(aho_corasick::MatchKind::LeftmostLongest)
        .ascii_case_insensitive(true)
        .build(patterns)
        .ok()
}

/// Builds a charwise automaton for leftmost-longest matches with
/// `daachorse::CharwiseDoubleArrayAhoCorasickBuilder::build_with_values`, the
/// value of each pattern being its place in the list, where the builder accepts
/// the patterns.
#[verifier::external_body]
pub(crate) fn build_charwise(patterns: &[&str]) -> (r: Option<
    CharwiseDoubleArrayAhoCorasick<usize>,
>)
    ensures
        r is Some == charwise_builds(texts(patterns@)),
        r matches Some(ac) ==> charwise_patterns(ac) == texts(patterns@) && charwise_leftmost(ac),
{
    CharwiseDoubleArrayAhoCorasickBuilder::new()
        .match_kind(daachorse::MatchKind::LeftmostLongest)
        .build_with_values(patterns.iter().enumerate().map(|(i, p)| (p, i)))
        .ok()
}

/// The matches that `aho_corasick::AhoCorasick::find_iter` yields on a text:
/// leftmost-longest, one after another.
#[verifier::external_body]
pub(crate) fn bytewise_find(ac: &AhoCorasick, text: &str) -> (r: Vec<Hit>)
    requires
        finds_leftmost(*ac),
        all_nonempty(bytewise_patterns(*ac)),
    ensures
        leftmost_longest(bytewise_patterns(*ac), encode_utf8(text@), r@),
{
    ac.find_iter(text)
        .map(|m| Hit { pattern: m.pattern().as_usize(), start: m.start(), end: m.end() })
        .collect()
}

/// The matches that `aho_corasick::AhoCorasick::find_overlapping_iter` yields
/// on a text: every match, also those of an empty pattern, which stands at every
/// byte and at the end. In which order they come, and that each comes once, is
/// not stated.
#[verifier::external_body]
pub(crate) fn bytewise_find_all(ac: &AhoCorasick, text: &str) -> (r: Vec<(usize, usize)>)
    requires
        finds_every(*ac),
    ensures
        all_matches(bytewise_patterns(*ac), encode_utf8(text@), r@),
{
    ac.find_overlapping_iter(text).map(|m| (m.start(), m.pattern().as_usize())).collect()
}

/// The matches that
/// `daachorse::CharwiseDoubleArrayAhoCorasick::leftmost_find_iter` yields on a
/// text: leftmost-longest, one after another.
#[verifier::external_body]
pub(crate) fn charwise_find(ac: &CharwiseDoubleArrayAhoCorasick<usize>, text: &str) -> (r: Vec<
    Hit,
>)
    requires
        charwise_leftmost(*ac),
        all_nonempty(charwise_patterns(*ac)),
    ensures
        leftmost_longest(charwise_patterns(*ac), encode_utf8(text@), r@),
{
    ac.leftmost_find_iter(text)
        .map(|m| Hit { pattern: m.value(), start: m.start(), end: m.end() })
        .collect()
}

/// No two patterns are the same.
pub open spec fn all_distinct(p: Seq<Seq<char>>) -> bool {
    forall|i: int, j: int| 0 <= i < j < p.len() ==> #[trigger] p[i] != #[trigger] p[j]
}

proof fn lemma_same_bytes_same_pattern(p: Seq<Seq<char>>, i: int, j: int)
    requires
        all_distinct(p),
        0 <= i < p.len(),
        0 <= j < p.len(),
        encode_utf8(p[i]) == encode_utf8(p[j]),
    ensures
        i == j,
{
    encode_utf8_decode_utf8(p[i]);
    encode_utf8_decode_utf8(p[j]);
    if i < j {
        assert(p[i] != p[j]);
    } else if j < i {
        assert(p[j] != p[i]);
    }
}

/// The matches are determined by the patterns and the text: whichever
/// automaton searches, charwise or bytewise, the result is the same.
pub proof fn law_matches_are_determined(p: Seq<Seq<char>>, h: Seq<u8>, a: Seq<Hit>, b: Seq<Hit>)
    requires
        all_nonempty(p),
        all_distinct(p),
        leftmost_longest(p, h, a),
        leftmost_longest(p, h, b),
    ensures
        a == b,
{
    lemma_matches_agree(p, h, a, b, a.len() as int);
    lemma_matches_agree(p, h, b, a, b.len() as int);
    assert(a =~= b);
}

proof fn lemma_hits_agree(p: Seq<Seq<char>>, h: Seq<u8>, x: Hit, y: Hit, from: int)
    requires
        all_distinct(p),
        leftmost_hit(p, h, x, from),
        leftmost_hit(p, h, y, from),
    ensures
        x == y,
{
    let (i, j) = (x.pattern as int, y.pattern as int);
    assert(x.start == y.start) by {
        assert(pattern_at(p, h, i, x.start as int));
        assert(pattern_at(p, h, j, y.start as int));
    }
    assert(encode_utf8(p[i]).len() == encode_utf8(p[j]).len()) by {
        assert(pattern_at(p, h, i, y.start as int));
        assert(pattern_at(p, h, j, x.start as int));
    }
    assert(encode_utf8(p[i]) == encode_utf8(p[j]));
    lemma_same_bytes_same_pattern(p, i, j);
}

#[verifier::spinoff_prover]
#[verifier::rlimit(40)]
proof fn lemma_matches_agree(p: Seq<Seq<char>>, h: Seq<u8>, a: Seq<Hit>, b: Seq<Hit>, n: int)
    requires
        all_distinct(p),
        leftmost_longest(p, h, a),
        leftmost_longest(p, h, b),
        0 <= n <= a.len(),
    ensures
        n <= b.len(),
        forall|i: int| 0 <= i < n ==> a[i] == b[i],
    decreases n,
{
    if n > 0 {
        lemma_matches_agree(p, h, a, b, n - 1);
        let x = a[n - 1];
        let from = resumed_at(a, n - 1);
        assert(from == resumed_at(b, n - 1));
        assert(leftmost_hit(p, h, x, from));
        if b.len() == n - 1 {
            assert(pattern_at(p, h, x.pattern as int, x.start as int));
            assert(false);
        }
        lemma_hits_agree(p, h, x, b[n - 1], from);
    }
}

/// Whether any of the patterns stands in the text, by way of an automaton. No
/// answer where the automaton cannot be built.
pub fn any_pattern_in(patterns: &[&'static str], text: &str) -> (r: Option<bool>)
    requires
        forall|k: int| 0 <= k < patterns@.len() ==> (#[trigger] patterns@[k])@.len() > 0,
    ensures
        r is Some == bytewise_builds(texts(patterns@), true, false),
        r matches Some(found) ==> found == any_in(text@, patterns@, 0, text@.len() as int),
{
    match build_leftmost(patterns) {
        Some(ac) => {
            let ghost p = bytewise_patterns(ac);
            let ms = bytewise_find(&ac, text);
            let found: bool = ms.len() > 0;
            proof {
                let h = encode_utf8(text@);
                if ms@.len() > 0 {
                    let m = ms@[0];
                    assert(leftmost_hit(p, h, m, resumed_at(ms@, 0)));
                    let i = lemma_bytes_to_chars(text@, p[m.pattern as int], m.start as int);
                    lemma_find_in(text@, patterns@[m.pattern as int]@, 0, text@.len() as int);
                    assert(contains_in(
                        text@,
                        patterns@[m.pattern as int]@,
                        0,
                        text@.len() as int,
                    ));
                } else if any_in(text@, patterns@, 0, text@.len() as int) {
                    let k = choose|k: int|
                        0 <= k < patterns@.len() && #[trigger] contains_in(
                            text@,
                            patterns@[k]@,
                            0,
                            text@.len() as int,
                        );
                    lemma_find_in(text@, patterns@[k]@, 0, text@.len() as int);
                    let i = crate::text::find_in(
                        text@,
                        patterns@[k]@,
                        0,
                        text@.len() as int,
                    )->0;
                    lemma_chars_to_bytes(text@, patterns@[k]@, i);
                    crate::text::lemma_byte_pos_monotone(text@, 0, i);
                    assert(p[k] == patterns@[k]@);
                    assert(pattern_at(p, h, k, byte_pos(text@, i)));
                    assert(false);
                }
            }
            Some(found)
        },
        None => None,
    }
}

} // verus!
