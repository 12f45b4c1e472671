//! Phrases that detectors own.
use aho_corasick::AhoCorasick;
use vstd::prelude::*;
use vstd::seq_lib::*;
use vstd::string::*;
use vstd::utf8::*;

use crate::automaton::{
    all_nonempty, build_leftmost, bytewise_builds, bytewise_find, bytewise_patterns, finds_leftmost,
    leftmost_longest, texts, Hit,
};
use crate::clues::lemma_insert_multiset;
use crate::issue::Severity;
use crate::prepare::{winners, wins};
use crate::rules::{rule_models, RuleModel, SpellingRule};
use crate::text::same;

verus! {

/// The detectors that can own phrases.
pub const KNOWN_STRUCTURAL_GUARDS: [&'static str; 1] = ["uncited_attribution"];

/// A phrase that a detector owns, with what its rule says of severity: what
/// findings have, and what the rule sets.
#[derive(Debug)]
pub struct GuardPhrase {
    pub text: String,
    pub severity: Severity,
    pub configured_severity: Option<Severity>,
}

/// A phrase, by its characters.
#[verifier::ext_equal]
pub ghost struct GuardModel {
    pub text: Seq<char>,
    pub severity: Severity,
    pub configured_severity: Option<Severity>,
}

impl View for GuardPhrase {
    type V = GuardModel;

    open spec fn view(&self) -> GuardModel {
        GuardModel {
            text: self.text@,
            severity: self.severity,
            configured_severity: self.configured_severity,
        }
    }
}

/// The phrases of a list, each by what it says.
pub open spec fn guard_models(v: Seq<GuardPhrase>) -> Seq<GuardModel> {
    Seq::new(v.len(), |i: int| v[i]@)
}

/// The phrase that a rule gives its detector.
pub open spec fn phrase_of(m: RuleModel) -> GuardModel {
    GuardModel { text: m.from, severity: m.weight(), configured_severity: m.severity }
}

impl GuardPhrase {
    fn from_rule(rule: &SpellingRule) -> (r: Self)
        ensures
            r@ == phrase_of(rule@),
    {
        GuardPhrase {
            text: rule.from.clone(),
            severity: rule.effective_severity(),
            configured_severity: rule.severity,
        }
    }

    fn copied(&self) -> (r: Self)
        ensures
            r@ == self@,
    {
        GuardPhrase {
            text: self.text.clone(),
            severity: self.severity,
            configured_severity: self.configured_severity,
        }
    }
}

/// From byte `i` on, `x` comes before `y`.
pub open spec fn bytes_below(x: Seq<u8>, y: Seq<u8>, i: int) -> bool
    decreases y.len() - i,
{
    if i >= y.len() || i < 0 {
        false
    } else if i >= x.len() || x[i] < y[i] {
        true
    } else if x[i] > y[i] {
        false
    } else {
        bytes_below(x, y, i + 1)
    }
}

/// `a` comes before `b`, byte by byte.
pub open spec fn text_below(a: Seq<char>, b: Seq<char>) -> bool {
    bytes_below(encode_utf8(a), encode_utf8(b), 0)
}

proof fn lemma_below_transitive(x: Seq<u8>, y: Seq<u8>, z: Seq<u8>, i: int)
    requires
        0 <= i,
        bytes_below(x, y, i),
        bytes_below(y, z, i),
    ensures
        bytes_below(x, z, i),
    decreases z.len() - i,
{
    if i < x.len() && i < y.len() && x[i] == y[i] && y[i] == z[i] {
        lemma_below_transitive(x, y, z, i + 1);
    }
}

proof fn lemma_below_total(x: Seq<u8>, y: Seq<u8>, i: int)
    requires
        0 <= i,
        i <= x.len(),
        i <= y.len(),
        forall|k: int| 0 <= k < i ==> #[trigger] x[k] == y[k],
        !bytes_below(x, y, i),
        !bytes_below(y, x, i),
    ensures
        x == y,
    decreases y.len() - i,
{
    if i < x.len() && i < y.len() {
        assert(x[i] == y[i]);
        lemma_below_total(x, y, i + 1);
    } else {
        assert(x =~= y);
    }
}

fn is_below(a: &str, b: &str) -> (r: bool)
    ensures
        r == text_below(a@, b@),
{
    let x = a.as_bytes();
    let y = b.as_bytes();
    let mut i: usize = 0;
    while i < y.len()
        invariant
            x@ == encode_utf8(a@),
            y@ == encode_utf8(b@),
            i <= y@.len(),
            i <= x@.len(),
            bytes_below(x@, y@, i as int) == bytes_below(x@, y@, 0),
        decreases y@.len() - i,
    {
        if i >= x.len() || x[i] < y[i] {
            return true;
        }
        if x[i] > y[i] {
            return false;
        }
        i = i + 1;
    }
    false
}

/// Each phrase comes before the next.
pub open spec fn in_text_order(v: Seq<GuardModel>) -> bool {
    forall|i: int, j: int|
        0 <= i < j < v.len() ==> text_below((#[trigger] v[i]).text, (#[trigger] v[j]).text)
}

/// The `i`-th rule wins, and its phrase belongs to the detector.
pub open spec fn owned_by(v: Seq<RuleModel>, name: Seq<char>, i: int) -> bool {
    wins(v, i) && v[i].structural_guard == Some(name)
}

/// One of the first `n` rules gives the detector the phrase.
pub open spec fn given(v: Seq<RuleModel>, name: Seq<char>, n: int, m: GuardModel) -> bool {
    exists|i: int| 0 <= i < n && #[trigger] owned_by(v, name, i) && phrase_of(v[i]) == m
}

/// `g` are the phrases that the first `n` rules give the detector, in order.
pub open spec fn guarded(v: Seq<RuleModel>, name: Seq<char>, n: int, g: Seq<GuardModel>) -> bool {
    &&& in_text_order(g)
    &&& forall|i: int|
        0 <= i < n && #[trigger] owned_by(v, name, i) ==> g.contains(phrase_of(v[i]))
    &&& forall|k: int| 0 <= k < g.len() ==> given(v, name, n, #[trigger] g[k])
}

/// No phrase comes before one that stands ahead of it.
pub open spec fn ascending(v: Seq<GuardModel>) -> bool {
    forall|i: int, j: int|
        0 <= i < j < v.len() ==> !text_below((#[trigger] v[j]).text, (#[trigger] v[i]).text)
}

/// No two phrases have the same text.
pub open spec fn texts_differ(v: Seq<GuardModel>) -> bool {
    forall|i: int, j: int|
        0 <= i < j < v.len() ==> (#[trigger] v[i]).text != (#[trigger] v[j]).text
}

/// `r` holds the phrases of `v`, each as often, in the order of their texts.
pub open spec fn sorted_from(v: Seq<GuardModel>, r: Seq<GuardModel>) -> bool {
    &&& ascending(r)
    &&& r.to_multiset() == v.to_multiset()
    &&& texts_differ(v) ==> in_text_order(r)
}

proof fn lemma_below_irreflexive(x: Seq<u8>, i: int)
    requires
        0 <= i,
    ensures
        !bytes_below(x, x, i),
    decreases x.len() - i,
{
    if i < x.len() {
        lemma_below_irreflexive(x, i + 1);
    }
}

/// Of two texts one comes first, unless they are the same.
proof fn lemma_text_total(a: Seq<char>, b: Seq<char>)
    ensures
        a == b || text_below(a, b) || text_below(b, a),
        a == b ==> !text_below(a, b),
{
    if !text_below(a, b) && !text_below(b, a) {
        lemma_below_total(encode_utf8(a), encode_utf8(b), 0);
        encode_utf8_decode_utf8(a);
        encode_utf8_decode_utf8(b);
    }
    lemma_below_irreflexive(encode_utf8(a), 0);
}

/// What is not below `b` is not below what `b` is not below.
proof fn lemma_not_below(a: Seq<char>, b: Seq<char>, c: Seq<char>)
    requires
        !text_below(b, a),
        !text_below(c, b),
    ensures
        !text_below(c, a),
{
    lemma_text_total(a, b);
    if text_below(c, a) && a != b {
        lemma_below_transitive(encode_utf8(c), encode_utf8(a), encode_utf8(b), 0);
    }
}

proof fn lemma_below_one_way(a: Seq<char>, b: Seq<char>)
    requires
        text_below(a, b),
    ensures
        !text_below(b, a),
{
    if text_below(b, a) {
        lemma_below_transitive(encode_utf8(a), encode_utf8(b), encode_utf8(a), 0);
        lemma_below_irreflexive(encode_utf8(a), 0);
    }
}

proof fn lemma_ascending_distinct(v: Seq<GuardModel>)
    requires
        ascending(v),
        texts_differ(v),
    ensures
        in_text_order(v),
{
    assert forall|i: int, j: int| 0 <= i < j < v.len() implies text_below(
        (#[trigger] v[i]).text,
        (#[trigger] v[j]).text,
    ) by {
        lemma_text_total(v[i].text, v[j].text);
    }
}

proof fn lemma_in_order_ascending(v: Seq<GuardModel>)
    requires
        in_text_order(v),
    ensures
        ascending(v),
        texts_differ(v),
{
    assert forall|i: int, j: int| 0 <= i < j < v.len() implies !text_below(
        (#[trigger] v[j]).text,
        (#[trigger] v[i]).text,
    ) by {
        lemma_below_one_way(v[i].text, v[j].text);
    }
    assert forall|i: int, j: int| 0 <= i < j < v.len() implies (#[trigger] v[i]).text != (
    #[trigger] v[j]).text by {
        assert(text_below(v[i].text, v[j].text));
        lemma_text_total(v[i].text, v[j].text);
    }
}

/// Puts a phrase into its place, behind those with the same text.
fn insert_phrase(v: &mut Vec<GuardPhrase>, x: GuardPhrase)
    requires
        ascending(guard_models(old(v)@)),
    ensures
        ascending(guard_models(final(v)@)),
        guard_models(final(v)@).to_multiset() == guard_models(old(v)@).to_multiset().insert(x@),
        forall|m: GuardModel| #[trigger]
            guard_models(final(v)@).contains(m) == (guard_models(old(v)@).contains(m) || m == x@),
        texts_differ(guard_models(old(v)@)) && (forall|k: int|
            0 <= k < old(v)@.len() ==> (#[trigger] guard_models(old(v)@)[k]).text != x@.text)
            ==> texts_differ(guard_models(final(v)@)),
        (forall|k: int|
            0 <= k < old(v)@.len() ==> text_below(
                (#[trigger] guard_models(old(v)@)[k]).text,
                x@.text,
            )) ==> guard_models(final(v)@) == guard_models(old(v)@).push(x@),
{
    let ghost before = guard_models(v@);
    let ghost m = x@;
    let mut at: usize = v.len();
    while at > 0 && is_below(x.text.as_str(), v[at - 1].text.as_str())
        invariant
            at <= v@.len(),
            before == guard_models(v@),
            m == x@,
            forall|k: int| at <= k < v@.len() ==> text_below(m.text, (#[trigger] before[k]).text),
        decreases at,
    {
        assert(before[at - 1] == v@[at - 1]@);
        at = at - 1;
    }
    proof {
        assert forall|k: int| 0 <= k < at implies !text_below(m.text, (#[trigger] before[k]).text) by {
            let last = before[at - 1];
            assert(last == v@[at - 1]@);
            if k < at - 1 {
                lemma_not_below(before[k].text, last.text, m.text);
            }
        }
        assert forall|k: int| at <= k < before.len() implies !text_below(
            (#[trigger] before[k]).text,
            m.text,
        ) by {
            lemma_below_one_way(m.text, before[k].text);
        }
    }
    v.insert(at, x);
    proof {
        let now = guard_models(v@);
        assert(now =~= before.insert(at as int, m));
        lemma_insert_multiset(before, at as int, m);
        assert forall|i: int, j: int| 0 <= i < j < now.len() implies !text_below(
            (#[trigger] now[j]).text,
            (#[trigger] now[i]).text,
        ) by {
            if j < at {
                assert(!text_below(before[j].text, before[i].text));
            } else if i < at && j > at {
                assert(!text_below(before[j - 1].text, before[i].text));
            } else if i > at {
                assert(!text_below(before[j - 1].text, before[i - 1].text));
            } else if i == at {
                assert(!text_below(before[j - 1].text, m.text));
            } else {
                assert(!text_below(m.text, before[i].text));
            }
        }
        assert forall|y: GuardModel| #[trigger] now.contains(y) == (before.contains(y) || y == m) by {
            if before.contains(y) {
                let k = choose|k: int| 0 <= k < before.len() && before[k] == y;
                if k < at {
                    assert(now[k] == y);
                } else {
                    assert(now[k + 1] == y);
                }
            }
            if y == m {
                assert(now[at as int] == y);
            }
            if now.contains(y) && y != m {
                let k = choose|k: int| 0 <= k < now.len() && now[k] == y;
                if k < at {
                    assert(before[k] == y);
                } else {
                    assert(before[k - 1] == y);
                }
            }
        }
        if texts_differ(before) && (forall|k: int|
            0 <= k < before.len() ==> (#[trigger] before[k]).text != m.text) {
            assert forall|i: int, j: int| 0 <= i < j < now.len() implies (#[trigger] now[i]).text
                != (#[trigger] now[j]).text by {
                let p = if i < at { i } else { i - 1 };
                let q = if j < at { j } else { j - 1 };
                if i == at {
                    assert(before[q].text != m.text);
                } else if j == at {
                    assert(before[p].text != m.text);
                } else {
                    assert(before[p].text != before[q].text);
                }
            }
        }
        if forall|k: int| 0 <= k < before.len() ==> text_below((#[trigger] before[k]).text, m.text) {
            if at < before.len() {
                assert(text_below(before[at as int].text, m.text));
            }
            assert(now =~= before.push(m));
        }
    }
}

/// The phrases in the order of their texts.
fn in_order(phrases: Vec<GuardPhrase>) -> (r: Vec<GuardPhrase>)
    ensures
        sorted_from(guard_models(phrases@), guard_models(r@)),
        in_text_order(guard_models(phrases@)) ==> guard_models(r@) == guard_models(phrases@),
{
    let ghost given = guard_models(phrases@);
    let mut r: Vec<GuardPhrase> = Vec::new();
    let mut i: usize = 0;
    assert(given.take(0) =~= guard_models(r@));
    while i < phrases.len()
        invariant
            given == guard_models(phrases@),
            i <= phrases@.len(),
            ascending(guard_models(r@)),
            guard_models(r@).to_multiset() == given.take(i as int).to_multiset(),
            forall|m: GuardModel| #[trigger]
                guard_models(r@).contains(m) == given.take(i as int).contains(m),
            texts_differ(given) ==> texts_differ(guard_models(r@)),
            in_text_order(given) ==> guard_models(r@) == given.take(i as int),
        decreases phrases@.len() - i,
    {
        let ghost before = guard_models(r@);
        let x = phrases[i].copied();
        proof {
            let so_far = given.take(i as int);
            assert(x@ == given[i as int]);
            assert(given.take(i + 1) =~= so_far.push(x@));
            to_multiset_build(so_far, x@);
            assert forall|m: GuardModel| #[trigger] given.take(i + 1).contains(m) == (
            so_far.contains(m) || m == x@) by {
                let now = given.take(i + 1);
                if so_far.contains(m) {
                    let k = choose|k: int| 0 <= k < so_far.len() && so_far[k] == m;
                    assert(now[k] == m);
                }
                if m == x@ {
                    assert(now[i as int] == m);
                }
                if now.contains(m) && m != x@ {
                    let k = choose|k: int| 0 <= k < now.len() && now[k] == m;
                    assert(so_far[k] == m);
                }
            }
            if texts_differ(given) {
                assert forall|k: int| 0 <= k < before.len() implies (#[trigger] before[k]).text
                    != x@.text by {
                    assert(before.contains(before[k]));
                    let q = choose|q: int| 0 <= q < so_far.len() && so_far[q] == before[k];
                    assert(given[q].text != given[i as int].text);
                }
            }
            if in_text_order(given) {
                assert forall|k: int| 0 <= k < before.len() implies text_below(
                    (#[trigger] before[k]).text,
                    x@.text,
                ) by {
                    assert(text_below(given[k].text, given[i as int].text));
                }
            }
        }
        insert_phrase(&mut r, x);
        i = i + 1;
    }
    proof {
        assert(given.take(given.len() as int) =~= given);
        if texts_differ(given) {
            lemma_ascending_distinct(guard_models(r@));
        }
    }
    r
}

/// The phrases that the rules give a detector.
pub fn guard_phrases(rules: &Vec<SpellingRule>, name: &str) -> (r: Vec<GuardPhrase>)
    ensures
        guarded(rule_models(rules@), name@, rules@.len() as int, guard_models(r@)),
{
    let ghost v = rule_models(rules@);
    let winning = winners(rules);
    let mut r: Vec<GuardPhrase> = Vec::new();
    let mut i: usize = 0;
    while i < rules.len()
        invariant
            v == rule_models(rules@),
            winning@.len() == v.len(),
            forall|k: int| 0 <= k < v.len() ==> #[trigger] winning@[k] == wins(v, k),
            i <= rules@.len(),
            guarded(v, name@, i as int, guard_models(r@)),
        decreases rules@.len() - i,
    {
        let ghost before = guard_models(r@);
        assert(v[i as int] == rules@[i as int]@);
        assert(winning@[i as int] == wins(v, i as int));
        let mine: bool = match &rules[i].structural_guard {
            Some(g) => same(g.as_str(), name),
            None => false,
        };
        assert(mine == (v[i as int].structural_guard == Some(name@)));
        if winning[i] && mine {
            let x = GuardPhrase::from_rule(&rules[i]);
            proof {
                assert forall|k: int| 0 <= k < r@.len() implies (#[trigger] before[k]).text
                    != x@.text by {
                    assert(given(v, name@, i as int, before[k]));
                    let j = choose|j: int|
                        0 <= j < i && #[trigger] owned_by(v, name@, j) && phrase_of(v[j])
                            == before[k];
                    assert(wins(v, j));
                    assert(v[i as int].from != v[j].from);
                }
            }
            proof {
                lemma_in_order_ascending(before);
            }
            insert_phrase(&mut r, x);
            proof {
                lemma_ascending_distinct(guard_models(r@));
            }
        }
        proof {
            let now = guard_models(r@);
            assert forall|j: int| 0 <= j < i + 1 && #[trigger] owned_by(v, name@, j) implies now.contains(
                phrase_of(v[j]),
            ) by {
                if j < i {
                    assert(before.contains(phrase_of(v[j])));
                }
            }
            assert forall|k: int| 0 <= k < now.len() implies given(
                v,
                name@,
                i + 1,
                #[trigger] now[k],
            ) by {
                assert(now.contains(now[k]));
                if before.contains(now[k]) {
                    let q = choose|q: int| 0 <= q < before.len() && before[q] == now[k];
                    assert(given(v, name@, i as int, before[q]));
                    let j = choose|j: int|
                        0 <= j < i && #[trigger] owned_by(v, name@, j) && phrase_of(v[j])
                            == before[q];
                    assert(owned_by(v, name@, j));
                } else {
                    assert(owned_by(v, name@, i as int));
                }
            }
        }
        i = i + 1;
    }
    r
}

/// The phrases of a detector, with the automaton that finds them.
pub struct StructuralGuard {
    phrases: Vec<GuardPhrase>,
    ac: AhoCorasick,
}

/// What a list of phrases is to be found by.
pub open spec fn phrase_texts(g: Seq<GuardModel>) -> Seq<Seq<char>> {
    Seq::new(g.len(), |i: int| g[i].text)
}

impl StructuralGuard {
    /// The phrases of the guard.
    pub closed spec fn said(&self) -> Seq<GuardModel> {
        guard_models(self.phrases@)
    }

    /// The automaton finds the phrases.
    pub closed spec fn wf(&self) -> bool {
        &&& bytewise_patterns(self.ac) == phrase_texts(self.said())
        &&& finds_leftmost(self.ac)
    }

    /// A guard of the phrases, put in the order of their texts. None where the
    /// automaton cannot be built.
    pub fn from_guard_phrases(phrases: Vec<GuardPhrase>) -> (r: Option<Self>)
        ensures
            exists|said: Seq<GuardModel>|
                #![trigger sorted_from(guard_models(phrases@), said)]
                sorted_from(guard_models(phrases@), said) && r is Some == bytewise_builds(
                    phrase_texts(said),
                    true,
                    false,
                ) && (in_text_order(guard_models(phrases@)) ==> said == guard_models(phrases@)),
            r matches Some(g) ==> g.wf() && sorted_from(guard_models(phrases@), g.said()),
            r matches Some(g) ==> in_text_order(guard_models(phrases@)) ==> g.said()
                == guard_models(phrases@),
    {
        let phrases = in_order(phrases);
        let ghost said = guard_models(phrases@);
        let mut refs: Vec<&str> = Vec::new();
        let mut i: usize = 0;
        while i < phrases.len()
            invariant
                said == guard_models(phrases@),
                i <= phrases@.len(),
                refs@.len() == i,
                forall|k: int| 0 <= k < i ==> (#[trigger] refs@[k])@ == said[k].text,
            decreases phrases@.len() - i,
        {
            assert(said[i as int] == phrases@[i as int]@);
            refs.push(phrases[i].text.as_str());
            i = i + 1;
        }
        assert(texts(refs@) =~= phrase_texts(said));
        match build_leftmost(refs.as_slice()) {
            Some(ac) => Some(StructuralGuard { phrases, ac }),
            None => None,
        }
    }

    /// The phrase behind a match.
    pub fn matched_rule(&self, index: usize) -> (r: &GuardPhrase)
        requires
            index < self.said().len(),
        ensures
            r@ == self.said()[index as int],
    {
        &self.phrases[index]
    }

    /// The matches of the phrases in a text, leftmost and longest first.
    pub fn find_iter(&self, text: &str) -> (r: Vec<Hit>)
        requires
            self.wf(),
            all_nonempty(phrase_texts(self.said())),
        ensures
            leftmost_longest(phrase_texts(self.said()), encode_utf8(text@), r@),
    {
        bytewise_find(&self.ac, text)
    }

    pub fn is_empty(&self) -> (r: bool)
        ensures
            r == (self.said().len() == 0),
    {
        self.phrases.len() == 0
    }
}

/// The guard is that of a known detector, and holds its phrases.
pub open spec fn guard_of(v: Seq<RuleModel>, name: &'static str, g: StructuralGuard) -> bool {
    &&& KNOWN_STRUCTURAL_GUARDS@.contains(name)
    &&& g.wf()
    &&& g.said().len() > 0
    &&& guarded(v, name@, v.len() as int, g.said())
}

/// Whether the detector is to have a guard, `there` saying whether it has.
pub open spec fn owed(v: Seq<RuleModel>, name: Seq<char>, there: bool) -> bool {
    exists|said: Seq<GuardModel>| #[trigger]
        guarded(v, name, v.len() as int, said) && there == (said.len() > 0 && bytewise_builds(
            phrase_texts(said),
            true,
            false,
        ))
}

/// The guards of the detectors that have a phrase.
pub struct GuardRules {
    guards: Vec<(&'static str, StructuralGuard)>,
}

impl GuardRules {
    /// Each guard is that of a known detector, and holds its phrases.
    pub closed spec fn of(&self, v: Seq<RuleModel>) -> bool {
        forall|k: int|
            0 <= k < self.guards@.len() ==> guard_of(
                v,
                (#[trigger] self.guards@[k]).0,
                self.guards@[k].1,
            )
    }

    /// There is a guard of the name.
    pub closed spec fn has(&self, name: Seq<char>) -> bool {
        exists|k: int| 0 <= k < self.guards@.len() && (#[trigger] self.guards@[k]).0@ == name
    }

    /// A known detector has its guard where it has a phrase and the automaton
    /// can be built, and no other has one.
    pub open spec fn gathered(&self, v: Seq<RuleModel>) -> bool {
        &&& forall|name: Seq<char>| #[trigger]
            self.has(name) ==> exists|n: int|
                0 <= n < KNOWN_STRUCTURAL_GUARDS@.len() && (
                #[trigger] KNOWN_STRUCTURAL_GUARDS@[n])@ == name
        &&& forall|n: int|
            0 <= n < KNOWN_STRUCTURAL_GUARDS@.len() ==> owed(
                v,
                (#[trigger] KNOWN_STRUCTURAL_GUARDS@[n])@,
                self.has(KNOWN_STRUCTURAL_GUARDS@[n]@),
            )
    }

    /// Gathers the phrases of every known detector from the rules, before any
    /// profile leaves a type out. A detector without a phrase has no guard,
    /// nor has one whose automaton cannot be built.
    pub fn build(rules: &Vec<SpellingRule>) -> (r: Self)
        ensures
            r.of(rule_models(rules@)),
            r.gathered(rule_models(rules@)),
    {
        let ghost v = rule_models(rules@);
        let mut guards: Vec<(&'static str, StructuralGuard)> = Vec::new();
        let mut k: usize = 0;
        while k < 1
            invariant
                v == rule_models(rules@),
                k <= 1,
                forall|j: int|
                    0 <= j < guards@.len() ==> guard_of(
                        v,
                        (#[trigger] guards@[j]).0,
                        guards@[j].1,
                    ),
                k == 0 ==> guards@.len() == 0,
                guards@.len() <= 1,
                k == 1 ==> owed(v, KNOWN_STRUCTURAL_GUARDS@[0]@, guards@.len() == 1),
                guards@.len() == 1 ==> guards@[0].0 == KNOWN_STRUCTURAL_GUARDS@[0],
            decreases 1 - k,
        {
            let name: &'static str = KNOWN_STRUCTURAL_GUARDS[k];
            let phrases = guard_phrases(rules, name);
            let ghost said = guard_models(phrases@);
            assert(KNOWN_STRUCTURAL_GUARDS@[k as int] == name);
            if phrases.len() > 0 {
                if let Some(g) = StructuralGuard::from_guard_phrases(phrases) {
                    guards.push((name, g));
                }
            }
            assert(guarded(v, name@, v.len() as int, said));
            k = k + 1;
        }
        let r = GuardRules { guards };
        proof {
            let name = KNOWN_STRUCTURAL_GUARDS@[0]@;
            if r.guards@.len() == 1 {
                assert(r.guards@[0].0@ == name);
            }
            assert(r.has(name) == (r.guards@.len() == 1));
        }
        r
    }

    /// The guard of the detector, where it has a phrase.
    pub fn get(&self, name: &str, Ghost(v): Ghost<Seq<RuleModel>>) -> (r: Option<&StructuralGuard>)
        requires
            self.of(v),
        ensures
            r is Some == self.has(name@),
            r matches Some(g) ==> g.wf() && g.said().len() > 0 && guarded(
                v,
                name@,
                v.len() as int,
                g.said(),
            ),
    {
        let mut k: usize = 0;
        while k < self.guards.len()
            invariant
                self.of(v),
                k <= self.guards@.len(),
                forall|j: int| 0 <= j < k ==> (#[trigger] self.guards@[j]).0@ != name@,
            decreases self.guards@.len() - k,
        {
            if same(self.guards[k].0, name) {
                assert(guard_of(v, self.guards@[k as int].0, self.guards@[k as int].1));
                return Some(&self.guards[k].1);
            }
            k = k + 1;
        }
        None
    }
}

} // verus!
