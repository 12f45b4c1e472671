//! The automata of the lexical pass, and the longer forms that they hold so
//! that a phrase within one is not found.
use aho_corasick::AhoCorasick;
use daachorse::CharwiseDoubleArrayAhoCorasick;
use vstd::prelude::*;

use crate::automaton::{
    all_distinct, all_nonempty, build_charwise, build_leftmost, bytewise_builds, bytewise_patterns,
    charwise_builds, charwise_leftmost, charwise_patterns, finds_leftmost, texts,
};
use crate::issue::strings;
use crate::phrase_table::{phrases, PhraseTable};
use crate::rules::{listed_or_none, rule_models, RuleModel, SpellingRule};
use crate::text::{contains_in, lemma_find_in, occurs_at, same, Text};

verus! {

/// The phrases of the rules.
pub open spec fn froms(v: Seq<RuleModel>) -> Seq<Seq<char>> {
    Seq::new(v.len(), |i: int| v[i].from)
}

/// The forms that may take in a rule's phrase: its exceptions, then its
/// replacements.
pub open spec fn forms_in(m: RuleModel) -> Seq<Seq<char>> {
    listed_or_none(m.exceptions) + m.to
}

/// The forms, each with the phrase that it may take in.
pub open spec fn paired_with(forms: Seq<Seq<char>>, from: Seq<char>) -> Seq<(Seq<char>, Seq<char>)> {
    Seq::new(forms.len(), |i: int| (forms[i], from))
}

/// The forms of the first `n` rules, each with the phrase that it may take in.
pub open spec fn pairs(v: Seq<RuleModel>, n: int) -> Seq<(Seq<char>, Seq<char>)>
    decreases n,
{
    if n <= 0 {
        Seq::empty()
    } else {
        pairs(v, n - 1) + paired_with(forms_in(v[n - 1]), v[n - 1].from)
    }
}

/// The form holds the phrase and is no phrase of a rule itself.
pub open spec fn takes_in(f: Seq<Seq<char>>, p: (Seq<char>, Seq<char>)) -> bool {
    contains_in(p.0, p.1, 0, p.0.len() as int) && !f.contains(p.0)
}

/// Some entry is on the form.
pub open spec fn has_form(v: Seq<(Seq<char>, Seq<char>)>, form: Seq<char>) -> bool {
    exists|k: int| 0 <= k < v.len() && (#[trigger] v[k]).0 == form
}

/// The first `n` pairs that come into question, each form once.
pub open spec fn candidates(
    f: Seq<Seq<char>>,
    p: Seq<(Seq<char>, Seq<char>)>,
    n: int,
) -> Seq<(Seq<char>, Seq<char>)>
    decreases n,
{
    if n <= 0 {
        Seq::empty()
    } else {
        let before = candidates(f, p, n - 1);
        if takes_in(f, p[n - 1]) && !has_form(before, p[n - 1].0) {
            before.push(p[n - 1])
        } else {
            before
        }
    }
}

/// A match of `form` would hide one of `phrase`: the phrase stands in it, or
/// begins before it ends.
pub open spec fn hides(form: Seq<char>, phrase: Seq<char>) -> bool {
    contains_in(form, phrase, 0, form.len() as int) || exists|i: int|
        1 <= i < form.len() && #[trigger] occurs_at(
            phrase,
            form.subrange(i, form.len() as int),
            0,
        )
}

/// The form would hide the phrase of another rule.
pub open spec fn hides_another(f: Seq<Seq<char>>, p: (Seq<char>, Seq<char>)) -> bool {
    exists|k: int| 0 <= k < f.len() && #[trigger] f[k] != p.1 && hides(p.0, f[k])
}

/// Those of the first `n` candidates that hide no other phrase.
pub open spec fn harmless(
    f: Seq<Seq<char>>,
    c: Seq<(Seq<char>, Seq<char>)>,
    n: int,
) -> Seq<Seq<char>>
    decreases n,
{
    if n <= 0 {
        Seq::empty()
    } else if hides_another(f, c[n - 1]) {
        harmless(f, c, n - 1)
    } else {
        harmless(f, c, n - 1).push(c[n - 1].0)
    }
}

/// The forms that the automata hold besides the phrases.
pub open spec fn absorbers(v: Seq<RuleModel>) -> Seq<Seq<char>> {
    let p = pairs(v, v.len() as int);
    let c = candidates(froms(v), p, p.len() as int);
    harmless(froms(v), c, c.len() as int)
}

/// The patterns of the automata: the phrases of the rules, then the absorbers.
pub open spec fn patterns(v: Seq<RuleModel>) -> Seq<Seq<char>> {
    froms(v) + absorbers(v)
}

/// The pairs by their characters.
spec fn pair_views(v: Seq<(String, String)>) -> Seq<(Seq<char>, Seq<char>)> {
    Seq::new(v.len(), |i: int| (v[i].0@, v[i].1@))
}

fn add_pairs(out: &mut Vec<(String, String)>, forms: &Vec<String>, from: &String)
    ensures
        pair_views(final(out)@) == pair_views(old(out)@) + paired_with(
            strings(forms@),
            from@,
        ),
{
    let ghost before = pair_views(out@);
    let ghost list = strings(forms@);
    let mut i: usize = 0;
    assert(before + paired_with(list, from@).take(0) =~= before);
    while i < forms.len()
        invariant
            list == strings(forms@),
            i <= forms@.len(),
            pair_views(out@) == before + paired_with(list, from@).take(i as int),
        decreases forms@.len() - i,
    {
        let ghost now = pair_views(out@);
        out.push((forms[i].clone(), from.clone()));
        proof {
            assert(pair_views(out@) =~= now.push((list[i as int], from@)));
            assert(paired_with(list, from@).take(i + 1) =~= paired_with(list, from@).take(
                i as int,
            ).push((list[i as int], from@)));
            assert(pair_views(out@) =~= before + paired_with(list, from@).take(i + 1));
        }
        i = i + 1;
    }
    assert(paired_with(list, from@).take(list.len() as int) =~= paired_with(list, from@));
}

fn collect_pairs(rules: &Vec<SpellingRule>) -> (r: Vec<(String, String)>)
    ensures
        pair_views(r@) == pairs(rule_models(rules@), rules@.len() as int),
{
    let ghost v = rule_models(rules@);
    let mut r: Vec<(String, String)> = Vec::new();
    let mut i: usize = 0;
    assert(pair_views(r@) =~= Seq::empty());
    while i < rules.len()
        invariant
            v == rule_models(rules@),
            i <= rules@.len(),
            pair_views(r@) == pairs(v, i as int),
        decreases rules@.len() - i,
    {
        let ghost m = v[i as int];
        let ghost before = pair_views(r@);
        assert(m == rules@[i as int]@);
        if let Some(e) = &rules[i].exceptions {
            add_pairs(&mut r, e, &rules[i].from);
        } else {
            assert(before + paired_with(Seq::empty(), m.from) =~= before);
        }
        assert(pair_views(r@) =~= before + paired_with(listed_or_none(m.exceptions), m.from));
        add_pairs(&mut r, &rules[i].to, &rules[i].from);
        assert(pair_views(r@) =~= before + paired_with(forms_in(m), m.from));
        i = i + 1;
    }
    r
}

fn does_hide(form: &Text<'_>, phrase: &Text<'_>) -> (r: bool)
    requires
        form.wf(),
        phrase.wf(),
    ensures
        r == hides(form@, phrase@),
{
    let n: usize = form.len();
    if form.find(phrase.source(), 0, n).is_some() {
        return true;
    }
    let mut i: usize = 1;
    while i < n
        invariant
            form.wf(),
            phrase.wf(),
            n == form@.len(),
            1 <= i,
            !contains_in(form@, phrase@, 0, n as int),
            forall|k: int|
                1 <= k < i ==> !#[trigger] occurs_at(phrase@, form@.subrange(k, n as int), 0),
        decreases n - i,
    {
        let rest = form.slice(i, n);
        if rest.as_str().unicode_len() <= phrase.len() && phrase.at(rest.as_str(), 0) {
            assert(occurs_at(phrase@, form@.subrange(i as int, n as int), 0));
            return true;
        }
        i = i + 1;
    }
    false
}

fn does_hide_another(rules: &Vec<SpellingRule>, form: &str, from: &str) -> (r: bool)
    ensures
        r == hides_another(froms(rule_models(rules@)), (form@, from@)),
{
    let ghost f = froms(rule_models(rules@));
    let text = Text::new(form);
    let mut k: usize = 0;
    while k < rules.len()
        invariant
            f == froms(rule_models(rules@)),
            text.wf(),
            text@ == form@,
            k <= rules@.len(),
            forall|j: int| 0 <= j < k && #[trigger] f[j] != from@ ==> !hides(form@, f[j]),
        decreases rules@.len() - k,
    {
        assert(f[k as int] == rules@[k as int].from@);
        if !same(rules[k].from.as_str(), from) {
            let phrase = Text::new(rules[k].from.as_str());
            if does_hide(&text, &phrase) {
                return true;
            }
        }
        k = k + 1;
    }
    false
}

/// The forms that the automata hold besides the phrases.
fn absorber_strings(rules: &Vec<SpellingRule>) -> (r: Vec<String>)
    ensures
        strings(r@) == absorbers(rule_models(rules@)),
{
    let ghost v = rule_models(rules@);
    let ghost f = froms(v);
    let mut taken = PhraseTable::new();
    let mut i: usize = 0;
    while i < rules.len()
        invariant
            v == rule_models(rules@),
            f == froms(v),
            i <= rules@.len(),
            forall|s: Seq<char>| #[trigger]
                phrases(taken).dom().contains(s) == f.take(i as int).contains(s),
        decreases rules@.len() - i,
    {
        let ghost before = taken;
        taken.insert(rules[i].from.as_str(), i);
        proof {
            let a = f.take(i as int);
            let b = f.take(i + 1);
            assert(b =~= a.push(f[i as int]));
            assert(f[i as int] == rules@[i as int].from@);
            assert forall|s: Seq<char>| #[trigger] phrases(taken).dom().contains(s)
                == b.contains(s) by {
                assert(phrases(before).dom().contains(s) == a.contains(s));
                lemma_push_contains(a, f[i as int], s);
            }
        }
        i = i + 1;
    }
    assert(f.take(f.len() as int) =~= f);
    let all = collect_pairs(rules);
    let ghost p = pairs(v, v.len() as int);
    let mut r: Vec<String> = Vec::new();
    let mut seen = PhraseTable::new();
    let mut k: usize = 0;
    assert(strings(r@) =~= Seq::empty());
    while k < all.len()
        invariant
            v == rule_models(rules@),
            f == froms(v),
            pair_views(all@) == p,
            k <= all@.len(),
            forall|s: Seq<char>| #[trigger] phrases(taken).dom().contains(s) == f.contains(s),
            forall|s: Seq<char>| #[trigger]
                phrases(seen).dom().contains(s) == has_form(candidates(f, p, k as int), s),
            strings(r@) == harmless(
                f,
                candidates(f, p, k as int),
                candidates(f, p, k as int).len() as int,
            ),
        decreases all@.len() - k,
    {
        let ghost c = candidates(f, p, k as int);
        let ghost before = seen;
        let ghost out = strings(r@);
        assert(p[k as int] == (all@[k as int].0@, all@[k as int].1@));
        let form = Text::new(all[k].0.as_str());
        let n: usize = form.len();
        assert(phrases(taken).dom().contains(p[k as int].0) == f.contains(p[k as int].0));
        assert(phrases(seen).dom().contains(p[k as int].0) == has_form(c, p[k as int].0));
        if form.find(all[k].1.as_str(), 0, n).is_some() && taken.get(all[k].0.as_str()).is_none()
            && seen.get(all[k].0.as_str()).is_none() {
            seen.insert(all[k].0.as_str(), k);
            let ghost now = c.push(p[k as int]);
            proof {
                lemma_harmless_prefix(f, c, now, c.len() as int);
                assert forall|s: Seq<char>| #[trigger] phrases(seen).dom().contains(s)
                    == has_form(now, s) by {
                    assert(phrases(before).dom().contains(s) == has_form(c, s));
                    if has_form(c, s) {
                        let q = choose|q: int| 0 <= q < c.len() && (#[trigger] c[q]).0 == s;
                        assert(now[q].0 == s);
                    }
                    if s == p[k as int].0 {
                        assert(now[c.len() as int].0 == s);
                    }
                    if has_form(now, s) && s != p[k as int].0 {
                        let q = choose|q: int| 0 <= q < now.len() && (#[trigger] now[q]).0 == s;
                        assert(c[q].0 == s);
                    }
                }
            }
            if !does_hide_another(rules, all[k].0.as_str(), all[k].1.as_str()) {
                r.push(all[k].0.clone());
                assert(strings(r@) =~= out.push(p[k as int].0));
            }
        }
        k = k + 1;
    }
    r
}

proof fn lemma_push_contains(a: Seq<Seq<char>>, x: Seq<char>, s: Seq<char>)
    ensures
        a.push(x).contains(s) == (a.contains(s) || s == x),
{
    let b = a.push(x);
    if a.contains(s) {
        let k = choose|k: int| 0 <= k < a.len() && a[k] == s;
        assert(b[k] == s);
    }
    if s == x {
        assert(b[a.len() as int] == s);
    }
    if b.contains(s) && s != x {
        let k = choose|k: int| 0 <= k < b.len() && b[k] == s;
        assert(a[k] == s);
    }
}

proof fn lemma_harmless_prefix(
    f: Seq<Seq<char>>,
    a: Seq<(Seq<char>, Seq<char>)>,
    b: Seq<(Seq<char>, Seq<char>)>,
    n: int,
)
    requires
        0 <= n <= a.len(),
        n <= b.len(),
        forall|k: int| 0 <= k < n ==> #[trigger] a[k] == b[k],
    ensures
        harmless(f, a, n) == harmless(f, b, n),
    decreases n,
{
    if n > 0 {
        lemma_harmless_prefix(f, a, b, n - 1);
        assert(a[n - 1] == b[n - 1]);
    }
}

/// The automata of a set of rules.
pub struct Automata {
    pub absorber_strings: Vec<String>,
    pub ac_charwise: Option<CharwiseDoubleArrayAhoCorasick<usize>>,
    pub ac_bytewise: Option<AhoCorasick>,
}

impl Automata {
    /// The automata hold the patterns of the rules.
    pub open spec fn of(&self, v: Seq<RuleModel>) -> bool {
        &&& strings(self.absorber_strings@) == absorbers(v)
        &&& self.ac_charwise matches Some(ac) ==> charwise_patterns(ac) == patterns(v)
            && charwise_leftmost(ac)
        &&& self.ac_bytewise matches Some(ac) ==> bytewise_patterns(ac) == patterns(v)
            && finds_leftmost(ac)
        &&& self.ac_charwise is Some ==> self.ac_bytewise is None
    }
}

impl Automata {
    /// The charwise automaton is there where it can be built, and else the
    /// bytewise one where that can.
    pub open spec fn built(&self, v: Seq<RuleModel>) -> bool {
        &&& self.ac_charwise is Some == charwise_builds(patterns(v))
        &&& self.ac_bytewise is Some == (!charwise_builds(patterns(v)) && bytewise_builds(
            patterns(v),
            true,
            false,
        ))
    }

    /// Does with the bytewise automaton, where it can be built.
    pub fn use_bytewise(&mut self, rules: &Vec<SpellingRule>)
        requires
            old(self).of(rule_models(rules@)),
        ensures
            final(self).of(rule_models(rules@)),
            final(self).absorber_strings == old(self).absorber_strings,
            if old(self).ac_bytewise is None && bytewise_builds(
                patterns(rule_models(rules@)),
                true,
                false,
            ) {
                final(self).ac_charwise is None && final(self).ac_bytewise is Some
            } else {
                *final(self) == *old(self)
            },
    {
        if self.ac_bytewise.is_none() {
            let refs = pattern_refs(rules, &self.absorber_strings);
            let ac_bytewise = build_leftmost(refs.as_slice());
            if ac_bytewise.is_some() {
                self.ac_bytewise = ac_bytewise;
                self.ac_charwise = None;
            }
        }
    }
}

fn pattern_refs<'a>(rules: &'a Vec<SpellingRule>, more: &'a Vec<String>) -> (r: Vec<&'a str>)
    ensures
        texts(r@) == froms(rule_models(rules@)) + strings(more@),
{
    let ghost f = froms(rule_models(rules@));
    let mut r: Vec<&'a str> = Vec::new();
    let mut i: usize = 0;
    while i < rules.len()
        invariant
            f == froms(rule_models(rules@)),
            i <= rules@.len(),
            r@.len() == i,
            forall|k: int| 0 <= k < i ==> (#[trigger] r@[k])@ == f[k],
        decreases rules@.len() - i,
    {
        assert(f[i as int] == rules@[i as int].from@);
        r.push(rules[i].from.as_str());
        i = i + 1;
    }
    let mut k: usize = 0;
    while k < more.len()
        invariant
            f.len() == rules@.len(),
            k <= more@.len(),
            r@.len() == f.len() + k,
            forall|j: int| 0 <= j < f.len() ==> (#[trigger] r@[j])@ == f[j],
            forall|j: int|
                f.len() <= j < f.len() + k ==> (#[trigger] r@[j])@ == more@[j - f.len()]@,
        decreases more@.len() - k,
    {
        r.push(more[k].as_str());
        k = k + 1;
    }
    assert(texts(r@) =~= f + strings(more@));
    r
}

/// Builds the charwise automaton of the rules, and the bytewise one where the
/// charwise cannot be built.
pub fn build_automata(rules: &Vec<SpellingRule>) -> (r: Automata)
    ensures
        r.of(rule_models(rules@)),
        r.built(rule_models(rules@)),
{
    let absorber_strings = absorber_strings(rules);
    let refs = pattern_refs(rules, &absorber_strings);
    let ac_charwise = build_charwise(refs.as_slice());
    let ac_bytewise: Option<AhoCorasick> = match &ac_charwise {
        Some(_) => None,
        None => build_leftmost(refs.as_slice()),
    };
    Automata { absorber_strings, ac_charwise, ac_bytewise }
}

/// An absorber is the exception or replacement of some rule, holds that rule's
/// phrase, and is itself no phrase of a rule.
pub proof fn law_absorbers_hold_a_phrase(v: Seq<RuleModel>, k: int)
    requires
        0 <= k < absorbers(v).len(),
    ensures
        !froms(v).contains(absorbers(v)[k]),
        exists|i: int|
            0 <= i < v.len() && forms_in(v[i]).contains(absorbers(v)[k]) && contains_in(
                absorbers(v)[k],
                (#[trigger] v[i]).from,
                0,
                absorbers(v)[k].len() as int,
            ),
{
    let p = pairs(v, v.len() as int);
    let f = froms(v);
    let c = candidates(f, p, p.len() as int);
    let j = lemma_harmless_origin(f, c, c.len() as int, k);
    let m = lemma_candidate_origin(f, p, p.len() as int, j);
    lemma_pair_origin(v, v.len() as int, m);
}

/// An absorber is made for the phrase of one rule, and hides no other rule's:
/// none stands in it, and none begins in it and ends behind it.
pub proof fn law_absorbers_hide_no_other_phrase(v: Seq<RuleModel>, k: int)
    requires
        0 <= k < absorbers(v).len(),
    ensures
        exists|i: int|
            0 <= i < v.len() && forms_in(v[i]).contains(absorbers(v)[k]) && made_for(
                v,
                absorbers(v)[k],
                (#[trigger] v[i]).from,
            ),
{
    let p = pairs(v, v.len() as int);
    let f = froms(v);
    let c = candidates(f, p, p.len() as int);
    let j = lemma_harmless_origin(f, c, c.len() as int, k);
    let m = lemma_candidate_origin(f, p, p.len() as int, j);
    lemma_pair_origin(v, v.len() as int, m);
    let i = choose|i: int|
        0 <= i < v.len() && forms_in(v[i]).contains(p[m].0) && p[m].1 == (#[trigger] v[i]).from;
    assert forall|n: int| 0 <= n < v.len() && (#[trigger] v[n]).from != v[i].from implies !hides(
        absorbers(v)[k],
        v[n].from,
    ) by {
        assert(f[n] == v[n].from);
    }
    assert(made_for(v, absorbers(v)[k], v[i].from));
}

/// The form holds the phrase, and hides that of no rule on another.
pub open spec fn made_for(v: Seq<RuleModel>, form: Seq<char>, phrase: Seq<char>) -> bool {
    &&& contains_in(form, phrase, 0, form.len() as int)
    &&& forall|n: int|
        0 <= n < v.len() && (#[trigger] v[n]).from != phrase ==> !hides(form, v[n].from)
}

proof fn lemma_harmless_origin(
    f: Seq<Seq<char>>,
    c: Seq<(Seq<char>, Seq<char>)>,
    n: int,
    k: int,
) -> (j: int)
    requires
        0 <= n <= c.len(),
        0 <= k < harmless(f, c, n).len(),
    ensures
        0 <= j < n,
        harmless(f, c, n)[k] == c[j].0,
        !hides_another(f, c[j]),
    decreases n,
{
    if hides_another(f, c[n - 1]) || k < harmless(f, c, n - 1).len() {
        lemma_harmless_origin(f, c, n - 1, k)
    } else {
        n - 1
    }
}

proof fn lemma_candidate_origin(
    f: Seq<Seq<char>>,
    p: Seq<(Seq<char>, Seq<char>)>,
    n: int,
    k: int,
) -> (j: int)
    requires
        0 <= n <= p.len(),
        0 <= k < candidates(f, p, n).len(),
    ensures
        0 <= j < n,
        candidates(f, p, n)[k] == p[j],
        takes_in(f, p[j]),
    decreases n,
{
    if k < candidates(f, p, n - 1).len() {
        lemma_candidate_origin(f, p, n - 1, k)
    } else {
        n - 1
    }
}

proof fn lemma_pair_origin(v: Seq<RuleModel>, n: int, k: int)
    requires
        0 <= n <= v.len(),
        0 <= k < pairs(v, n).len(),
    ensures
        exists|i: int|
            0 <= i < n && forms_in(v[i]).contains(pairs(v, n)[k].0) && pairs(v, n)[k].1 == (
            #[trigger] v[i]).from,
    decreases n,
{
    let before = pairs(v, n - 1);
    if k < before.len() {
        lemma_pair_origin(v, n - 1, k);
        assert(pairs(v, n)[k] == before[k]);
    } else {
        let forms = forms_in(v[n - 1]);
        assert(forms[k - before.len()] == pairs(v, n)[k].0);
        assert(v[n - 1].from == pairs(v, n)[k].1);
    }
}

/// The patterns of sound, prepared rules are not empty, and no two are the
/// same.
pub proof fn lemma_patterns(v: Seq<RuleModel>)
    requires
        forall|i: int| 0 <= i < v.len() ==> (#[trigger] v[i]).from.len() > 0,
        forall|i: int, j: int|
            0 <= i < j < v.len() ==> (#[trigger] v[i]).from != (#[trigger] v[j]).from,
    ensures
        all_nonempty(patterns(v)),
        all_distinct(patterns(v)),
{
    let f = froms(v);
    let a = absorbers(v);
    let all = patterns(v);
    let p = pairs(v, v.len() as int);
    let c = candidates(f, p, p.len() as int);
    assert forall|k: int| 0 <= k < all.len() implies (#[trigger] all[k]).len() > 0 by {
        if k < f.len() {
            assert(all[k] == v[k].from);
        } else {
            let q = k - f.len();
            assert(all[k] == a[q]);
            law_absorbers_hold_a_phrase(v, q);
            let i = choose|i: int|
                0 <= i < v.len() && forms_in(v[i]).contains(a[q]) && contains_in(
                    a[q],
                    (#[trigger] v[i]).from,
                    0,
                    a[q].len() as int,
                );
            lemma_find_in(a[q], v[i].from, 0, a[q].len() as int);
        }
    }
    assert forall|i: int, j: int| 0 <= i < j < all.len() implies #[trigger] all[i]
        != #[trigger] all[j] by {
        if j < f.len() {
            assert(v[i].from != v[j].from);
        } else {
            assert(all[j] == a[j - f.len()]);
            if i < f.len() {
                law_absorbers_hold_a_phrase(v, j - f.len());
                assert(f.contains(f[i]));
            } else {
                lemma_candidates_distinct(f, p, p.len() as int);
                lemma_harmless_distinct(f, c, c.len() as int, i - f.len(), j - f.len());
                assert(all[i] == a[i - f.len()]);
            }
        }
    }
}

proof fn lemma_candidates_distinct(
    f: Seq<Seq<char>>,
    p: Seq<(Seq<char>, Seq<char>)>,
    n: int,
)
    requires
        0 <= n <= p.len(),
    ensures
        forall|i: int, j: int|
            0 <= i < j < candidates(f, p, n).len() ==> (#[trigger] candidates(f, p, n)[i]).0 != (
            #[trigger] candidates(f, p, n)[j]).0,
    decreases n,
{
    if n > 0 {
        lemma_candidates_distinct(f, p, n - 1);
        let before = candidates(f, p, n - 1);
        let now = candidates(f, p, n);
        assert forall|i: int, j: int| 0 <= i < j < now.len() implies (#[trigger] now[i]).0 != (
        #[trigger] now[j]).0 by {
            assert(now[i] == before[i]);
            if j < before.len() {
                assert(before[i].0 != before[j].0);
            } else {
                assert(before[i].0 != p[n - 1].0);
            }
        }
    }
}

proof fn lemma_harmless_distinct(
    f: Seq<Seq<char>>,
    c: Seq<(Seq<char>, Seq<char>)>,
    n: int,
    i: int,
    j: int,
)
    requires
        0 <= n <= c.len(),
        0 <= i < j < harmless(f, c, n).len(),
        forall|a: int, b: int|
            0 <= a < b < c.len() ==> (#[trigger] c[a]).0 != (#[trigger] c[b]).0,
    ensures
        harmless(f, c, n)[i] != harmless(f, c, n)[j],
    decreases n,
{
    if hides_another(f, c[n - 1]) || j < harmless(f, c, n - 1).len() {
        lemma_harmless_distinct(f, c, n - 1, i, j);
    } else {
        let q = lemma_harmless_origin(f, c, n - 1, i);
        assert(harmless(f, c, n)[i] == harmless(f, c, n - 1)[i]);
        assert(c[q].0 != c[n - 1].0);
    }
}

} // verus!
