//! Terms that are written in one case.
use aho_corasick::AhoCorasick;
use vstd::prelude::*;
use vstd::string::*;

use crate::automaton::{
    build_folding, bytewise_builds, bytewise_folds, bytewise_leftmost, bytewise_patterns, texts,
};
use crate::issue::strings;
use crate::vocabulary::borrowed;

verus! {

/// A term, and the other ways in which it may be written.
#[derive(Clone, Debug)]
pub struct CaseRule {
    pub term: String,
    pub alternatives: Option<Vec<String>>,
    /// The rule is switched off.
    pub disabled: bool,
}

/// A rule, by its characters.
#[verifier::ext_equal]
pub ghost struct CaseModel {
    pub term: Seq<char>,
    pub alternatives: Option<Seq<Seq<char>>>,
    pub disabled: bool,
}

impl View for CaseRule {
    type V = CaseModel;

    open spec fn view(&self) -> CaseModel {
        CaseModel {
            term: self.term@,
            alternatives: match self.alternatives {
                Some(v) => Some(strings(v@)),
                None => None,
            },
            disabled: self.disabled,
        }
    }
}

/// The rules of a list, each by what it says.
pub open spec fn case_models(v: Seq<CaseRule>) -> Seq<CaseModel> {
    Seq::new(v.len(), |i: int| v[i]@)
}

/// Those of the first `n` rules that are not switched off, in order.
pub open spec fn switched_on(v: Seq<CaseModel>, n: int) -> Seq<CaseModel>
    decreases n,
{
    if n <= 0 {
        Seq::empty()
    } else if v[n - 1].disabled {
        switched_on(v, n - 1)
    } else {
        switched_on(v, n - 1).push(v[n - 1])
    }
}

/// The characters that `str::to_lowercase` makes of a text.
pub uninterp spec fn lowercased(s: Seq<char>) -> Seq<char>;

/// The text that `str::to_lowercase` gives.
#[verifier::external_body]
fn lowercase(s: &str) -> (r: String)
    ensures
        r@ == lowercased(s@),
{
    s.to_lowercase()
}

/// What the terms are found by.
pub open spec fn case_texts(v: Seq<CaseModel>) -> Seq<Seq<char>> {
    Seq::new(v.len(), |i: int| lowercased(v[i].term))
}

/// Takes out the rules that are switched off.
pub fn drop_disabled(rules: &mut Vec<CaseRule>)
    ensures
        case_models(final(rules)@) == switched_on(
            case_models(old(rules)@),
            old(rules)@.len() as int,
        ),
{
    let ghost v = case_models(rules@);
    let ghost mut done: int = 0;
    let mut i: usize = 0;
    assert(case_models(rules@) =~= switched_on(v, 0) + v.skip(0));
    while i < rules.len()
        invariant
            0 <= done <= v.len(),
            i == switched_on(v, done).len(),
            i <= rules@.len(),
            rules@.len() - i == v.len() - done,
            case_models(rules@) == switched_on(v, done) + v.skip(done),
        decreases rules@.len() - i,
    {
        let ghost before = case_models(rules@);
        assert(before[i as int] == v[done]);
        assert(before[i as int] == rules@[i as int]@);
        if rules[i].disabled {
            rules.remove(i);
            assert(case_models(rules@) =~= before.remove(i as int));
        } else {
            i = i + 1;
        }
        assert(case_models(rules@) =~= switched_on(v, done + 1) + v.skip(done + 1));
        proof {
            done = done + 1;
        }
    }
    assert(case_models(rules@) =~= switched_on(v, v.len() as int));
}

/// The terms in lower case.
pub fn case_patterns(rules: &Vec<CaseRule>) -> (r: Vec<String>)
    ensures
        strings(r@) == case_texts(case_models(rules@)),
{
    let mut r: Vec<String> = Vec::new();
    let mut i: usize = 0;
    while i < rules.len()
        invariant
            i <= rules@.len(),
            r@.len() == i,
            forall|k: int| 0 <= k < i ==> (#[trigger] r@[k])@ == lowercased(rules@[k].term@),
        decreases rules@.len() - i,
    {
        r.push(lowercase(rules[i].term.as_str()));
        i = i + 1;
    }
    assert(strings(r@) =~= case_texts(case_models(rules@)));
    r
}

/// The automaton finds the terms, in whatever case they are written.
pub open spec fn finds_terms(ac: AhoCorasick, v: Seq<CaseModel>) -> bool {
    &&& bytewise_patterns(ac) == case_texts(v)
    &&& bytewise_leftmost(ac)
    &&& bytewise_folds(ac)
}

/// The automaton of the terms. None where it cannot be built.
pub fn build_case_automaton(rules: &Vec<CaseRule>) -> (r: Option<AhoCorasick>)
    ensures
        r is Some == bytewise_builds(case_texts(case_models(rules@)), true, true),
        r matches Some(ac) ==> finds_terms(ac, case_models(rules@)),
{
    let patterns = case_patterns(rules);
    let refs = borrowed(&patterns);
    assert(texts(refs@) =~= case_texts(case_models(rules@)));
    build_folding(refs.as_slice())
}

} // verus!
