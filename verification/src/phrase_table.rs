//! Phrases and the numbers that they were given.
use rustc_hash::FxHashMap;
use vstd::prelude::*;

verus! {

/// A hash map of `rustc_hash` from phrases to numbers.
#[verifier::external_body]
pub struct PhraseTable {
    map: FxHashMap<String, usize>,
}

/// What a table holds.
pub uninterp spec fn phrases(table: PhraseTable) -> Map<Seq<char>, usize>;

impl PhraseTable {
    /// `FxHashMap::default`: a table that holds nothing.
    #[verifier::external_body]
    pub(crate) fn new() -> (r: Self)
        ensures
            phrases(r).dom() == Set::<Seq<char>>::empty(),
    {
        PhraseTable { map: FxHashMap::default() }
    }

    /// `FxHashMap::get`: the number of the phrase, where it has one.
    #[verifier::external_body]
    pub(crate) fn get(&self, phrase: &str) -> (r: Option<usize>)
        ensures
            match r {
                Some(n) => phrases(*self).dom().contains(phrase@) && phrases(*self)[phrase@] == n,
                None => !phrases(*self).dom().contains(phrase@),
            },
    {
        self.map.get(phrase).copied()
    }

    /// `FxHashMap::insert`: gives the phrase its number, in place of the one
    /// that it had.
    #[verifier::external_body]
    pub(crate) fn insert(&mut self, phrase: &str, number: usize)
        ensures
            phrases(*final(self)) == phrases(*old(self)).insert(phrase@, number),
    {
        self.map.insert(phrase.to_string(), number);
    }
}

} // verus!
