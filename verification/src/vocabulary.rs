//! The clues of all rules, numbered, and the automaton that finds them.
use aho_corasick::AhoCorasick;
use vstd::prelude::*;

use crate::automaton::{build_standard, bytewise_builds, bytewise_patterns, finds_every, texts};
use crate::clues::rising;
use crate::issue::strings;
use crate::phrase_table::{phrases, PhraseTable};
use crate::rules::{listed_or_none, rule_models, RuleModel, SpellingRule};

verus! {

/// How many clues can be numbered.
pub const VOCABULARY_LIMIT: usize = 65536;

/// How many clues of a kind a rule can have.
pub const CLUE_LIMIT: usize = 32;

/// A rule's clues, those for it first.
pub open spec fn clues_in(m: RuleModel) -> Seq<Seq<char>> {
    listed_or_none(m.context_clues) + listed_or_none(m.negative_context_clues)
}

/// The clues of the first `n` rules.
pub open spec fn all_clues(v: Seq<RuleModel>, n: int) -> Seq<Seq<char>>
    decreases n,
{
    if n <= 0 {
        Seq::empty()
    } else {
        all_clues(v, n - 1) + clues_in(v[n - 1])
    }
}

/// The first `n` clues, each once, as long as there are numbers for them.
pub open spec fn numbered(s: Seq<Seq<char>>, n: int) -> Seq<Seq<char>>
    decreases n,
{
    if n <= 0 {
        Seq::empty()
    } else {
        let before = numbered(s, n - 1);
        if before.contains(s[n - 1]) || before.len() >= VOCABULARY_LIMIT {
            before
        } else {
            before.push(s[n - 1])
        }
    }
}

/// The clues of the rules, each in the place of its number.
pub open spec fn vocabulary(v: Seq<RuleModel>) -> Seq<Seq<char>> {
    let s = all_clues(v, v.len() as int);
    numbered(s, s.len() as int)
}

/// Place of an entry.
pub open spec fn place_in(words: Seq<Seq<char>>, s: Seq<char>) -> int {
    choose|k: int| 0 <= k < words.len() && words[k] == s
}

/// The numbers of those of the first `n` clues that have one.
pub open spec fn numbers_of(words: Seq<Seq<char>>, clues: Seq<Seq<char>>, n: int) -> Seq<u16>
    decreases n,
{
    if n <= 0 {
        Seq::empty()
    } else if words.contains(clues[n - 1]) {
        numbers_of(words, clues, n - 1).push(place_in(words, clues[n - 1]) as u16)
    } else {
        numbers_of(words, clues, n - 1)
    }
}

/// The numbers of a list of clues, as many as a rule can have.
pub open spec fn numbers(words: Seq<Seq<char>>, clues: Option<Seq<Seq<char>>>) -> Seq<u16> {
    let list = listed_or_none(clues);
    let all = numbers_of(words, list, list.len() as int);
    if all.len() > CLUE_LIMIT {
        all.take(CLUE_LIMIT as int)
    } else {
        all
    }
}

pub open spec fn opt_ids(o: Option<Vec<u16>>) -> Option<Seq<u16>> {
    match o {
        Some(v) => Some(v@),
        None => None,
    }
}

/// `ids` are the numbers of the clues, in rising order; nothing where no clue
/// has a number.
pub open spec fn numbered_clues(
    words: Seq<Seq<char>>,
    clues: Option<Seq<Seq<char>>>,
    ids: Option<Seq<u16>>,
) -> bool {
    let all = numbers(words, clues);
    match ids {
        None => all.len() == 0,
        Some(v) => {
            &&& all.len() > 0
            &&& v.len() > 0
            &&& rising(v)
            &&& forall|id: u16| #[trigger] v.contains(id) == all.contains(id)
        },
    }
}

/// The words stand in the places that the table says, each once, and the table
/// knows all of them.
spec fn table_fits(table: PhraseTable, words: Seq<Seq<char>>) -> bool {
    &&& forall|s: Seq<char>| #[trigger] phrases(table).dom().contains(s) == words.contains(s)
    &&& forall|s: Seq<char>| #[trigger]
        phrases(table).dom().contains(s) ==> phrases(table)[s] < words.len()
            && words[phrases(table)[s] as int] == s
    &&& forall|i: int, j: int| 0 <= i < j < words.len() ==> #[trigger] words[i] != #[trigger] words[j]
}

proof fn lemma_place(words: Seq<Seq<char>>, k: int)
    requires
        0 <= k < words.len(),
        forall|i: int, j: int|
            0 <= i < j < words.len() ==> #[trigger] words[i] != #[trigger] words[j],
    ensures
        place_in(words, words[k]) == k,
{
    let p = place_in(words, words[k]);
    assert(0 <= p < words.len() && words[p] == words[k]);
}

/// Gives a clue its number.
fn intern(table: &mut PhraseTable, words: &mut Vec<String>, clue: &String)
    requires
        table_fits(*old(table), strings(old(words)@)),
        old(words)@.len() <= VOCABULARY_LIMIT,
    ensures
        table_fits(*final(table), strings(final(words)@)),
        strings(final(words)@) == (if strings(old(words)@).contains(clue@) || old(words)@.len()
            >= VOCABULARY_LIMIT {
            strings(old(words)@)
        } else {
            strings(old(words)@).push(clue@)
        }),
        final(words)@.len() <= VOCABULARY_LIMIT,
{
    let ghost before = strings(words@);
    let ghost was = *table;
    let n: usize = words.len();
    let known: bool = table.get(clue.as_str()).is_some();
    assert(known == before.contains(clue@)) by {
        assert(phrases(was).dom().contains(clue@) == before.contains(clue@));
    }
    if known || n >= VOCABULARY_LIMIT {
        return ;
    }
    table.insert(clue.as_str(), n);
    words.push(clue.clone());
    proof {
        let now = strings(words@);
        assert(now =~= before.push(clue@));
        assert forall|s: Seq<char>| #[trigger] phrases(*table).dom().contains(s)
            == now.contains(s) by {
            assert(phrases(was).dom().contains(s) == before.contains(s));
            if before.contains(s) {
                let k = choose|k: int| 0 <= k < before.len() && before[k] == s;
                assert(now[k] == s);
            }
            if s == clue@ {
                assert(now[n as int] == s);
            }
            if now.contains(s) && s != clue@ {
                let k = choose|k: int| 0 <= k < now.len() && now[k] == s;
                assert(before[k] == s);
            }
        }
        assert forall|s: Seq<char>| #[trigger]
            phrases(*table).dom().contains(s) implies phrases(*table)[s] < now.len()
            && now[phrases(*table)[s] as int] == s by {
            if s != clue@ {
                assert(phrases(was).dom().contains(s));
            }
        }
        assert forall|i: int, j: int| 0 <= i < j < now.len() implies #[trigger] now[i]
            != #[trigger] now[j] by {
            if j == n {
                assert(before.contains(before[i]));
            } else {
                assert(before[i] != before[j]);
            }
        }
    }
}

fn intern_list(
    table: &mut PhraseTable,
    words: &mut Vec<String>,
    clues: &Option<Vec<String>>,
    Ghost(done): Ghost<Seq<Seq<char>>>,
)
    requires
        table_fits(*old(table), strings(old(words)@)),
        old(words)@.len() <= VOCABULARY_LIMIT,
        strings(old(words)@) == numbered(done, done.len() as int),
    ensures
        table_fits(*final(table), strings(final(words)@)),
        final(words)@.len() <= VOCABULARY_LIMIT,
        ({
            let all = done + listed_or_none(crate::issue::opt_strings(*clues));
            strings(final(words)@) == numbered(all, all.len() as int)
        }),
{
    match clues {
        None => {
            assert(done + Seq::<Seq<char>>::empty() =~= done);
        },
        Some(v) => {
            let ghost list = strings(v@);
            let mut i: usize = 0;
            assert(done + list.take(0) =~= done);
            while i < v.len()
                invariant
                    i <= v@.len(),
                    list == strings(v@),
                    table_fits(*table, strings(words@)),
                    words@.len() <= VOCABULARY_LIMIT,
                    strings(words@) == numbered(
                        done + list.take(i as int),
                        (done + list.take(i as int)).len() as int,
                    ),
                decreases v@.len() - i,
            {
                proof {
                    let a = done + list.take(i as int);
                    let b = done + list.take(i + 1);
                    assert(b =~= a.push(v@[i as int]@));
                    lemma_numbered_prefix(a, b, a.len() as int);
                    assert(b[b.len() - 1] == v@[i as int]@);
                }
                intern(table, words, &v[i]);
                i = i + 1;
            }
            assert(list.take(list.len() as int) =~= list);
        },
    }
}

proof fn lemma_numbered_prefix(a: Seq<Seq<char>>, b: Seq<Seq<char>>, n: int)
    requires
        0 <= n <= a.len(),
        n <= b.len(),
        forall|k: int| 0 <= k < n ==> #[trigger] a[k] == b[k],
    ensures
        numbered(a, n) == numbered(b, n),
    decreases n,
{
    if n > 0 {
        lemma_numbered_prefix(a, b, n - 1);
        assert(a[n - 1] == b[n - 1]);
    }
}

/// Puts a number into a rising list, unless it is there.
fn insert_rising(ids: &mut Vec<u16>, id: u16)
    requires
        rising(old(ids)@),
    ensures
        rising(final(ids)@),
        final(ids)@.len() > 0,
        forall|x: u16| #[trigger]
            final(ids)@.contains(x) == (old(ids)@.contains(x) || x == id),
{
    let ghost before = ids@;
    let mut at: usize = ids.len();
    while at > 0 && ids[at - 1] > id
        invariant
            at <= ids@.len(),
            ids@ == before,
            rising(ids@),
            forall|k: int| at <= k < ids@.len() ==> #[trigger] ids@[k] > id,
        decreases at,
    {
        at = at - 1;
    }
    if at > 0 && ids[at - 1] == id {
        assert(before[at - 1] == id);
        return ;
    }
    ids.insert(at, id);
    proof {
        let now = ids@;
        assert(now == before.insert(at as int, id));
        assert forall|i: int, j: int| 0 <= i < j < now.len() implies #[trigger] now[i]
            < #[trigger] now[j] by {
            if j < at {
                assert(before[i] < before[j]);
            } else if i < at && j == at {
                if i < at - 1 {
                    assert(before[i] < before[at - 1]);
                }
            } else if i < at {
                assert(before[i] < before[j - 1]);
            } else if i > at {
                assert(before[i - 1] < before[j - 1]);
            } else {
                assert(before[j - 1] > id);
            }
        }
        assert forall|x: u16| #[trigger] now.contains(x) == (before.contains(x) || x == id) by {
            if before.contains(x) {
                let k = choose|k: int| 0 <= k < before.len() && before[k] == x;
                if k < at {
                    assert(now[k] == x);
                } else {
                    assert(now[k + 1] == x);
                }
            }
            if x == id {
                assert(now[at as int] == x);
            }
            if now.contains(x) && x != id {
                let k = choose|k: int| 0 <= k < now.len() && now[k] == x;
                if k < at {
                    assert(before[k] == x);
                } else {
                    assert(before[k - 1] == x);
                }
            }
        }
    }
}

/// The numbers of a rule's clues.
fn number_clues(
    table: &PhraseTable,
    Ghost(words): Ghost<Seq<Seq<char>>>,
    clues: &Option<Vec<String>>,
) -> (r: Option<Vec<u16>>)
    requires
        table_fits(*table, words),
        words.len() <= VOCABULARY_LIMIT,
    ensures
        numbered_clues(words, crate::issue::opt_strings(*clues), opt_ids(r)),
{
    match clues {
        None => None,
        Some(v) => {
            let ghost list = strings(v@);
            let ghost all = numbers_of(words, list, list.len() as int);
            let mut ids: Vec<u16> = Vec::new();
            let mut found: usize = 0;
            let mut i: usize = 0;
            proof {
                lemma_numbers_grow(words, list, 0, list.len() as int);
            }
            while i < v.len() && found < CLUE_LIMIT
                invariant
                    i <= v@.len(),
                    list == strings(v@),
                    all == numbers_of(words, list, list.len() as int),
                    table_fits(*table, words),
                    words.len() <= VOCABULARY_LIMIT,
                    found <= CLUE_LIMIT,
                    found == numbers_of(words, list, i as int).len(),
                    rising(ids@),
                    found > 0 ==> ids@.len() > 0,
                    forall|x: u16| #[trigger]
                        ids@.contains(x) == numbers_of(words, list, i as int).contains(x),
                decreases v@.len() - i,
            {
                let ghost before = numbers_of(words, list, i as int);
                assert(list[i as int] == v@[i as int]@);
                match table.get(v[i].as_str()) {
                    Some(k) => {
                        proof {
                            assert(phrases(*table).dom().contains(list[i as int]));
                            assert(words[k as int] == list[i as int]);
                            lemma_place(words, k as int);
                        }
                        let ghost old_ids = ids@;
                        insert_rising(&mut ids, k as u16);
                        found = found + 1;
                        proof {
                            let now = before.push(k as u16);
                            assert(numbers_of(words, list, i + 1) == now);
                            assert forall|x: u16| #[trigger] ids@.contains(x)
                                == now.contains(x) by {
                                assert(old_ids.contains(x) == before.contains(x));
                                if before.contains(x) {
                                    let q = choose|q: int| 0 <= q < before.len() && before[q] == x;
                                    assert(now[q] == x);
                                }
                                if x == k as u16 {
                                    assert(now[before.len() as int] == x);
                                }
                                if now.contains(x) && x != k as u16 {
                                    let q = choose|q: int| 0 <= q < now.len() && now[q] == x;
                                    assert(before[q] == x);
                                }
                            }
                        }
                    },
                    None => {
                        assert(!phrases(*table).dom().contains(list[i as int]));
                    },
                }
                i = i + 1;
            }
            proof {
                lemma_numbers_grow(words, list, i as int, list.len() as int);
                let part = numbers_of(words, list, i as int);
                let limit = if all.len() > CLUE_LIMIT {
                    all.take(CLUE_LIMIT as int)
                } else {
                    all
                };
                assert(part =~= limit);
            }
            if ids.len() == 0 {
                proof {
                    if numbers(words, Some(list)).len() > 0 {
                        assert(found > 0);
                    }
                }
                None
            } else {
                proof {
                    assert(ids@.contains(ids@[0]));
                }
                Some(ids)
            }
        },
    }
}

/// The numbers of fewer clues are the first of the numbers of more.
proof fn lemma_numbers_grow(words: Seq<Seq<char>>, clues: Seq<Seq<char>>, m: int, n: int)
    requires
        0 <= m <= n,
    ensures
        numbers_of(words, clues, m).len() <= numbers_of(words, clues, n).len(),
        numbers_of(words, clues, m) == numbers_of(words, clues, n).take(
            numbers_of(words, clues, m).len() as int,
        ),
    decreases n - m,
{
    let a = numbers_of(words, clues, m);
    if m < n {
        lemma_numbers_grow(words, clues, m, n - 1);
        let b = numbers_of(words, clues, n - 1);
        let c = numbers_of(words, clues, n);
        assert(a =~= c.take(a.len() as int)) by {
            assert(a == b.take(a.len() as int));
        }
    } else {
        assert(a =~= a.take(a.len() as int));
    }
}

/// The clues of a set of rules.
pub struct ClueVocabulary {
    /// The clues, each in the place of its number.
    pub words: Vec<String>,
    pub clue_ac: Option<AhoCorasick>,
    /// Per rule, the numbers of the clues for it.
    pub pos_ids: Vec<Option<Vec<u16>>>,
    /// Per rule, the numbers of the clues against it.
    pub neg_ids: Vec<Option<Vec<u16>>>,
}

impl ClueVocabulary {
    /// The vocabulary is that of the rules.
    /// The automaton is there where there are clues and it can be built.
    pub open spec fn built(&self, v: Seq<RuleModel>) -> bool {
        self.clue_ac is Some == (vocabulary(v).len() > 0 && bytewise_builds(vocabulary(v), false, false))
    }

    pub open spec fn of(&self, v: Seq<RuleModel>) -> bool {
        &&& strings(self.words@) == vocabulary(v)
        &&& self.words@.len() <= VOCABULARY_LIMIT
        &&& self.pos_ids@.len() == v.len()
        &&& self.neg_ids@.len() == v.len()
        &&& forall|i: int|
            0 <= i < v.len() ==> numbered_clues(
                vocabulary(v),
                v[i].context_clues,
                opt_ids(#[trigger] self.pos_ids@[i]),
            )
        &&& forall|i: int|
            0 <= i < v.len() ==> numbered_clues(
                vocabulary(v),
                v[i].negative_context_clues,
                opt_ids(#[trigger] self.neg_ids@[i]),
            )
        &&& self.words@.len() == 0 ==> self.clue_ac is None
        &&& self.clue_ac matches Some(ac) ==> bytewise_patterns(ac) == vocabulary(v)
            && finds_every(ac)
    }
}

/// The strings of a list, borrowed.
pub fn borrowed<'a>(v: &'a Vec<String>) -> (r: Vec<&'a str>)
    ensures
        texts(r@) == strings(v@),
{
    let mut r: Vec<&'a str> = Vec::new();
    let mut i: usize = 0;
    while i < v.len()
        invariant
            i <= v@.len(),
            r@.len() == i,
            forall|k: int| 0 <= k < i ==> (#[trigger] r@[k])@ == v@[k]@,
        decreases v@.len() - i,
    {
        r.push(v[i].as_str());
        i = i + 1;
    }
    assert(texts(r@) =~= strings(v@));
    r
}

/// Numbers the clues of the rules and builds the automaton that finds them.
pub fn build_clue_index(rules: &Vec<SpellingRule>) -> (r: ClueVocabulary)
    ensures
        r.of(rule_models(rules@)),
        r.built(rule_models(rules@)),
{
    let ghost v = rule_models(rules@);
    let mut table = PhraseTable::new();
    let mut words: Vec<String> = Vec::new();
    let mut i: usize = 0;
    assert(strings(words@) =~= Seq::empty());
    while i < rules.len()
        invariant
            v == rule_models(rules@),
            i <= rules@.len(),
            table_fits(table, strings(words@)),
            words@.len() <= VOCABULARY_LIMIT,
            strings(words@) == numbered(
                all_clues(v, i as int),
                all_clues(v, i as int).len() as int,
            ),
        decreases rules@.len() - i,
    {
        let ghost done = all_clues(v, i as int);
        let ghost pos = listed_or_none(v[i as int].context_clues);
        let ghost neg = listed_or_none(v[i as int].negative_context_clues);
        assert(v[i as int] == rules@[i as int]@);
        intern_list(&mut table, &mut words, &rules[i].context_clues, Ghost(done));
        intern_list(
            &mut table,
            &mut words,
            &rules[i].negative_context_clues,
            Ghost(done + pos),
        );
        assert(done + pos + neg =~= all_clues(v, i + 1));
        i = i + 1;
    }
    let ghost vocab = vocabulary(v);
    let mut pos_ids: Vec<Option<Vec<u16>>> = Vec::new();
    let mut neg_ids: Vec<Option<Vec<u16>>> = Vec::new();
    let mut k: usize = 0;
    while k < rules.len()
        invariant
            v == rule_models(rules@),
            k <= rules@.len(),
            table_fits(table, vocab),
            vocab.len() <= VOCABULARY_LIMIT,
            pos_ids@.len() == k,
            neg_ids@.len() == k,
            forall|j: int|
                0 <= j < k ==> numbered_clues(
                    vocab,
                    v[j].context_clues,
                    opt_ids(#[trigger] pos_ids@[j]),
                ),
            forall|j: int|
                0 <= j < k ==> numbered_clues(
                    vocab,
                    v[j].negative_context_clues,
                    opt_ids(#[trigger] neg_ids@[j]),
                ),
        decreases rules@.len() - k,
    {
        assert(v[k as int] == rules@[k as int]@);
        pos_ids.push(number_clues(&table, Ghost(vocab), &rules[k].context_clues));
        neg_ids.push(number_clues(&table, Ghost(vocab), &rules[k].negative_context_clues));
        k = k + 1;
    }
    let clue_ac: Option<AhoCorasick> = if words.len() == 0 {
        None
    } else {
        let refs = borrowed(&words);
        build_standard(refs.as_slice())
    };
    ClueVocabulary { words, clue_ac, pos_ids, neg_ids }
}

/// The vocabulary keeps to its limit.
pub proof fn lemma_vocabulary_bounded(v: Seq<RuleModel>)
    ensures
        vocabulary(v).len() <= VOCABULARY_LIMIT,
{
    let s = all_clues(v, v.len() as int);
    lemma_numbered_bounded(s, s.len() as int);
}

proof fn lemma_numbered_bounded(s: Seq<Seq<char>>, n: int)
    ensures
        numbered(s, n).len() <= VOCABULARY_LIMIT,
    decreases n,
{
    if n > 0 {
        lemma_numbered_bounded(s, n - 1);
    }
}

proof fn lemma_numbered_holds(s: Seq<Seq<char>>, n: int, k: int)
    requires
        0 <= k < n <= s.len(),
        numbered(s, n).len() < VOCABULARY_LIMIT,
    ensures
        numbered(s, n).contains(s[k]),
    decreases n,
{
    let before = numbered(s, n - 1);
    let now = numbered(s, n);
    if k < n - 1 {
        lemma_numbered_holds(s, n - 1, k);
        let j = choose|j: int| 0 <= j < before.len() && before[j] == s[k];
        assert(now[j] == s[k]);
    } else if !before.contains(s[k]) {
        assert(now[before.len() as int] == s[k]);
    }
}

proof fn lemma_all_clues_hold(v: Seq<RuleModel>, n: int, i: int, clue: Seq<char>)
    requires
        0 <= i < n <= v.len(),
        clues_in(v[i]).contains(clue),
    ensures
        all_clues(v, n).contains(clue),
    decreases n,
{
    let before = all_clues(v, n - 1);
    let own = clues_in(v[n - 1]);
    let now = all_clues(v, n);
    if i < n - 1 {
        lemma_all_clues_hold(v, n - 1, i, clue);
        let j = choose|j: int| 0 <= j < before.len() && before[j] == clue;
        assert(now[j] == clue);
    } else {
        let j = choose|j: int| 0 <= j < own.len() && own[j] == clue;
        assert(now[before.len() + j] == clue);
    }
}

/// While there are numbers left, every clue of every rule has one.
pub proof fn law_every_clue_has_a_number(v: Seq<RuleModel>, i: int, clue: Seq<char>)
    requires
        0 <= i < v.len(),
        vocabulary(v).len() < 65536,
        ({
            ||| v[i].context_clues matches Some(c) && c.contains(clue)
            ||| v[i].negative_context_clues matches Some(c) && c.contains(clue)
        }),
    ensures
        vocabulary(v).contains(clue),
{
    let p = listed_or_none(v[i].context_clues);
    let q = listed_or_none(v[i].negative_context_clues);
    if p.contains(clue) {
        let j = choose|j: int| 0 <= j < p.len() && p[j] == clue;
        assert((p + q)[j] == clue);
    } else {
        let j = choose|j: int| 0 <= j < q.len() && q[j] == clue;
        assert((p + q)[p.len() + j] == clue);
    }
    lemma_all_clues_hold(v, v.len() as int, i, clue);
    let s = all_clues(v, v.len() as int);
    let k = choose|k: int| 0 <= k < s.len() && s[k] == clue;
    lemma_numbered_holds(s, s.len() as int, k);
}

/// A clue that has a number is among the numbers of a list that holds it.
pub proof fn lemma_numbers_hold(words: Seq<Seq<char>>, list: Seq<Seq<char>>, n: int, k: int)
    requires
        0 <= k < n <= list.len(),
        words.contains(list[k]),
        words.len() <= VOCABULARY_LIMIT,
    ensures
        numbers_of(words, list, n).contains(place_in(words, list[k]) as u16),
        numbers_of(words, list, n).len() <= n,
    decreases n,
{
    let now = numbers_of(words, list, n);
    let before = numbers_of(words, list, n - 1);
    lemma_numbers_short(words, list, n - 1);
    let id = place_in(words, list[k]) as u16;
    if k < n - 1 {
        lemma_numbers_hold(words, list, n - 1, k);
        let j = choose|j: int| 0 <= j < before.len() && before[j] == id;
        assert(now[j] == id);
    } else {
        assert(now[before.len() as int] == id);
    }
}

proof fn lemma_numbers_short(words: Seq<Seq<char>>, list: Seq<Seq<char>>, n: int)
    requires
        0 <= n <= list.len(),
    ensures
        numbers_of(words, list, n).len() <= n,
    decreases n,
{
    if n > 0 {
        lemma_numbers_short(words, list, n - 1);
    }
}

/// Each number is that of a clue of the list.
pub proof fn lemma_numbers_source(words: Seq<Seq<char>>, list: Seq<Seq<char>>, n: int, id: u16)
    requires
        0 <= n <= list.len(),
        numbers_of(words, list, n).contains(id),
        words.len() <= VOCABULARY_LIMIT,
    ensures
        id < words.len(),
        list.contains(words[id as int]),
    decreases n,
{
    let now = numbers_of(words, list, n);
    let j = choose|j: int| 0 <= j < now.len() && now[j] == id;
    if words.contains(list[n - 1]) && j == now.len() - 1 {
        let k = place_in(words, list[n - 1]);
        assert(words[k] == list[n - 1]);
    } else {
        let before = numbers_of(words, list, n - 1);
        assert(before[j] == id);
        lemma_numbers_source(words, list, n - 1, id);
    }
}

} // verus!
