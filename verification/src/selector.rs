//! Replacements that clues nearby select.
use aho_corasick::AhoCorasick;
use vstd::prelude::*;
use vstd::string::*;
use vstd::utf8::*;

use crate::automaton::{
    all_nonempty, build_standard, bytewise_builds, bytewise_find_all, bytewise_patterns,
    finds_every, pattern_at, texts,
};
use crate::bytes::{lemma_bytes_to_chars, lemma_chars_to_bytes};
use crate::issue::strings;
use crate::rules::{copied, groups, none_empty, GroupModel, RuleModel, SpellingRule};
use crate::text::{byte_pos, contains_in, find_in, lemma_byte_pos_monotone, lemma_find_in};

verus! {

/// A list with something in it, and nothing empty.
pub open spec fn usable(v: Seq<Seq<char>>) -> bool {
    v.len() > 0 && none_empty(v)
}

/// Those of the first `n` groups that can select and have something to
/// select.
pub open spec fn usable_groups(g: Seq<GroupModel>, n: int) -> Seq<GroupModel>
    decreases n,
{
    if n <= 0 {
        Seq::empty()
    } else if usable(g[n - 1].clues) && usable(g[n - 1].to) {
        usable_groups(g, n - 1).push(g[n - 1])
    } else {
        usable_groups(g, n - 1)
    }
}

/// The groups of a rule that count: none where the rule's own replacement is
/// the empty one.
pub open spec fn groups_of(m: RuleModel) -> Seq<GroupModel> {
    match m.context_suggestions {
        Some(g) => if m.sentinel() {
            Seq::empty()
        } else {
            usable_groups(g, g.len() as int)
        },
        None => Seq::empty(),
    }
}

/// Some clue of the group stands in the window.
pub open spec fn selects(window: Seq<char>, g: GroupModel) -> bool {
    exists|k: int|
        0 <= k < g.clues.len() && #[trigger] contains_in(
            window,
            g.clues[k],
            0,
            window.len() as int,
        )
}

/// First group from `i` on that the window selects.
pub open spec fn selected(window: Seq<char>, g: Seq<GroupModel>, i: int) -> Option<int>
    decreases g.len() - i,
{
    if i >= g.len() || i < 0 {
        None
    } else if selects(window, g[i]) {
        Some(i)
    } else {
        selected(window, g, i + 1)
    }
}

/// The groups of a rule, with an automaton for all their clues.
pub struct CompiledContextSelector {
    clue_ac: AhoCorasick,
    /// The group that each clue belongs to.
    group_of: Vec<usize>,
    /// The replacements of each group.
    to: Vec<Vec<String>>,
}

/// The first `n` groups' clues, one after another.
pub open spec fn clues_upto(g: Seq<GroupModel>, n: int) -> Seq<Seq<char>>
    decreases n,
{
    if n <= 0 {
        Seq::empty()
    } else {
        clues_upto(g, n - 1) + g[n - 1].clues
    }
}

/// The clue is listed as one of the `i`-th group.
spec fn owned(clues: Seq<Seq<char>>, group_of: Seq<usize>, i: int, clue: Seq<char>) -> bool {
    exists|p: int| 0 <= p < clues.len() && #[trigger] group_of[p] == i && clues[p] == clue
}

/// Each clue is one of its group, and each clue of a group is listed.
spec fn owners(g: Seq<GroupModel>, clues: Seq<Seq<char>>, group_of: Seq<usize>, n: int) -> bool {
    &&& clues.len() == group_of.len()
    &&& forall|p: int|
        0 <= p < clues.len() ==> (#[trigger] group_of[p]) < n && g[group_of[p] as int].clues.contains(
            clues[p],
        )
    &&& forall|i: int, k: int|
        0 <= i < n && 0 <= k < g[i].clues.len() ==> owned(
            clues,
            group_of,
            i,
            #[trigger] g[i].clues[k],
        )
}

impl CompiledContextSelector {
    /// The selector is that of the groups.
    pub closed spec fn of(&self, g: Seq<GroupModel>) -> bool {
        &&& bytewise_patterns(self.clue_ac) == clues_upto(g, g.len() as int)
        &&& finds_every(self.clue_ac)
        &&& all_nonempty(clues_upto(g, g.len() as int))
        &&& owners(g, clues_upto(g, g.len() as int), self.group_of@, g.len() as int)
        &&& self.to@.len() == g.len()
        &&& forall|i: int| 0 <= i < g.len() ==> strings((#[trigger] self.to@[i])@) == g[i].to
    }

    /// The replacements of the first group that has a clue in the window.
    pub fn select(&self, window: &str, Ghost(g): Ghost<Seq<GroupModel>>) -> (r: Option<Vec<String>>)
        requires
            self.of(g),
        ensures
            match (r, selected(window@, g, 0)) {
                (Some(v), Some(i)) => strings(v@) == g[i].to,
                (None, None) => true,
                _ => false,
            },
    {
        let ghost p = bytewise_patterns(self.clue_ac);
        let ghost h = encode_utf8(window@);
        let found = bytewise_find_all(&self.clue_ac, window);
        let mut best: Option<usize> = None;
        let mut i: usize = 0;
        while i < found.len()
            invariant
                self.of(g),
                p == bytewise_patterns(self.clue_ac),
                h == encode_utf8(window@),
                i <= found@.len(),
                forall|k: int|
                    0 <= k < found@.len() ==> pattern_at(
                        p,
                        h,
                        (#[trigger] found@[k]).1 as int,
                        found@[k].0 as int,
                    ),
                best matches Some(b) ==> b < g.len() && selects(window@, g[b as int]),
                forall|k: int|
                    0 <= k < i ==> best is Some && best->0 <= self.group_of@[(
                    #[trigger] found@[k]).1 as int],
            decreases found@.len() - i,
        {
            let (at, k) = found[i];
            proof {
                assert(pattern_at(p, h, found@[i as int].1 as int, found@[i as int].0 as int));
                let owner = self.group_of@[k as int] as int;
                let clues = g[owner].clues;
                assert(clues.contains(p[k as int]));
                let q = choose|q: int| 0 <= q < clues.len() && clues[q] == p[k as int];
                let c = lemma_bytes_to_chars(window@, p[k as int], at as int);
                lemma_find_in(window@, clues[q], 0, window@.len() as int);
                assert(contains_in(window@, clues[q], 0, window@.len() as int));
                assert(selects(window@, g[owner]));
            }
            let owner: usize = self.group_of[k];
            match best {
                None => {
                    best = Some(owner);
                },
                Some(b) => {
                    if owner < b {
                        best = Some(owner);
                    }
                },
            }
            i = i + 1;
        }
        proof {
            assert forall|j: int| 0 <= j < g.len() && selects(window@, #[trigger] g[j]) implies best is Some
                && best->0 <= j by {
                let q = choose|q: int|
                    0 <= q < g[j].clues.len() && #[trigger] contains_in(
                        window@,
                        g[j].clues[q],
                        0,
                        window@.len() as int,
                    );
                let clue = g[j].clues[q];
                assert(owned(p, self.group_of@, j, clue));
                let m = choose|m: int|
                    0 <= m < p.len() && #[trigger] self.group_of@[m] == j && p[m] == clue;
                assert(self.group_of@[m] == j);
                lemma_find_in(window@, clue, 0, window@.len() as int);
                let at = find_in(window@, clue, 0, window@.len() as int)->0;
                lemma_chars_to_bytes(window@, clue, at);
                lemma_byte_pos_monotone(window@, 0, at);
                assert(pattern_at(p, h, m, byte_pos(window@, at)));
                let x = choose|x: int|
                    0 <= x < found@.len() && (#[trigger] found@[x]).0 == byte_pos(window@, at)
                        && found@[x].1 == m;
                assert(best->0 <= self.group_of@[found@[x].1 as int]);
            }
            lemma_selected(
                window@,
                g,
                0,
                match best {
                    Some(b) => Some(b as int),
                    None => None,
                },
            );
        }
        match best {
            Some(b) => Some(copied(&self.to[b])),
            None => None,
        }
    }
}

proof fn lemma_selected(window: Seq<char>, g: Seq<GroupModel>, i: int, best: Option<int>)
    requires
        0 <= i <= g.len(),
        best matches Some(b) ==> i <= b < g.len() && selects(window, g[b]),
        forall|j: int|
            i <= j < g.len() && selects(window, #[trigger] g[j]) ==> best is Some && best->0 <= j,
    ensures
        selected(window, g, i) == best,
    decreases g.len() - i,
{
    if i < g.len() {
        if selects(window, g[i]) {
            assert(best is Some && best->0 <= i);
        } else {
            lemma_selected(window, g, i + 1, best);
        }
    }
}

fn is_usable(v: &Vec<String>) -> (r: bool)
    ensures
        r == usable(strings(v@)),
{
    let ghost s = strings(v@);
    let mut i: usize = 0;
    while i < v.len()
        invariant
            s == strings(v@),
            i <= v@.len(),
            forall|k: int| 0 <= k < i ==> (#[trigger] s[k]).len() > 0,
        decreases v@.len() - i,
    {
        assert(s[i as int] == v@[i as int]@);
        if v[i].as_str().unicode_len() == 0 {
            return false;
        }
        i = i + 1;
    }
    v.len() > 0
}

/// The clues gathered so far, as the patterns of an automaton.
fn add_clues<'a>(
    patterns: &mut Vec<&'a str>,
    group_of: &mut Vec<usize>,
    clues: &'a Vec<String>,
    number: usize,
)
    requires
        old(patterns)@.len() == old(group_of)@.len(),
    ensures
        texts(final(patterns)@) == texts(old(patterns)@) + strings(clues@),
        final(group_of)@.len() == final(patterns)@.len(),
        forall|p: int|
            0 <= p < old(group_of)@.len() ==> #[trigger] final(group_of)@[p] == old(group_of)@[p],
        forall|p: int|
            old(group_of)@.len() <= p < final(group_of)@.len() ==> #[trigger] final(group_of)@[p] == number,
{
    let ghost before = texts(patterns@);
    let ghost was = group_of@;
    let ghost list = strings(clues@);
    let mut i: usize = 0;
    assert(before + list.take(0) =~= before);
    while i < clues.len()
        invariant
            list == strings(clues@),
            i <= clues@.len(),
            patterns@.len() == group_of@.len(),
            before.len() == was.len(),
            group_of@.len() == was.len() + i,
            texts(patterns@) == before + list.take(i as int),
            forall|p: int| 0 <= p < was.len() ==> #[trigger] group_of@[p] == was[p],
            forall|p: int| was.len() <= p < group_of@.len() ==> #[trigger] group_of@[p] == number,
        decreases clues@.len() - i,
    {
        let ghost now = texts(patterns@);
        patterns.push(clues[i].as_str());
        group_of.push(number);
        proof {
            assert(texts(patterns@) =~= now.push(list[i as int]));
            assert(list.take(i + 1) =~= list.take(i as int).push(list[i as int]));
            assert(texts(patterns@) =~= before + list.take(i + 1));
        }
        i = i + 1;
    }
    assert(list.take(list.len() as int) =~= list);
}

proof fn lemma_owners_grow(
    g: Seq<GroupModel>,
    clues: Seq<Seq<char>>,
    group_of: Seq<usize>,
    n: int,
    now: Seq<usize>,
)
    requires
        0 <= n < g.len(),
        n <= usize::MAX,
        owners(g, clues, group_of, n),
        now.len() == clues.len() + g[n].clues.len(),
        forall|p: int| 0 <= p < group_of.len() ==> #[trigger] now[p] == group_of[p],
        forall|p: int| group_of.len() <= p < now.len() ==> #[trigger] now[p] == n,
    ensures
        owners(g, clues + g[n].clues, now, n + 1),
{
    let all = clues + g[n].clues;
    assert forall|p: int| 0 <= p < all.len() implies (#[trigger] now[p]) < n + 1
        && g[now[p] as int].clues.contains(all[p]) by {
        if p < clues.len() {
            assert(now[p] == group_of[p]);
            assert(all[p] == clues[p]);
        } else {
            assert(all[p] == g[n].clues[p - clues.len()]);
        }
    }
    assert forall|i: int, k: int|
        0 <= i < n + 1 && 0 <= k < g[i].clues.len() implies owned(
        all,
        now,
        i,
        #[trigger] g[i].clues[k],
    ) by {
        if i < n {
            assert(owned(clues, group_of, i, g[i].clues[k]));
            let p = choose|p: int|
                0 <= p < clues.len() && #[trigger] group_of[p] == i && clues[p] == g[i].clues[k];
            assert(now[p] == i && all[p] == g[i].clues[k]);
        } else {
            let p = clues.len() + k;
            assert(now[p] == i && all[p] == g[i].clues[k]);
        }
    }
}

/// What a selector is made of, but for its automaton.
pub struct SelectorParts<'a> {
    patterns: Vec<&'a str>,
    group_of: Vec<usize>,
    to: Vec<Vec<String>>,
}

impl<'a> SelectorParts<'a> {
    /// The parts are those of the groups.
    pub closed spec fn of(&self, g: Seq<GroupModel>) -> bool {
        &&& texts(self.patterns@) == clues_upto(g, g.len() as int)
        &&& all_nonempty(clues_upto(g, g.len() as int))
        &&& owners(g, clues_upto(g, g.len() as int), self.group_of@, g.len() as int)
        &&& self.to@.len() == g.len()
        &&& forall|i: int| 0 <= i < g.len() ==> strings((#[trigger] self.to@[i])@) == g[i].to
    }

    /// What the automaton is to find.
    pub closed spec fn clues(&self) -> Seq<Seq<char>> {
        texts(self.patterns@)
    }

    /// The selector with its automaton.
    pub fn with_automaton(self, clue_ac: AhoCorasick, Ghost(g): Ghost<Seq<GroupModel>>) -> (r:
        CompiledContextSelector)
        requires
            self.of(g),
            bytewise_patterns(clue_ac) == self.clues(),
            finds_every(clue_ac),
        ensures
            r.of(g),
    {
        CompiledContextSelector { clue_ac, group_of: self.group_of, to: self.to }
    }
}

/// Some group of the rule counts, and the automaton of the clues can be built.
pub open spec fn selectable(m: RuleModel) -> bool {
    let g = groups_of(m);
    g.len() > 0 && bytewise_builds(clues_upto(g, g.len() as int), false, false)
}

/// Compiles the groups of a rule. None where no group counts, and none where
/// the automaton cannot be built.
pub fn compile_context_selector(rule: &SpellingRule) -> (r: Option<CompiledContextSelector>)
    ensures
        r matches Some(s) ==> s.of(groups_of(rule@)),
        r is Some == selectable(rule@),
{
    match selector_parts(rule) {
        None => None,
        Some(parts) => match build_standard(parts.patterns.as_slice()) {
            Some(clue_ac) => Some(parts.with_automaton(clue_ac, Ghost(groups_of(rule@)))),
            None => None,
        },
    }
}

/// Gathers what a rule's selector is made of. None exactly where no group
/// counts.
pub fn selector_parts<'a>(rule: &'a SpellingRule) -> (r: Option<SelectorParts<'a>>)
    ensures
        match r {
            Some(p) => groups_of(rule@).len() > 0 && p.of(groups_of(rule@)),
            None => groups_of(rule@).len() == 0,
        },
{
    let ghost g = groups_of(rule@);
    if rule.has_deletion_sentinel() {
        return None;
    }
    match &rule.context_suggestions {
        None => None,
        Some(all) => {
            let ghost models = groups(all@);
            let mut patterns: Vec<&'a str> = Vec::new();
            let mut group_of: Vec<usize> = Vec::new();
            let mut to: Vec<Vec<String>> = Vec::new();
            let mut i: usize = 0;
            assert(texts(patterns@) =~= Seq::empty());
            while i < all.len()
                invariant
                    models == groups(all@),
                    i <= all@.len(),
                    patterns@.len() == group_of@.len(),
                    to@.len() == usable_groups(models, i as int).len(),
                    texts(patterns@) == clues_upto(
                        usable_groups(models, i as int),
                        to@.len() as int,
                    ),
                    all_nonempty(texts(patterns@)),
                    owners(
                        usable_groups(models, i as int),
                        texts(patterns@),
                        group_of@,
                        to@.len() as int,
                    ),
                    forall|k: int|
                        0 <= k < to@.len() ==> strings((#[trigger] to@[k])@) == usable_groups(
                            models,
                            i as int,
                        )[k].to,
                decreases all@.len() - i,
            {
                let ghost before = usable_groups(models, i as int);
                let ghost now = usable_groups(models, i + 1);
                let ghost so_far = texts(patterns@);
                let ghost was = group_of@;
                let ghost said = to@;
                assert(models[i as int] == all@[i as int]@);
                if is_usable(&all[i].clues) && is_usable(&all[i].to) {
                    let number: usize = to.len();
                    proof {
                        assert(now =~= before.push(models[i as int]));
                        assert(now[number as int] == models[i as int]);
                        lemma_clues_upto(before, now, number as int);
                        lemma_owners_prefix(before, now, so_far, was, number as int);
                    }
                    add_clues(&mut patterns, &mut group_of, &all[i].clues, number);
                    to.push(copied(&all[i].to));
                    proof {
                        let more = now[number as int].clues;
                        assert(texts(patterns@).len() == patterns@.len());
                        assert(more.len() == all@[i as int].clues@.len());
                        lemma_owners_grow(now, so_far, was, number as int, group_of@);
                        assert(texts(patterns@) == so_far + more);
                        assert forall|k: int| 0 <= k < (so_far + more).len() implies (#[trigger] (
                        so_far + more)[k]).len() > 0 by {
                            if k < so_far.len() {
                                assert((so_far + more)[k] == so_far[k]);
                            } else {
                                assert((so_far + more)[k] == more[k - so_far.len()]);
                            }
                        }
                        assert forall|k: int| 0 <= k < to@.len() implies strings(
                            (#[trigger] to@[k])@,
                        ) == now[k].to by {
                            if k < said.len() {
                                assert(to@[k] == said[k]);
                                assert(now[k] == before[k]);
                            }
                        }
                    }
                }
                i = i + 1;
            }
            assert(g == usable_groups(models, models.len() as int));
            if to.len() == 0 {
                return None;
            }
            Some(SelectorParts { patterns, group_of, to })
        },
    }
}

proof fn lemma_clues_upto(a: Seq<GroupModel>, b: Seq<GroupModel>, n: int)
    requires
        0 <= n <= a.len(),
        n <= b.len(),
        forall|k: int| 0 <= k < n ==> #[trigger] a[k] == b[k],
    ensures
        clues_upto(a, n) == clues_upto(b, n),
    decreases n,
{
    if n > 0 {
        lemma_clues_upto(a, b, n - 1);
        assert(a[n - 1] == b[n - 1]);
    }
}

proof fn lemma_owners_prefix(
    a: Seq<GroupModel>,
    b: Seq<GroupModel>,
    clues: Seq<Seq<char>>,
    group_of: Seq<usize>,
    n: int,
)
    requires
        owners(a, clues, group_of, n),
        0 <= n <= a.len(),
        n <= b.len(),
        forall|k: int| 0 <= k < n ==> #[trigger] a[k] == b[k],
    ensures
        owners(b, clues, group_of, n),
{
    assert forall|p: int| 0 <= p < clues.len() implies (#[trigger] group_of[p]) < n
        && b[group_of[p] as int].clues.contains(clues[p]) by {
        assert(a[group_of[p] as int] == b[group_of[p] as int]);
    }
    assert forall|i: int, k: int|
        0 <= i < n && 0 <= k < b[i].clues.len() implies owned(
        clues,
        group_of,
        i,
        #[trigger] b[i].clues[k],
    ) by {
        assert(a[i] == b[i]);
        assert(owned(clues, group_of, i, a[i].clues[k]));
    }
}

} // verus!
