//! Rabin conditions.
use crate::automaton::Automaton;
use crate::word::ReducedOmegaWord;
use crate::color::Void;
use std::collections::BTreeSet;
use vstd::prelude::*;
use vstd::std_specs::btree::{group_btree_axioms, spec_btree_keys_iter};
use vstd::std_specs::iter::IteratorSpec;

verus! {

broadcast use group_btree_axioms;

/// A Rabin pair consists of a set `fin` and a set `inf` of colors. A pair is
/// satisfied by a set of colors, usually the colors that a run sees infinitely
/// often, if the set contains no color of `fin` and at least one of `inf`.
#[derive(Debug, Default, Clone, Eq, PartialEq, Hash, PartialOrd, Ord)]
pub struct RabinPair<C> {
    fin: BTreeSet<C>,
    inf: BTreeSet<C>,
}

/// Whether `left` and `colors` have an element in common.
fn meets(left: &BTreeSet<usize>, colors: &BTreeSet<usize>) -> (b: bool)
    ensures
        b == !left@.disjoint(colors@),
{
    let mut hit = false;
    for x in it: left.iter()
        invariant
            it.seq() == spec_btree_keys_iter(left).remaining(),
            hit == exists|j: int| 0 <= j < it.index() && colors@.contains(*#[trigger] it.seq()[j]),
    {
        if colors.contains(x) {
            hit = true;
        }
    }
    proof {
        let all = spec_btree_keys_iter(left).remaining();
        assert(all.unref().to_set() == left@);
        if hit {
            let j = choose|j: int| 0 <= j < all.len() && colors@.contains(*#[trigger] all[j]);
            assert(all.unref()[j] == *all[j]);
            assert(all.unref().to_set().contains(*all[j]));
        }
        if !left@.disjoint(colors@) {
            let c = choose|c: usize| left@.contains(c) && colors@.contains(c);
            assert(all.unref().contains(c));
            let j = choose|j: int| 0 <= j < all.unref().len() && all.unref()[j] == c;
            assert(*all[j] == c);
        }
    }
    hit
}

/// The set of the numbers in `list`.
fn collect_set<const K: usize>(list: [usize; K]) -> (set: BTreeSet<usize>)
    ensures
        set@ == list@.to_set(),
{
    let mut set: BTreeSet<usize> = BTreeSet::new();
    let mut i: usize = 0;
    assert(list@.take(0).to_set() =~= Set::<usize>::empty());
    while i < K
        invariant
            i <= K,
            list@.len() == K,
            set@ == list@.take(i as int).to_set(),
        decreases K - i,
    {
        set.insert(list[i]);
        proof {
            let before = list@.take(i as int);
            let after = list@.take(i + 1);
            assert(after == before.push(list@[i as int]));
            assert(after.to_set() =~= before.to_set().insert(list@[i as int])) by {
                assert forall|x: usize| after.to_set().contains(x) implies before.to_set().insert(
                    list@[i as int],
                ).contains(x) by {
                    let j = choose|j: int| 0 <= j < after.len() && after[j] == x;
                    if j < i {
                        assert(before[j] == x);
                    }
                }
                assert forall|x: usize|
                    before.to_set().insert(list@[i as int]).contains(x) implies after.to_set().contains(
                    x,
                ) by {
                    if before.contains(x) {
                        let j = choose|j: int| 0 <= j < before.len() && before[j] == x;
                        assert(after[j] == x);
                    } else {
                        assert(after[i as int] == x);
                    }
                }
            }
        }
        i += 1;
    }
    assert(list@.take(K as int) == list@);
    set
}

impl RabinPair<usize> {
    /// The colors of which a run may see none infinitely often.
    pub closed spec fn spec_fin(&self) -> Set<usize> {
        self.fin@
    }

    /// The colors of which a run has to see one infinitely often.
    pub closed spec fn spec_inf(&self) -> Set<usize> {
        self.inf@
    }

    /// The pair is satisfied by `colors`: the set contains no color of `fin`
    /// and at least one color of `inf`.
    pub open spec fn satisfied_by(&self, colors: Set<usize>) -> bool {
        self.spec_fin().disjoint(colors) && !self.spec_inf().disjoint(colors)
    }

    /// Creates a new pair from the given sets of finite and infinite colors.
    pub fn new(fin: BTreeSet<usize>, inf: BTreeSet<usize>) -> (pair: Self)
        ensures
            pair.spec_fin() == fin@,
            pair.spec_inf() == inf@,
    {
        RabinPair { fin, inf }
    }

    /// Creates a new pair from lists of the finite and the infinite colors.
    pub fn from_iters<const K: usize, const L: usize>(fin: [usize; K], inf: [usize; L]) -> (pair:
        Self)
        ensures
            pair.spec_fin() == fin@.to_set(),
            pair.spec_inf() == inf@.to_set(),
    {
        RabinPair { fin: collect_set(fin), inf: collect_set(inf) }
    }

    /// Returns true if and only if the pair is satisfied by the given set of
    /// colors, that is, if the set contains no color from `fin` and at least
    /// one color from `inf`.
    pub fn satisfied_by_set(&self, colors: &BTreeSet<usize>) -> (b: bool)
        ensures
            b == self.satisfied_by(colors@),
    {
        !meets(&self.fin, colors) && meets(&self.inf, colors)
    }

    /// Returns true if and only if the pair is satisfied by the set of the
    /// colors in the given list.
    pub fn satisfied_by_iter<const K: usize>(&self, colors: [usize; K]) -> (b: bool)
        ensures
            b == self.satisfied_by(colors@.to_set()),
    {
        let set = collect_set(colors);
        self.satisfied_by_set(&set)
    }
}

/// A Rabin condition is a list of Rabin pairs. It is satisfied if at least one
/// of its pairs is satisfied.
#[derive(Debug, Default, Clone, Eq, PartialEq)]
pub struct RabinCondition<C>(pub Vec<RabinPair<C>>);

impl RabinCondition<usize> {
    /// The condition is satisfied by `colors`: one of its pairs is.
    pub open spec fn satisfied_by(&self, colors: Set<usize>) -> bool {
        exists|i: int| 0 <= i < self.0@.len() && (#[trigger] self.0@[i]).satisfied_by(colors)
    }

    /// Creates the condition of the given pairs.
    pub fn from_pairs(pairs: Vec<RabinPair<usize>>) -> (condition: Self)
        ensures
            condition.0@ == pairs@,
    {
        RabinCondition(pairs)
    }

    /// Returns whether the condition is satisfied by the given set of colors.
    pub fn evaluate(&self, colors: &BTreeSet<usize>) -> (b: bool)
        ensures
            b == self.satisfied_by(colors@),
    {
        let mut i: usize = 0;
        while i < self.0.len()
            invariant
                i <= self.0@.len(),
                forall|j: int| 0 <= j < i ==> !(#[trigger] self.0@[j]).satisfied_by(colors@),
            decreases self.0@.len() - i,
        {
            if self.0[i].satisfied_by_set(colors) {
                return true;
            }
            i += 1;
        }
        false
    }
}

/// A deterministic Rabin automaton: its edges are colored with numbers, and it
/// accepts by a Rabin condition on the colors that a run sees infinitely often.
pub type DRA = Automaton<RabinCondition<usize>, Void, usize, true>;

/// The set of the numbers in `list`.
fn set_of(list: &Vec<usize>) -> (set: BTreeSet<usize>)
    ensures
        set@ == list@.to_set(),
{
    let mut set: BTreeSet<usize> = BTreeSet::new();
    let mut i: usize = 0;
    assert(list@.take(0).to_set() =~= Set::<usize>::empty());
    while i < list.len()
        invariant
            i <= list@.len(),
            set@ == list@.take(i as int).to_set(),
        decreases list@.len() - i,
    {
        set.insert(list[i]);
        proof {
            let before = list@.take(i as int);
            let after = list@.take(i + 1);
            assert(after == before.push(list@[i as int]));
            assert(after.to_set() =~= before.to_set().insert(list@[i as int])) by {
                assert forall|x: usize| after.to_set().contains(x) implies before.to_set().insert(
                    list@[i as int],
                ).contains(x) by {
                    let j = choose|j: int| 0 <= j < after.len() && after[j] == x;
                    if j < i {
                        assert(before[j] == x);
                    }
                }
                assert forall|x: usize|
                    before.to_set().insert(list@[i as int]).contains(x) implies after.to_set().contains(
                    x,
                ) by {
                    if before.contains(x) {
                        let j = choose|j: int| 0 <= j < before.len() && before[j] == x;
                        assert(after[j] == x);
                    } else {
                        assert(after[i as int] == x);
                    }
                }
            }
        }
        i += 1;
    }
    assert(list@.take(list@.len() as int) == list@);
    set
}

impl<Q> Automaton<RabinCondition<usize>, Q, usize, true> {
    /// The colors that the run on `word` sees infinitely often.
    pub open spec fn infinity_colors(&self, word: &ReducedOmegaWord) -> Set<usize> {
        Set::new(|c: usize| self.spec_run(word).seen_infinitely_often(c))
    }

    /// The automaton accepts `word`: its run never leaves it, and the colors
    /// that the run sees infinitely often satisfy the Rabin condition.
    pub open spec fn spec_accepts(&self, word: &ReducedOmegaWord) -> bool {
        self.spec_run(word).exists_forever() && self.spec_acceptance().satisfied_by(
            self.infinity_colors(word),
        )
    }

    /// Returns whether the automaton accepts the given infinite word.
    pub fn accepts(&self, word: &ReducedOmegaWord) -> (b: bool)
        requires
            self.wf(),
            word.wf(),
        ensures
            b == self.spec_accepts(word),
    {
        match self.transform(word) {
            Some(colors) => {
                let set = set_of(&colors);
                assert(set@ =~= self.infinity_colors(word));
                self.acceptance().evaluate(&set)
            },
            None => false,
        }
    }
}

} // verus!
