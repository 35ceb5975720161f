//! Acceptance of finite words by reaching an accepting state.
use crate::automaton::{Automaton, StatesWithColor};
use crate::representation::same_successors;
use crate::ts::operations::product::{is_product, lemma_product_reached, product};
use crate::color::Void;
use crate::ts::StateIndex;
use vstd::prelude::*;

verus! {

/// A deterministic finite automaton accepts a finite word if it reaches a state
/// that is colored `true`.
pub type DFA<C = Void> = Automaton<ReachabilityCondition, bool, C, false>;

/// The acceptance condition of a deterministic finite automaton: a finite word
/// is accepted if the state that it reaches is colored `true`.
#[derive(Clone, Copy, Debug, PartialEq, Eq, Structural, Hash)]
pub struct ReachabilityCondition;

impl Default for ReachabilityCondition {
    fn default() -> (z: Self)
        ensures
            z == ReachabilityCondition,
    {
        ReachabilityCondition
    }
}

impl<C: Copy> Automaton<ReachabilityCondition, bool, C, false> {
    /// Whether state `q` is accepting.
    pub open spec fn spec_is_accepting(&self, q: int) -> bool {
        self.spec_ts().spec_state_color(q)
    }

    /// Whether the automaton accepts `w`: the run on `w` from the initial state
    /// exists and ends in an accepting state.
    pub open spec fn spec_accepts(&self, w: Seq<char>) -> bool {
        match self.spec_ts().reached(self.spec_initial(), w) {
            Some(t) => self.spec_is_accepting(t),
            None => false,
        }
    }

    /// Every state is accepting.
    pub open spec fn accepts_everywhere(&self) -> bool {
        forall|q: int| 0 <= q < self.spec_ts().spec_size() ==> #[trigger] self.spec_is_accepting(q)
    }

    /// Returns true if and only if the given state is accepting, that is,
    /// colored with `true`.
    pub fn is_accepting(&self, state: StateIndex) -> (b: bool)
        requires
            state < self.spec_ts().spec_size(),
        ensures
            b == self.spec_is_accepting(state as int),
    {
        *self.ts().state_color(state).unwrap()
    }

    /// Returns whether every state is accepting.
    pub fn is_accepting_everywhere(&self) -> (b: bool)
        ensures
            b == self.accepts_everywhere(),
    {
        let n = self.size();
        let mut q: usize = 0;
        while q < n
            invariant
                n == self.spec_ts().spec_size(),
                q <= n,
                forall|s: int| 0 <= s < q ==> #[trigger] self.spec_is_accepting(s),
            decreases n - q,
        {
            if !self.is_accepting(q) {
                return false;
            }
            q += 1;
        }
        true
    }

    /// Runs the automaton on the given finite word and returns the color of the
    /// state that is reached, if the run exists.
    pub fn transform(&self, word: &str) -> (output: Option<bool>)
        requires
            self.wf(),
        ensures
            output == match self.spec_ts().reached(self.spec_initial(), word@) {
                Some(t) => Some(self.spec_is_accepting(t)),
                None => None,
            },
    {
        match self.ts().reached_state_index_from(self.initial(), word) {
            Some(t) => Some(self.is_accepting(t)),
            None => None,
        }
    }

    /// Returns whether the automaton accepts the given finite word.
    pub fn accepts(&self, word: &str) -> (b: bool)
        requires
            self.wf(),
        ensures
            b == self.spec_accepts(word@),
    {
        match self.transform(word) {
            Some(output) => output,
            None => false,
        }
    }
}

impl<C: Copy> Automaton<ReachabilityCondition, bool, C, false> {
    /// Returns a walk through the states that are accepting.
    pub fn accepting_states(&self) -> (states: StatesWithColor<'_, bool, C>)
        ensures
            states.spec_ts() == self.spec_ts(),
            states.spec_color() == true,
            states.spec_position() == 0,
    {
        StatesWithColor::new(self.ts(), true)
    }

    /// Returns a walk through the states that are rejecting.
    pub fn rejecting_states(&self) -> (states: StatesWithColor<'_, bool, C>)
        ensures
            states.spec_ts() == self.spec_ts(),
            states.spec_color() == false,
            states.spec_position() == 0,
    {
        StatesWithColor::new(self.ts(), false)
    }

    /// The automaton with the states and edges of `ts`, that starts where `ts`
    /// starts and accepts in the states that `accepting_states` lists.
    pub fn from_ts<Z, Q, const K: usize>(
        ts: &Automaton<Z, Q, C, false>,
        accepting_states: [StateIndex; K],
    ) -> (dfa: Self)
        requires
            ts.wf(),
        ensures
            dfa.wf(),
            dfa.spec_initial() == ts.spec_initial(),
            dfa.spec_ts().spec_size() == ts.spec_ts().spec_size(),
            dfa.spec_ts().symbols() == ts.spec_ts().symbols(),
            forall|q: int, sym: char| #[trigger]
                dfa.spec_ts().spec_edge(q, sym) == ts.spec_ts().spec_edge(q, sym),
            forall|q: int|
                0 <= q < ts.spec_ts().spec_size() ==> #[trigger] dfa.spec_is_accepting(q)
                    == accepting_states@.contains(q as usize),
    {
        let n = ts.size();
        let mut colors: Vec<bool> = Vec::new();
        let mut q: usize = 0;
        while q < n
            invariant
                q <= n,
                accepting_states@.len() == K,
                colors@.len() == q,
                forall|s: StateIndex| s < q ==> colors@[s as int] == accepting_states@.contains(s),
            decreases n - q,
        {
            let mut listed = false;
            let mut i: usize = 0;
            while i < K
                invariant
                    i <= K,
                    accepting_states@.len() == K,
                    listed == exists|j: int| 0 <= j < i && accepting_states@[j] == q,
                decreases K - i,
            {
                if accepting_states[i] == q {
                    listed = true;
                }
                i += 1;
            }
            colors.push(listed);
            q += 1;
        }
        Automaton::from_parts_with_acceptance(
            ts.ts().recolor(colors),
            ts.initial(),
            ReachabilityCondition,
        )
    }

    /// Computes the negation of `self` by swapping accepting and rejecting
    /// states. The colors of the edges are dropped.
    pub fn negation(&self) -> (negated: DFA)
        requires
            self.wf(),
        ensures
            negated.wf(),
            negated.spec_initial() == self.spec_initial(),
            same_successors(self.spec_ts(), negated.spec_ts()),
            forall|q: int|
                0 <= q < self.spec_ts().spec_size() ==> #[trigger] negated.spec_is_accepting(q)
                    == !self.spec_is_accepting(q),
            forall|w: Seq<char>|
                #[trigger] negated.spec_accepts(w) == match self.spec_ts().reached(
                    self.spec_initial(),
                    w,
                ) {
                    Some(t) => !self.spec_is_accepting(t),
                    None => false,
                },
    {
        let swap = |color: &bool| -> (swapped: bool)
            ensures
                swapped == !*color,
            { !*color };
        let forget = |color: C| -> (erased: Void)
            ensures
                erased == Void,
            { Void };
        let ts = self.ts().map_colors(&swap, &forget);
        let negated: DFA = Automaton::from_parts_with_acceptance(
            ts,
            self.initial(),
            ReachabilityCondition,
        );
        proof {
            assert forall|q: int, sym: char| #[trigger]
                negated.spec_ts().spec_successor(q, sym) == self.spec_ts().spec_successor(q, sym) by {
                let e = negated.spec_ts().spec_edge(q, sym);
            }
            assert forall|w: Seq<char>| #[trigger]
                negated.spec_accepts(w) == match self.spec_ts().reached(self.spec_initial(), w) {
                    Some(t) => !self.spec_is_accepting(t),
                    None => false,
                } by {
                negated.spec_ts().lemma_same_successors_same_reached(
                    self.spec_ts(),
                    self.spec_initial(),
                    w,
                );
                self.spec_ts().lemma_reached_in_range(self.spec_initial(), w);
            }
        }
        negated
    }

    /// Searches, breadth first, for a word that the automaton accepts. Returns
    /// such a word if there is one, and `None` if the automaton accepts no word.
    pub fn give_word(&self) -> (word: Option<Vec<char>>)
        requires
            self.wf(),
        ensures
            match word {
                Some(w) => self.spec_accepts(w@),
                None => forall|w: Seq<char>| !#[trigger] self.spec_accepts(w),
            },
    {
        let n = self.size();
        let mut marked: Vec<bool> = Vec::new();
        let mut q: usize = 0;
        while q < n
            invariant
                n == self.spec_ts().spec_size(),
                q <= n,
                marked@.len() == q,
                forall|s: int| 0 <= s < q ==> marked@[s] == self.spec_is_accepting(s),
            decreases n - q,
        {
            marked.push(self.is_accepting(q));
            q += 1;
        }
        let word = self.ts().find_word(self.initial(), &marked);
        proof {
            if word.is_none() {
                assert forall|w: Seq<char>| !#[trigger] self.spec_accepts(w) by {
                    let r = self.spec_ts().reached(self.spec_initial(), w);
                }
            }
        }
        word
    }

    /// Returns true if and only if the accepted language is empty.
    pub fn is_empty_language(&self) -> (b: bool)
        requires
            self.wf(),
        ensures
            b == forall|w: Seq<char>| !#[trigger] self.spec_accepts(w),
    {
        self.give_word().is_none()
    }

    /// What the product of `self` and `other` reaches on `w`: the states that
    /// the two automata reach, if both reach one.
    pub open spec fn reached_with<C2>(
        &self,
        other: &Automaton<ReachabilityCondition, bool, C2, false>,
        w: Seq<char>,
    ) -> Option<(int, int)> {
        match (
            self.spec_ts().reached(self.spec_initial(), w),
            other.spec_ts().reached(other.spec_initial(), w),
        ) {
            (Some(a), Some(b)) => Some((a, b)),
            _ => None,
        }
    }

    /// Computes the union of `self` with `other` through a product
    /// construction: the result accepts a word if both automata have a run on
    /// it and one of them accepts it.
    pub fn union<C2: Copy>(&self, other: &Automaton<ReachabilityCondition, bool, C2, false>) -> (both:
        DFA)
        requires
            self.wf(),
            other.wf(),
            self.spec_ts().symbols() == other.spec_ts().symbols(),
        ensures
            both.wf(),
            both.spec_ts().symbols() == self.spec_ts().symbols(),
            forall|w: Seq<char>|
                #[trigger] both.spec_accepts(w) == match self.reached_with(other, w) {
                    Some((a, b)) => self.spec_is_accepting(a) || other.spec_ts().spec_state_color(b),
                    None => false,
                },
    {
        let (pairs, ts) = product(self.ts(), self.initial(), other.ts(), other.initial());
        let either = |colors: &(bool, bool)| -> (color: bool)
            ensures
                color == (colors.0 || colors.1),
            { colors.0 || colors.1 };
        let forget = |color: (C, C2)| -> (erased: Void)
            ensures
                erased == Void,
            { Void };
        let mapped = ts.map_colors(&either, &forget);
        let both: DFA = Automaton::from_parts_with_acceptance(mapped, 0, ReachabilityCondition);
        proof {
            assert forall|q: int, sym: char| #[trigger]
                both.spec_ts().spec_successor(q, sym) == ts.spec_successor(q, sym) by {
                let e = both.spec_ts().spec_edge(q, sym);
            }
            assert forall|w: Seq<char>| #[trigger]
                both.spec_accepts(w) == match self.reached_with(other, w) {
                    Some((a, b)) => self.spec_is_accepting(a) || other.spec_ts().spec_state_color(b),
                    None => false,
                } by {
                both.spec_ts().lemma_same_successors_same_reached(&ts, 0, w);
                lemma_product_reached(self.spec_ts(), other.spec_ts(), pairs@, &ts, 0, w);
            }
        }
        both
    }

    /// Computes the intersection of `self` with `other` through a product
    /// construction: the result accepts a word if both automata accept it.
    pub fn intersection<C2: Copy>(
        &self,
        other: &Automaton<ReachabilityCondition, bool, C2, false>,
    ) -> (both: DFA)
        requires
            self.wf(),
            other.wf(),
            self.spec_ts().symbols() == other.spec_ts().symbols(),
        ensures
            both.wf(),
            both.spec_ts().symbols() == self.spec_ts().symbols(),
            forall|w: Seq<char>|
                #[trigger] both.spec_accepts(w) == match self.reached_with(other, w) {
                    Some((a, b)) => self.spec_is_accepting(a) && other.spec_ts().spec_state_color(b),
                    None => false,
                },
    {
        let (pairs, ts) = product(self.ts(), self.initial(), other.ts(), other.initial());
        let each = |colors: &(bool, bool)| -> (color: bool)
            ensures
                color == (colors.0 && colors.1),
            { colors.0 && colors.1 };
        let forget = |color: (C, C2)| -> (erased: Void)
            ensures
                erased == Void,
            { Void };
        let mapped = ts.map_colors(&each, &forget);
        let both: DFA = Automaton::from_parts_with_acceptance(mapped, 0, ReachabilityCondition);
        proof {
            assert forall|q: int, sym: char| #[trigger]
                both.spec_ts().spec_successor(q, sym) == ts.spec_successor(q, sym) by {
                let e = both.spec_ts().spec_edge(q, sym);
            }
            assert forall|w: Seq<char>| #[trigger]
                both.spec_accepts(w) == match self.reached_with(other, w) {
                    Some((a, b)) => self.spec_is_accepting(a) && other.spec_ts().spec_state_color(b),
                    None => false,
                } by {
                both.spec_ts().lemma_same_successors_same_reached(&ts, 0, w);
                lemma_product_reached(self.spec_ts(), other.spec_ts(), pairs@, &ts, 0, w);
            }
        }
        both
    }

    /// On `w`, `other` does not accept where `self` runs without accepting.
    pub open spec fn covers_on<C2>(
        &self,
        other: &Automaton<ReachabilityCondition, bool, C2, false>,
        w: Seq<char>,
    ) -> bool {
        match self.reached_with(other, w) {
            Some((s, t)) => self.spec_is_accepting(s) || !other.spec_ts().spec_state_color(t),
            None => true,
        }
    }

    /// The word `w` does not tell `left` from `right`: where it leads from
    /// both to a state, both states accept or both reject.
    pub open spec fn agree_on(&self, left: int, right: int, w: Seq<char>) -> bool {
        match (self.spec_ts().reached(left, w), self.spec_ts().reached(right, w)) {
            (Some(a), Some(b)) => self.spec_is_accepting(a) == self.spec_is_accepting(b),
            _ => true,
        }
    }

    /// Checks that `other` accepts no word on which `self` runs without
    /// accepting it: the negation of `self` is intersected with `other`, and
    /// the result has to accept nothing.
    pub fn equivalent<C2: Copy>(&self, other: &Automaton<ReachabilityCondition, bool, C2, false>) -> (b:
        bool)
        requires
            self.wf(),
            other.wf(),
            self.spec_ts().symbols() == other.spec_ts().symbols(),
        ensures
            b == forall|w: Seq<char>| #[trigger] self.covers_on(other, w),
    {
        let negated = self.negation();
        let both = negated.intersection(other);
        let b = both.is_empty_language();
        proof {
            assert forall|w: Seq<char>| negated.reached_with(other, w) == self.reached_with(other, w) by {
                negated.spec_ts().lemma_same_successors_same_reached(
                    self.spec_ts(),
                    self.spec_initial(),
                    w,
                );
            }
            if b {
                assert forall|w: Seq<char>| #[trigger] self.covers_on(other, w) by {
                    assert(!both.spec_accepts(w));
                    assert(negated.reached_with(other, w) == self.reached_with(other, w));
                    self.spec_ts().lemma_reached_in_range(self.spec_initial(), w);
                }
            } else {
                let w = choose|w: Seq<char>| #[trigger] both.spec_accepts(w);
                assert(negated.reached_with(other, w) == self.reached_with(other, w));
                self.spec_ts().lemma_reached_in_range(self.spec_initial(), w);
                assert(!self.covers_on(other, w));
            }
        }
        b
    }

    /// Attempts to separate the state `left` from the state `right` by finding
    /// a word that leads from them to states of different colors. Returns
    /// `None` if there is no such word.
    pub fn separate(&self, left: StateIndex, right: StateIndex) -> (word: Option<Vec<char>>)
        requires
            self.wf(),
            left < self.spec_ts().spec_size(),
            right < self.spec_ts().spec_size(),
        ensures
            match word {
                Some(w) => !self.agree_on(left as int, right as int, w@),
                None => forall|w: Seq<char>| #[trigger] self.agree_on(left as int, right as int, w),
            },
    {
        let (pairs, ts) = product(self.ts(), left, self.ts(), right);
        let n = ts.size();
        let mut marked: Vec<bool> = Vec::new();
        let mut i: usize = 0;
        while i < n
            invariant
                self.wf(),
                is_product(self.spec_ts(), self.spec_ts(), pairs@, &ts),
                n == ts.spec_size(),
                i <= n,
                marked@.len() == i,
                forall|j: int|
                    0 <= j < i ==> marked@[j] == (self.spec_is_accepting(pairs@[j].0 as int)
                        != self.spec_is_accepting(pairs@[j].1 as int)),
            decreases n - i,
        {
            let colors = *ts.state_color(i).unwrap();
            assert(ts.spec_state_color(i as int) == (
                self.spec_ts().spec_state_color(pairs@[i as int].0 as int),
                self.spec_ts().spec_state_color(pairs@[i as int].1 as int),
            ));
            marked.push(colors.0 != colors.1);
            i += 1;
        }
        let word = ts.find_word(0, &marked);
        proof {
            match &word {
                Some(w) => {
                    lemma_product_reached(self.spec_ts(), self.spec_ts(), pairs@, &ts, 0, w@);
                },
                None => {
                    assert forall|w: Seq<char>| #[trigger]
                        self.agree_on(left as int, right as int, w) by {
                        lemma_product_reached(self.spec_ts(), self.spec_ts(), pairs@, &ts, 0, w);
                        let r = ts.reached(0, w);
                    }
                },
            }
        }
        word
    }
}

} // verus!
