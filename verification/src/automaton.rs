//! Automata: a deterministic transition system with an initial state and an
//! acceptance condition.
use crate::alphabet::CharAlphabet;
use crate::color::{Color, Int, Void};
use crate::ts::{StateIndex, DTS};
use vstd::prelude::*;

pub mod omega;
pub mod reachability;

verus! {

/// The semantics of a machine that outputs the color of the state it reaches.
#[derive(Clone, Copy, Debug, PartialEq, Eq, Structural, Hash)]
pub struct MooreSemantics;

/// The semantics of a machine that outputs the color of the last edge it takes.
#[derive(Clone, Copy, Debug, PartialEq, Eq, Structural, Hash)]
pub struct MealySemantics;

/// The condition of an automaton that only runs and accepts nothing by itself.
#[derive(Clone, Copy, Debug, PartialEq, Eq, Structural, Hash)]
pub struct WithoutCondition;

impl Default for MooreSemantics {
    fn default() -> (z: Self)
        ensures
            z == MooreSemantics,
    {
        MooreSemantics
    }
}

impl Default for MealySemantics {
    fn default() -> (z: Self)
        ensures
            z == MealySemantics,
    {
        MealySemantics
    }
}

impl Default for WithoutCondition {
    fn default() -> (z: Self)
        ensures
            z == WithoutCondition,
    {
        WithoutCondition
    }
}

/// An automaton consists of a transition system, a designated initial state
/// and an acceptance condition. `OMEGA` says whether it reads infinite words.
#[derive(Debug)]
pub struct Automaton<Z, Q, C, const OMEGA: bool> {
    ts: DTS<Q, C>,
    initial: StateIndex,
    acceptance: Z,
}

/// A machine that maps a finite word to the color of the state that it reaches.
pub type MooreMachine<Q = Int> = Automaton<MooreSemantics, Q, Void, false>;

/// A machine that maps a non-empty finite word to the color of the last edge
/// that it takes.
pub type MealyMachine<Q = Void, C = Int> = Automaton<MealySemantics, Q, C, false>;

/// A deterministic transition system with an initial state.
pub type RightCongruence<Q = Void, C = Void> = Automaton<WithoutCondition, Q, C, false>;

impl<Z, Q, C, const OMEGA: bool> Automaton<Z, Q, C, OMEGA> {
    /// The underlying transition system.
    pub closed spec fn spec_ts(&self) -> &DTS<Q, C> {
        &self.ts
    }

    /// The initial state.
    pub closed spec fn spec_initial(&self) -> int {
        self.initial as int
    }

    /// The acceptance condition.
    pub closed spec fn spec_acceptance(&self) -> Z {
        self.acceptance
    }

    /// The transition system is well-formed and the initial state is one of
    /// its states.
    pub open spec fn wf(&self) -> bool {
        &&& self.spec_ts().wf()
        &&& 0 <= self.spec_initial() < self.spec_ts().spec_size()
    }

    /// Creates a new automaton from the given transition system, initial state
    /// and acceptance condition.
    pub fn from_parts_with_acceptance(ts: DTS<Q, C>, initial: StateIndex, acceptance: Z) -> (automaton:
        Self)
        ensures
            *automaton.spec_ts() == ts,
            automaton.spec_initial() == initial,
            automaton.spec_acceptance() == acceptance,
    {
        Automaton { ts, initial, acceptance }
    }

    /// Decomposes the automaton into its parts: the transition system, the
    /// initial state and the acceptance condition.
    pub fn into_parts(self) -> (parts: (DTS<Q, C>, StateIndex, Z))
        ensures
            parts.0 == *self.spec_ts(),
            parts.1 == self.spec_initial(),
            parts.2 == self.spec_acceptance(),
    {
        (self.ts, self.initial, self.acceptance)
    }

    /// Returns a reference to the underlying transition system.
    pub fn ts(&self) -> (ts: &DTS<Q, C>)
        ensures
            ts == self.spec_ts(),
    {
        &self.ts
    }

    /// Returns a reference to the acceptance condition.
    pub fn acceptance(&self) -> (acceptance: &Z)
        ensures
            *acceptance == self.spec_acceptance(),
    {
        &self.acceptance
    }

    /// Returns the initial state.
    pub fn initial(&self) -> (initial: StateIndex)
        ensures
            initial == self.spec_initial(),
    {
        self.initial
    }

    /// Returns the number of states.
    pub fn size(&self) -> (n: usize)
        ensures
            n == self.spec_ts().spec_size(),
    {
        self.ts.size()
    }
}

impl<Z: Default, Q, C, const OMEGA: bool> Automaton<Z, Q, C, OMEGA> {
    /// Builds a new automaton from a transition system and a designated
    /// initial state, with the default acceptance condition.
    pub fn from_parts(ts: DTS<Q, C>, initial: StateIndex) -> (automaton: Self)
        ensures
            *automaton.spec_ts() == ts,
            automaton.spec_initial() == initial,
    {
        Automaton { ts, initial, acceptance: Z::default() }
    }
}

impl<Z, Q, C, const OMEGA: bool> Automaton<Z, Q, C, OMEGA> {
    /// Builds a new automaton from an automaton, of which it takes the
    /// transition system and the initial state, and an acceptance condition.
    pub fn from_pointed_with_acceptance<Y, const OTHER: bool>(
        cong: Automaton<Y, Q, C, OTHER>,
        acceptance: Z,
    ) -> (automaton: Self)
        ensures
            automaton.spec_ts() == cong.spec_ts(),
            automaton.spec_initial() == cong.spec_initial(),
            automaton.spec_acceptance() == acceptance,
            automaton.wf() == cong.wf(),
    {
        let (ts, initial, _) = cong.into_parts();
        Automaton { ts, initial, acceptance }
    }

    /// Gives a mutable reference to the underlying transition system.
    pub fn ts_mut(&mut self) -> (ts: &mut DTS<Q, C>)
        ensures
            *ts == *old(self).spec_ts(),
            *final(self).spec_ts() == *final(ts),
            final(self).spec_initial() == old(self).spec_initial(),
            final(self).spec_acceptance() == old(self).spec_acceptance(),
    {
        &mut self.ts
    }
}

impl<Z: Default, Q, C, const OMEGA: bool> Automaton<Z, Q, C, OMEGA> {
    /// Builds a new automaton from an automaton, of which it takes the
    /// transition system and the initial state, with the default acceptance
    /// condition.
    pub fn from_pointed<Y, const OTHER: bool>(cong: Automaton<Y, Q, C, OTHER>) -> (automaton: Self)
        ensures
            automaton.spec_ts() == cong.spec_ts(),
            automaton.spec_initial() == cong.spec_initial(),
            automaton.wf() == cong.wf(),
    {
        let (ts, initial, _) = cong.into_parts();
        Automaton { ts, initial, acceptance: Z::default() }
    }

    /// Creates a new automaton for the given alphabet. It has a single state,
    /// the initial state, of the given color, and no edge.
    pub fn new_with_initial_color(alphabet: CharAlphabet, initial_color: Q) -> (automaton: Self)
        requires
            alphabet.wf(),
        ensures
            automaton.wf(),
            automaton.spec_initial() == 0,
            automaton.spec_ts().spec_size() == 1,
            automaton.spec_ts().symbols() == alphabet@,
            automaton.spec_ts().spec_state_color(0) == initial_color,
            forall|sym: char| #[trigger] automaton.spec_ts().spec_edge(0, sym).is_none(),
    {
        let mut ts: DTS<Q, C> = DTS::for_alphabet(alphabet);
        let initial = ts.add_state(initial_color);
        Automaton { ts, initial, acceptance: Z::default() }
    }
}

impl<Z: Default, Q, C: Copy, const OMEGA: bool> Automaton<Z, Q, C, OMEGA> {
    /// Creates a new automaton for the given alphabet with a single state of
    /// the given color, from which an edge of the given color leads back to it
    /// on every symbol.
    pub fn new_trivial_with_initial_color(
        alphabet: CharAlphabet,
        initial_color: Q,
        edge_color: C,
    ) -> (automaton: Self)
        requires
            alphabet.wf(),
        ensures
            automaton.wf(),
            automaton.spec_initial() == 0,
            automaton.spec_ts().spec_size() == 1,
            automaton.spec_ts().symbols() == alphabet@,
            automaton.spec_ts().spec_state_color(0) == initial_color,
            automaton.spec_ts().complete(),
            forall|a: int|
                0 <= a < alphabet@.len() ==> #[trigger] automaton.spec_ts().spec_edge(0, alphabet@[a])
                    == Some((edge_color, 0int)),
    {
        let k = alphabet.size();
        let ghost symbols = alphabet@;
        let mut chars: Vec<char> = Vec::new();
        let mut a: usize = 0;
        while a < k
            invariant
                k == alphabet@.len(),
                a <= k,
                chars@ == alphabet@.take(a as int),
            decreases k - a,
        {
            chars.push(alphabet.symbol(a));
            assert(alphabet@.take(a + 1) == alphabet@.take(a as int).push(alphabet@[a as int]));
            a += 1;
        }
        assert(alphabet@.take(k as int) == alphabet@);
        let mut ts: DTS<Q, C> = DTS::for_alphabet(alphabet);
        let initial = ts.add_state(initial_color);
        let mut a: usize = 0;
        while a < k
            invariant
                crate::alphabet::strictly_increasing(symbols),
                chars@ == symbols,
                k == symbols.len(),
                a <= k,
                initial == 0,
                ts.wf(),
                ts.spec_size() == 1,
                ts.symbols() == symbols,
                ts.spec_state_color(0) == initial_color,
                forall|b: int|
                    0 <= b < a ==> #[trigger] ts.spec_edge(0, symbols[b]) == Some((edge_color, 0int)),
                forall|b: int| a <= b < k ==> (#[trigger] ts.spec_edge(0, symbols[b])).is_none(),
            decreases k - a,
        {
            let sym = chars[a];
            let ghost before = ts;
            assert(symbols.contains(sym));
            assert(before.spec_edge(0, symbols[a as int]).is_none());
            ts.add_edge(initial, sym, edge_color, initial);
            proof {
                assert forall|b: int| 0 <= b < k && b != a implies #[trigger] ts.spec_edge(
                    0,
                    symbols[b],
                ) == before.spec_edge(0, symbols[b]) by {
                    if b < a {
                        assert((symbols[b] as int) < (symbols[a as int] as int));
                    } else {
                        assert((symbols[a as int] as int) < (symbols[b] as int));
                    }
                }
            }
            a += 1;
        }
        proof {
            assert forall|q: int, b: int|
                0 <= q < ts.spec_size() && 0 <= b < ts.symbols().len() implies (#[trigger] ts.spec_edge(
                q,
                ts.symbols()[b],
            )).is_some() by {
                assert(ts.spec_edge(0, symbols[b]) == Some((edge_color, 0int)));
            }
        }
        Automaton { ts, initial, acceptance: Z::default() }
    }
}

/// Walks through the states of a transition system that have a certain color,
/// in increasing order.
pub struct StatesWithColor<'a, Q, C> {
    ts: &'a DTS<Q, C>,
    position: StateIndex,
    color: Q,
}

impl<'a, Q: Color, C> StatesWithColor<'a, Q, C> {
    /// The transition system that is walked through.
    pub closed spec fn spec_ts(&self) -> &DTS<Q, C> {
        self.ts
    }

    /// The color that is looked for.
    pub closed spec fn spec_color(&self) -> Q {
        self.color
    }

    /// The states below this number have been passed.
    pub closed spec fn spec_position(&self) -> nat {
        self.position as nat
    }

    /// Creates a new instance for the given transition system and color.
    pub fn new(ts: &'a DTS<Q, C>, color: Q) -> (states: Self)
        ensures
            states.spec_ts() == ts,
            states.spec_color() == color,
            states.spec_position() == 0,
    {
        StatesWithColor { ts, position: 0, color }
    }

    /// Returns the next state that has the color, or `None` when no state is
    /// left.
    pub fn next(&mut self) -> (state: Option<StateIndex>)
        ensures
            final(self).spec_ts() == old(self).spec_ts(),
            final(self).spec_color() == old(self).spec_color(),
            match state {
                Some(q) => old(self).spec_position() <= q < old(self).spec_ts().spec_size()
                    && final(self).spec_position() == q + 1 && old(self).spec_ts().spec_state_color(
                    q as int,
                ) == old(self).spec_color() && forall|s: int|
                    old(self).spec_position() <= s < q ==> old(self).spec_ts().spec_state_color(s)
                        != old(self).spec_color(),
                None => final(self).spec_position() >= old(self).spec_ts().spec_size() && forall|
                    s: int,
                |
                    old(self).spec_position() <= s < old(self).spec_ts().spec_size() ==> old(
                        self,
                    ).spec_ts().spec_state_color(s) != old(self).spec_color(),
            },
    {
        let n = self.ts.size();
        let ghost start = self.position;
        while self.position < n
            invariant
                n == self.ts.spec_size(),
                self.ts == old(self).ts,
                self.color == old(self).color,
                start == old(self).position,
                start <= self.position,
                forall|s: int|
                    start <= s < self.position ==> self.ts.spec_state_color(s) != self.color,
            decreases n - self.position,
        {
            let q = self.position;
            self.position = q + 1;
            if self.ts.state_color(q).unwrap().same(&self.color) {
                return Some(q);
            }
        }
        None
    }

    /// Returns the states that are left and have the color, in increasing
    /// order.
    pub fn collect(self) -> (states: Vec<StateIndex>)
        ensures
            forall|i: int, j: int| 0 <= i < j < states@.len() ==> states@[i] < states@[j],
            forall|q: StateIndex|
                states@.contains(q) <==> self.spec_position() <= q < self.spec_ts().spec_size()
                    && self.spec_ts().spec_state_color(q as int) == self.spec_color(),
    {
        let mut states: Vec<StateIndex> = Vec::new();
        let n = self.ts.size();
        let mut q: usize = self.position;
        while q < n
            invariant
                n == self.ts.spec_size(),
                self.position <= q,
                q <= n || q == self.position,
                forall|i: int| 0 <= i < states@.len() ==> #[trigger] states@[i] < q,
                forall|i: int, j: int| 0 <= i < j < states@.len() ==> states@[i] < states@[j],
                forall|p: StateIndex|
                    states@.contains(p) <==> self.position <= p < q && self.ts.spec_state_color(
                        p as int,
                    ) == self.color,
            decreases n - q,
        {
            let ghost before = states@;
            if self.ts.state_color(q).unwrap().same(&self.color) {
                states.push(q);
            }
            proof {
                assert forall|p: StateIndex|
                    states@.contains(p) <==> self.position <= p < q + 1
                        && self.ts.spec_state_color(p as int) == self.color by {
                    if states@.contains(p) {
                        let i = choose|i: int| 0 <= i < states@.len() && states@[i] == p;
                        if i < before.len() {
                            assert(before[i] == p);
                            assert(before.contains(p));
                        }
                    }
                    if self.position <= p < q + 1 && self.ts.spec_state_color(p as int)
                        == self.color {
                        if p < q {
                            assert(before.contains(p));
                            let i = choose|i: int| 0 <= i < before.len() && before[i] == p;
                            assert(states@[i] == p);
                        } else {
                            assert(states@[states@.len() - 1] == p);
                        }
                    }
                }
            }
            q += 1;
        }
        proof {
            assert forall|p: StateIndex|
                states@.contains(p) <==> self.spec_position() <= p < self.spec_ts().spec_size()
                    && self.spec_ts().spec_state_color(p as int) == self.spec_color() by {
                if states@.contains(p) {
                    let i = choose|i: int| 0 <= i < states@.len() && states@[i] == p;
                    assert(states@[i] < q);
                }
            }
        }
        states
    }
}

impl<Z: Copy, Q: Copy, C: Copy, const OMEGA: bool> Clone for Automaton<Z, Q, C, OMEGA> {
    fn clone(&self) -> (copy: Self)
        ensures
            self.wf() ==> copy.wf(),
            copy.spec_initial() == self.spec_initial(),
            copy.spec_acceptance() == self.spec_acceptance(),
            copy.spec_ts().symbols() == self.spec_ts().symbols(),
            copy.spec_ts().spec_size() == self.spec_ts().spec_size(),
            forall|q: int|
                0 <= q < self.spec_ts().spec_size() ==> #[trigger] copy.spec_ts().spec_state_color(q)
                    == self.spec_ts().spec_state_color(q),
            self.spec_ts().wf() ==> forall|q: int, sym: char| #[trigger]
                copy.spec_ts().spec_edge(q, sym) == self.spec_ts().spec_edge(q, sym),
    {
        Automaton { ts: self.ts.clone(), initial: self.initial, acceptance: self.acceptance }
    }
}

impl<Z, Q, C, const OMEGA: bool> Automaton<Z, Q, C, OMEGA> {
    /// Returns a reference to `self`.
    pub fn as_ref(&self) -> (same: &Self)
        ensures
            same == self,
    {
        self
    }
}

impl<Z, Q, C: Copy, const OMEGA: bool> Automaton<Z, Q, C, OMEGA> {
    /// Adds a state with the given color and returns its index.
    pub fn add_state(&mut self, color: Q) -> (q: StateIndex)
        requires
            old(self).wf(),
        ensures
            final(self).wf(),
            final(self).spec_initial() == old(self).spec_initial(),
            final(self).spec_acceptance() == old(self).spec_acceptance(),
            q == old(self).spec_ts().spec_size(),
            final(self).spec_ts().spec_size() == old(self).spec_ts().spec_size() + 1,
            final(self).spec_ts().symbols() == old(self).spec_ts().symbols(),
            final(self).spec_ts().spec_state_color(q as int) == color,
            forall|p: int|
                0 <= p < old(self).spec_ts().spec_size() ==> final(self).spec_ts().spec_state_color(p)
                    == old(self).spec_ts().spec_state_color(p),
            forall|p: int, sym: char|
                p != q ==> #[trigger] final(self).spec_ts().spec_edge(p, sym)
                    == old(self).spec_ts().spec_edge(p, sym),
            forall|sym: char| #[trigger] final(self).spec_ts().spec_edge(q as int, sym).is_none(),
    {
        self.ts.add_state(color)
    }

    /// Adds the edge from `q` on `sym` to `p` with the given color. If an edge
    /// leaves `q` on `sym` already, that edge is returned and nothing changes.
    pub fn add_edge(&mut self, q: StateIndex, sym: char, color: C, p: StateIndex) -> (overlap:
        Option<(C, StateIndex)>)
        requires
            old(self).wf(),
            q < old(self).spec_ts().spec_size(),
            p < old(self).spec_ts().spec_size(),
            old(self).spec_ts().symbols().contains(sym),
        ensures
            final(self).wf(),
            final(self).spec_initial() == old(self).spec_initial(),
            final(self).spec_acceptance() == old(self).spec_acceptance(),
            final(self).spec_ts().spec_size() == old(self).spec_ts().spec_size(),
            final(self).spec_ts().symbols() == old(self).spec_ts().symbols(),
            forall|s: int|
                final(self).spec_ts().spec_state_color(s) == old(self).spec_ts().spec_state_color(s),
            match overlap {
                Some((c, t)) => {
                    &&& old(self).spec_ts().spec_edge(q as int, sym) == Some((c, t as int))
                    &&& forall|s: int, x: char| #[trigger]
                        final(self).spec_ts().spec_edge(s, x) == old(self).spec_ts().spec_edge(s, x)
                },
                None => {
                    &&& old(self).spec_ts().spec_edge(q as int, sym).is_none()
                    &&& final(self).spec_ts().spec_edge(q as int, sym) == Some((color, p as int))
                    &&& forall|s: int, x: char|
                        (s != q || x != sym) ==> #[trigger] final(self).spec_ts().spec_edge(s, x)
                            == old(self).spec_ts().spec_edge(s, x)
                },
            },
    {
        self.ts.add_edge(q, sym, color, p)
    }
}

impl<'a, Q: Color, C> Clone for StatesWithColor<'a, Q, C> {
    /// The copy walks through the same system for the same color, from the
    /// first state on.
    fn clone(&self) -> (copy: Self)
        ensures
            copy.spec_ts() == self.spec_ts(),
            copy.spec_color() == self.spec_color(),
            copy.spec_position() == 0,
    {
        StatesWithColor { ts: self.ts, position: 0, color: self.color }
    }
}

} // verus!
