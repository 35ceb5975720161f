//! Turning one kind of machine into another, and comparing machines.
use crate::automaton::omega::{BuchiCondition, MinEvenParityCondition, DBA, DPA};
use crate::automaton::reachability::{ReachabilityCondition, DFA};
use crate::automaton::{Automaton, MealyMachine, MealySemantics, MooreMachine, MooreSemantics};
use crate::color::{Color, Int, Void};
use crate::minimization::bisimulation::{mealy_output, moore_bisimilar, moore_output};
use crate::minimization::partition_refinement::{
    mealy_minimal, mealy_partition_refinement, moore_greatest_bisimulation, moore_minimal,
    moore_partition_refinement,
};
use crate::automaton::{RightCongruence, WithoutCondition};
use crate::ts::operations::product::{
    lemma_product_listed_reachable, lemma_product_reached, product, product_edge_recorded,
};
use crate::ts::{StateIndex, DTS};
use vstd::prelude::*;

verus! {

/// Marks what has states of color `Q`.
pub trait StateColored<Q> {

}

/// Marks what has edges of color `C`.
pub trait EdgeColored<C> {

}

impl<Q, C> StateColored<Q> for DTS<Q, C> {

}

impl<Q, C> EdgeColored<C> for DTS<Q, C> {

}

impl<Z, Q, C, const OMEGA: bool> StateColored<Q> for Automaton<Z, Q, C, OMEGA> {

}

impl<Z, Q, C, const OMEGA: bool> EdgeColored<C> for Automaton<Z, Q, C, OMEGA> {

}

/// The edges of `mapped` are those of `ts`, without their colors.
pub open spec fn same_successors<Q1, C1, Q2, C2>(ts: &DTS<Q1, C1>, mapped: &DTS<Q2, C2>) -> bool {
    &&& mapped.wf()
    &&& mapped.spec_size() == ts.spec_size()
    &&& mapped.symbols() == ts.symbols()
    &&& forall|q: int, sym: char| #[trigger]
        mapped.spec_successor(q, sym) == ts.spec_successor(q, sym)
}

/// The edges of `mapped` are those of `ts`, with their colors.
pub open spec fn same_edges<Q1, Q2, C>(ts: &DTS<Q1, C>, mapped: &DTS<Q2, C>) -> bool {
    &&& mapped.wf()
    &&& mapped.spec_size() == ts.spec_size()
    &&& mapped.symbols() == ts.symbols()
    &&& forall|q: int, sym: char| #[trigger] mapped.spec_edge(q, sym) == ts.spec_edge(q, sym)
}

/// The states of `mapped` have the colors of the states of `ts`.
pub open spec fn same_state_colors<Q, C1, C2>(ts: &DTS<Q, C1>, mapped: &DTS<Q, C2>) -> bool {
    forall|q: int|
        0 <= q < ts.spec_size() ==> #[trigger] mapped.spec_state_color(q) == ts.spec_state_color(q)
}

impl<Q: Copy, C: Copy> DTS<Q, C> {
    /// The system with the same states and edges, without colors on the edges.
    pub fn erase_edge_colors(&self) -> (erased: DTS<Q, Void>)
        requires
            self.wf(),
        ensures
            same_successors(self, &erased),
            same_state_colors(self, &erased),
    {
        let keep = |color: &Q| -> (kept: Q)
            ensures
                kept == *color,
            { *color };
        let forget = |color: C| -> (erased: Void)
            ensures
                erased == Void,
            { Void };
        let erased = self.map_colors(&keep, &forget);
        proof {
            assert forall|q: int, sym: char| #[trigger]
                erased.spec_successor(q, sym) == self.spec_successor(q, sym) by {
                let e = erased.spec_edge(q, sym);
            }
        }
        erased
    }

    /// Builds a machine with outputs on its states that starts in `state`. The
    /// colors of the edges are dropped.
    pub fn into_moore_with_initial(self, state: StateIndex) -> (moore: MooreMachine<Q>)
        requires
            self.wf(),
            state < self.spec_size(),
        ensures
            moore.wf(),
            moore.spec_initial() == state,
            same_successors(&self, moore.spec_ts()),
            same_state_colors(&self, moore.spec_ts()),
    {
        Automaton::from_parts_with_acceptance(self.erase_edge_colors(), state, MooreSemantics)
    }

}

impl<Q, C: Copy> DTS<Q, C> {
    /// The system with the same states and edges, without colors on the states.
    pub fn erase_state_colors(&self) -> (erased: DTS<Void, C>)
        requires
            self.wf(),
        ensures
            same_edges(self, &erased),
    {
        let forget = |color: &Q| -> (erased: Void)
            ensures
                erased == Void,
            { Void };
        let keep = |color: C| -> (kept: C)
            ensures
                kept == color,
            { color };
        let erased = self.map_colors(&forget, &keep);
        proof {
            assert forall|q: int, sym: char| #[trigger]
                erased.spec_edge(q, sym) == self.spec_edge(q, sym) by {
                let e = erased.spec_edge(q, sym);
            }
        }
        erased
    }

    /// Builds a machine with outputs on its edges that starts in state 0. The
    /// colors of the states are dropped.
    pub fn into_mealy(self) -> (mealy: MealyMachine<Void, C>)
        requires
            self.wf(),
            self.spec_size() > 0,
        ensures
            mealy.wf(),
            mealy.spec_initial() == 0,
            same_edges(&self, mealy.spec_ts()),
    {
        Automaton::from_parts_with_acceptance(self.erase_state_colors(), 0, MealySemantics)
    }
}

impl<Z, Q, C: Copy, const OMEGA: bool> Automaton<Z, Q, C, OMEGA> {
    /// Builds a machine with outputs on its edges that starts in state 0. The
    /// colors of the states are dropped.
    pub fn into_mealy(self) -> (mealy: MealyMachine<Void, C>)
        requires
            self.wf(),
        ensures
            mealy.wf(),
            mealy.spec_initial() == 0,
            same_edges(self.spec_ts(), mealy.spec_ts()),
    {
        let (ts, _, _) = self.into_parts();
        ts.into_mealy()
    }
}

impl<Z, Q: Copy, C: Copy, const OMEGA: bool> Automaton<Z, Q, C, OMEGA> {
    /// Builds a machine with outputs on its states that starts where `self`
    /// starts. The colors of the edges are dropped.
    pub fn into_moore(self) -> (moore: MooreMachine<Q>)
        requires
            self.wf(),
        ensures
            moore.wf(),
            moore.spec_initial() == self.spec_initial(),
            same_successors(self.spec_ts(), moore.spec_ts()),
            same_state_colors(self.spec_ts(), moore.spec_ts()),
    {
        let (ts, initial, _) = self.into_parts();
        ts.into_moore_with_initial(initial)
    }

    /// Collects a machine with outputs on its edges that starts where `self`
    /// starts and keeps the colors of the states.
    pub fn collect_mealy(&self) -> (mealy: MealyMachine<Q, C>)
        requires
            self.wf(),
        ensures
            mealy.wf(),
            mealy.spec_initial() == self.spec_initial(),
            same_edges(self.spec_ts(), mealy.spec_ts()),
            same_state_colors(self.spec_ts(), mealy.spec_ts()),
    {
        Automaton::from_parts_with_acceptance(self.ts().clone(), self.initial(), MealySemantics)
    }
}

impl<Z, Q, const OMEGA: bool> Automaton<Z, Q, Int, OMEGA> {
    /// Collects a deterministic parity automaton that starts where `self`
    /// starts. The colors of the states are dropped.
    pub fn collect_dpa(&self) -> (dpa: DPA)
        requires
            self.wf(),
        ensures
            dpa.wf(),
            dpa.spec_initial() == self.spec_initial(),
            same_edges(self.spec_ts(), dpa.spec_ts()),
    {
        Automaton::from_parts_with_acceptance(
            self.ts().erase_state_colors(),
            self.initial(),
            MinEvenParityCondition,
        )
    }
}

impl<Z, C: Copy, const OMEGA: bool> Automaton<Z, bool, C, OMEGA> {
    /// Collects a deterministic finite automaton that starts where `self`
    /// starts. The colors of the edges are dropped.
    pub fn collect_dfa(&self) -> (dfa: DFA)
        requires
            self.wf(),
        ensures
            dfa.wf(),
            dfa.spec_initial() == self.spec_initial(),
            same_successors(self.spec_ts(), dfa.spec_ts()),
            same_state_colors(self.spec_ts(), dfa.spec_ts()),
    {
        Automaton::from_parts_with_acceptance(
            self.ts().erase_edge_colors(),
            self.initial(),
            ReachabilityCondition,
        )
    }
}

impl<Q: Copy, C: Color> Automaton<MealySemantics, Q, C, false> {
    /// Returns the minimal machine that outputs on every word what `self`
    /// outputs.
    pub fn minimize(&self) -> (minimized: MealyMachine<Vec<Q>, C>)
        requires
            self.wf(),
        ensures
            minimized.wf(),
            mealy_minimal(minimized.spec_ts()),
            forall|w: Seq<char>| #[trigger]
                mealy_output(minimized.spec_ts(), minimized.spec_initial(), w) == mealy_output(
                    self.spec_ts(),
                    self.spec_initial(),
                    w,
                ),
    {
        mealy_partition_refinement(self)
    }
}

impl<Q: Color, C: Color> Automaton<MooreSemantics, Q, C, false> {
    /// Returns the minimal machine that outputs on every word what `self`
    /// outputs.
    pub fn minimize(&self) -> (minimized: MooreMachine<Q>)
        requires
            self.wf(),
        ensures
            minimized.wf(),
            moore_minimal(minimized.spec_ts()),
            forall|w: Seq<char>| #[trigger]
                moore_output(minimized.spec_ts(), minimized.spec_initial(), w) == moore_output(
                    self.spec_ts(),
                    self.spec_initial(),
                    w,
                ),
    {
        moore_partition_refinement(self)
    }
}

/// In the union of two systems the states of the first reach what they reach
/// in the first.
proof fn lemma_union_left<Q, C>(left: &DTS<Q, C>, both: &DTS<Q, C>, q: int, w: Seq<char>)
    requires
        left.wf(),
        left.spec_size() <= both.spec_size(),
        forall|s: int, sym: char|
            0 <= s < left.spec_size() ==> #[trigger] both.spec_edge(s, sym) == left.spec_edge(s, sym),
        forall|s: int|
            0 <= s < left.spec_size() ==> #[trigger] both.spec_state_color(s)
                == left.spec_state_color(s),
        0 <= q < left.spec_size(),
    ensures
        both.reached(q, w) == left.reached(q, w),
        moore_output(both, q, w) == moore_output(left, q, w),
    decreases w.len(),
{
    left.lemma_reached_in_range(q, w);
    if w.len() > 0 {
        left.lemma_edge_in_range(q, w[0]);
        if let Some((_, t)) = left.spec_edge(q, w[0]) {
            lemma_union_left(left, both, t, w.skip(1));
        }
    }
}

/// In the union of two systems the states of the second reach what they reach
/// in the second.
proof fn lemma_union_right<Q, C>(right: &DTS<Q, C>, both: &DTS<Q, C>, shift: int, q: int, w: Seq<char>)
    requires
        right.wf(),
        shift >= 0,
        shift + right.spec_size() == both.spec_size(),
        forall|s: int, sym: char|
            0 <= s < right.spec_size() ==> #[trigger] both.spec_edge(shift + s, sym)
                == match right.spec_edge(s, sym) {
                Some((c, t)) => Some((c, shift + t)),
                None => None,
            },
        forall|s: int|
            0 <= s < right.spec_size() ==> #[trigger] both.spec_state_color(shift + s)
                == right.spec_state_color(s),
        0 <= q < right.spec_size(),
    ensures
        both.reached(shift + q, w) == match right.reached(q, w) {
            Some(t) => Some(shift + t),
            None => None,
        },
        moore_output(both, shift + q, w) == moore_output(right, q, w),
    decreases w.len(),
{
    right.lemma_reached_in_range(q, w);
    if w.len() > 0 {
        right.lemma_edge_in_range(q, w[0]);
        if let Some((_, t)) = right.spec_edge(q, w[0]) {
            lemma_union_right(right, both, shift, t, w.skip(1));
        }
    }
}

impl<Z, Q: Color, C: Color, const OMEGA: bool> Automaton<Z, Q, C, OMEGA> {
    /// Both machines read the same alphabet, and on every word they reach
    /// states of the same color, or both reach none.
    pub open spec fn spec_bisimilar<Y, const OTHER: bool>(
        &self,
        other: &Automaton<Y, Q, C, OTHER>,
    ) -> bool {
        &&& self.spec_ts().symbols() == other.spec_ts().symbols()
        &&& forall|w: Seq<char>| #[trigger]
            moore_output(self.spec_ts(), self.spec_initial(), w) == moore_output(
                other.spec_ts(),
                other.spec_initial(),
                w,
            )
    }

    /// Returns whether `self` and `other` read the same alphabet and output,
    /// as machines with outputs on their states, the same on every word.
    pub fn bisimilar<Y, const OTHER: bool>(&self, other: Automaton<Y, Q, C, OTHER>) -> (b: bool)
        requires
            self.wf(),
            other.wf(),
        ensures
            b == self.spec_bisimilar(&other),
    {
        if !self.ts().alphabet().equals(other.ts().alphabet()) {
            return false;
        }
        let both = self.ts().disjoint_union(other.ts());
        let n = self.size();
        proof {
            both.lemma_size_fits();
        }
        let partition = moore_greatest_bisimulation(&both);
        let left = self.initial();
        let right = n + other.initial();
        let same = partition.in_same_class(left, right);
        proof {
            let ts1 = self.spec_ts();
            let ts2 = other.spec_ts();
            assert(partition.same_class(left as int, right as int) <==> moore_bisimilar(
                &both,
                left as int,
                right as int,
            ));
            if moore_bisimilar(&both, left as int, right as int) {
                assert forall|w: Seq<char>| #[trigger]
                    moore_output(ts1, self.spec_initial(), w) == moore_output(
                        ts2,
                        other.spec_initial(),
                        w,
                    ) by {
                    lemma_union_left(ts1, &both, left as int, w);
                    lemma_union_right(ts2, &both, n as int, other.spec_initial(), w);
                    assert(moore_output(&both, left as int, w) == moore_output(
                        &both,
                        right as int,
                        w,
                    ));
                }
            }
            if self.spec_bisimilar(&other) {
                assert forall|w: Seq<char>| #[trigger]
                    moore_output(&both, left as int, w) == moore_output(&both, right as int, w) by {
                    lemma_union_left(ts1, &both, left as int, w);
                    lemma_union_right(ts2, &both, n as int, other.spec_initial(), w);
                    assert(moore_output(ts1, self.spec_initial(), w) == moore_output(
                        ts2,
                        other.spec_initial(),
                        w,
                    ));
                }
            }
        }
        same
    }
}

impl<Q: Copy, C: Copy> Automaton<MooreSemantics, Q, C, false> {
    /// Runs the machine on the given finite word and returns its output: the
    /// color of the state that is reached, if the run exists.
    pub fn transform(&self, word: &str) -> (output: Option<Q>)
        requires
            self.wf(),
        ensures
            output == moore_output(self.spec_ts(), self.spec_initial(), word@),
    {
        match self.ts().reached_state_index_from(self.initial(), word) {
            Some(t) => Some(*self.ts().state_color(t).unwrap()),
            None => None,
        }
    }
}

impl<Q, C: Copy> Automaton<MealySemantics, Q, C, false> {
    /// Runs the machine on the given finite word and returns its output: the
    /// color of the last edge that is taken, if the word is not empty and the
    /// run exists.
    pub fn transform(&self, word: &str) -> (output: Option<C>)
        requires
            self.wf(),
        ensures
            output == mealy_output(self.spec_ts(), self.spec_initial(), word@),
    {
        let len = word.unicode_len();
        if len == 0 {
            return None;
        }
        let ts = self.ts();
        let mut cur = self.initial();
        let mut i: usize = 0;
        assert(word@.skip(0) == word@);
        while i + 1 < len
            invariant
                ts.wf(),
                ts == self.spec_ts(),
                len == word@.len(),
                i < len,
                cur < ts.spec_size(),
                mealy_output(ts, self.spec_initial(), word@) == mealy_output(
                    ts,
                    cur as int,
                    word@.skip(i as int),
                ),
            decreases len - i,
        {
            let sym = word.get_char(i);
            proof {
                assert(word@.skip(i as int)[0] == sym);
                assert(word@.skip(i as int).skip(1) == word@.skip(i + 1));
                assert(word@.skip(i as int).len() > 1);
            }
            match ts.edge(cur, sym) {
                Some((_, t)) => {
                    cur = t;
                },
                None => {
                    assert(mealy_output(ts, cur as int, word@.skip(i as int)).is_none());
                    return None;
                },
            }
            i += 1;
        }
        let sym = word.get_char(i);
        assert(word@.skip(i as int)[0] == sym);
        assert(word@.skip(i as int).len() == 1);
        match ts.edge(cur, sym) {
            Some((c, _)) => Some(c),
            None => None,
        }
    }
}

impl<C: Copy> Automaton<MooreSemantics, Int, C, false> {
    /// Decomposes the machine into deterministic finite automata, one for every
    /// color up to the greatest color of a state: the automaton for color `i`
    /// has the states and edges of the machine, and accepts in the states whose
    /// color is at most `i`.
    pub fn decompose_dfa(&self) -> (dfas: Vec<DFA>)
        requires
            self.wf(),
        ensures
            forall|q: int|
                0 <= q < self.spec_ts().spec_size() ==> #[trigger] self.spec_ts().spec_state_color(q)
                    < dfas@.len(),
            exists|q: int|
                0 <= q < self.spec_ts().spec_size() && #[trigger] self.spec_ts().spec_state_color(q)
                    == dfas@.len() - 1,
            forall|i: int|
                0 <= i < dfas@.len() ==> {
                    &&& (#[trigger] dfas@[i]).wf()
                    &&& dfas@[i].spec_initial() == self.spec_initial()
                    &&& same_successors(self.spec_ts(), dfas@[i].spec_ts())
                    &&& forall|q: int|
                        0 <= q < self.spec_ts().spec_size() ==> #[trigger] dfas@[i].spec_is_accepting(
                            q,
                        ) == (self.spec_ts().spec_state_color(q) <= i)
                },
    {
        let ts = self.ts();
        let n = ts.size();
        let mut greatest: Int = *ts.state_color(self.initial()).unwrap();
        let ghost mut witness: int = self.spec_initial();
        let mut q: usize = 0;
        while q < n
            invariant
                n == ts.spec_size(),
                q <= n,
                0 <= witness < n,
                ts.spec_state_color(witness) == greatest,
                forall|s: int| 0 <= s < q ==> #[trigger] ts.spec_state_color(s) <= greatest,
            decreases n - q,
        {
            let color = *ts.state_color(q).unwrap();
            if color > greatest {
                greatest = color;
                proof {
                    witness = q as int;
                }
            }
            q += 1;
        }
        let mut dfas: Vec<DFA> = Vec::new();
        let mut i: usize = 0;
        while i <= greatest as usize
            invariant
                self.wf(),
                ts == self.spec_ts(),
                n == ts.spec_size(),
                i <= greatest + 1,
                dfas@.len() == i,
                forall|j: int|
                    0 <= j < i ==> {
                        &&& (#[trigger] dfas@[j]).wf()
                        &&& dfas@[j].spec_initial() == self.spec_initial()
                        &&& same_successors(self.spec_ts(), dfas@[j].spec_ts())
                        &&& forall|q: int|
                            0 <= q < self.spec_ts().spec_size() ==> #[trigger] dfas@[j].spec_is_accepting(
                                q,
                            ) == (self.spec_ts().spec_state_color(q) <= j)
                    },
            decreases greatest + 1 - i,
        {
            let bound = i;
            let below = |color: &Int| -> (accepting: bool)
                ensures
                    accepting == (*color <= bound),
                { (*color as usize) <= bound };
            let forget = |color: C| -> (erased: Void)
                ensures
                    erased == Void,
                { Void };
            let mapped = ts.map_colors(&below, &forget);
            proof {
                assert forall|s: int, sym: char| #[trigger]
                    mapped.spec_successor(s, sym) == ts.spec_successor(s, sym) by {
                    let e = mapped.spec_edge(s, sym);
                }
            }
            let dfa: DFA = Automaton::from_parts_with_acceptance(
                mapped,
                self.initial(),
                ReachabilityCondition,
            );
            let ghost before = dfas@;
            dfas.push(dfa);
            proof {
                assert forall|j: int| 0 <= j < i + 1 implies {
                    &&& (#[trigger] dfas@[j]).wf()
                    &&& dfas@[j].spec_initial() == self.spec_initial()
                    &&& same_successors(self.spec_ts(), dfas@[j].spec_ts())
                    &&& forall|q: int|
                        0 <= q < self.spec_ts().spec_size() ==> #[trigger] dfas@[j].spec_is_accepting(
                            q,
                        ) == (self.spec_ts().spec_state_color(q) <= j)
                } by {
                    if j < i {
                        assert(dfas@[j] == before[j]);
                    }
                }
            }
            i += 1;
        }
        proof {
            assert(ts.spec_state_color(witness) == dfas@.len() - 1);
        }
        dfas
    }
}

/// In `trimmed`, state `i` has the edge on `sym` that the `i`-th of `states`
/// has in `ts`, led to the position of its target.
pub open spec fn trimmed_edge<Q, C>(
    ts: &DTS<Q, C>,
    states: Seq<StateIndex>,
    trimmed: &DTS<Q, C>,
    i: int,
    sym: char,
) -> bool {
    match ts.spec_edge(states[i] as int, sym) {
        Some((c, t)) => trimmed.spec_edge(i, sym) matches Some((d, j)) && d == c && 0 <= j
            < states.len() && states[j] == t,
        None => trimmed.spec_edge(i, sym).is_none(),
    }
}

/// Some word leads from `from` to `q`.
pub open spec fn reachable_from<Q, C>(ts: &DTS<Q, C>, from: int, q: int) -> bool {
    ts.reachable(from, q)
}

/// `trimmed` is the part of `ts` that can be reached from `from`: `states`
/// lists the states that can be reached, each once and `from` first, and
/// `trimmed` has one state for every position of the list, with the color and
/// the edges of the state listed.
pub open spec fn is_trim<Q, C>(
    ts: &DTS<Q, C>,
    from: int,
    states: Seq<StateIndex>,
    trimmed: &DTS<Q, C>,
) -> bool {
    &&& trimmed.wf()
    &&& trimmed.symbols() == ts.symbols()
    &&& trimmed.spec_size() == states.len()
    &&& states.len() > 0
    &&& states[0] == from
    &&& states.no_duplicates()
    &&& forall|q: StateIndex|
        #[trigger] states.contains(q) <==> (q < ts.spec_size() && reachable_from(ts, from, q as int))
    &&& forall|i: int|
        0 <= i < states.len() ==> #[trigger] trimmed.spec_state_color(i) == ts.spec_state_color(
            states[i] as int,
        )
    &&& forall|i: int, sym: char|
        0 <= i < states.len() ==> #[trigger] trimmed_edge(ts, states, trimmed, i, sym)
}

/// A system with one state and an edge on every symbol runs on every word on
/// which a system over the same symbols runs.
proof fn lemma_loop_runs<Q, C>(ts: &DTS<Q, C>, single: &DTS<Void, Void>, q: int, w: Seq<char>)
    requires
        ts.wf(),
        single.wf(),
        single.spec_size() == 1,
        single.symbols() == ts.symbols(),
        single.complete(),
        ts.reached(q, w).is_some(),
    ensures
        single.reached(0, w) == Some(0int),
    decreases w.len(),
{
    if w.len() > 0 {
        ts.lemma_edge_in_range(q, w[0]);
        let (_, t) = ts.spec_edge(q, w[0]).unwrap();
        let a = ts.symbols().index_of(w[0]);
        assert(single.spec_edge(0, single.symbols()[a]).is_some());
        single.lemma_edge_in_range(0, w[0]);
        lemma_loop_runs(ts, single, t, w.skip(1));
    }
}

impl<Z, Q: Copy, C: Copy, const OMEGA: bool> Automaton<Z, Q, C, OMEGA> {
    /// Collects the part of the transition system that can be reached from the
    /// initial state. Returns the states that can be reached, in the order in
    /// which a search breadth first finds them, and the system whose states are
    /// their positions.
    pub fn trim_with_states(&self) -> (r: (Vec<StateIndex>, DTS<Q, C>))
        requires
            self.wf(),
        ensures
            is_trim(self.spec_ts(), self.spec_initial(), r.0@, &r.1),
    {
        let ts = self.ts();
        let single: RightCongruence = Automaton::new_trivial_with_initial_color(
            ts.alphabet().clone(),
            Void,
            Void,
        );
        let (pairs, both) = product(ts, self.initial(), single.ts(), 0);
        let first_state = |colors: &(Q, Void)| -> (color: Q)
            ensures
                color == colors.0,
            { colors.0 };
        let first_edge = |colors: (C, Void)| -> (color: C)
            ensures
                color == colors.0,
            { colors.0 };
        let trimmed = both.map_colors(&first_state, &first_edge);
        let mut states: Vec<StateIndex> = Vec::new();
        let mut i: usize = 0;
        while i < pairs.len()
            invariant
                i <= pairs@.len(),
                states@.len() == i,
                forall|j: int| 0 <= j < i ==> states@[j] == pairs@[j].0,
            decreases pairs@.len() - i,
        {
            states.push(pairs[i].0);
            i += 1;
        }
        proof {
            let sts = single.spec_ts();
            assert forall|j: int| 0 <= j < pairs@.len() implies (#[trigger] pairs@[j]).1 == 0 by {}
            assert(states@.no_duplicates()) by {
                assert forall|x: int, y: int|
                    0 <= x < states@.len() && 0 <= y < states@.len() && x != y implies states@[x]
                    != states@[y] by {
                    assert(pairs@[x] != pairs@[y]);
                }
            }
            assert forall|j: int, sym: char| 0 <= j < states@.len() implies #[trigger] trimmed_edge(
                ts,
                states@,
                &trimmed,
                j,
                sym,
            ) by {
                assert(product_edge_recorded(ts, sts, pairs@, &both, j, sym));
                ts.lemma_edge_in_range(states@[j] as int, sym);
                let e = trimmed.spec_edge(j, sym);
                if ts.spec_edge(states@[j] as int, sym).is_some() {
                    let a = ts.symbols().index_of(sym);
                    assert(sts.spec_edge(0, sts.symbols()[a]).is_some());
                }
            }
            assert forall|q: StateIndex|
                #[trigger] states@.contains(q) <==> (q < ts.spec_size() && reachable_from(
                    ts,
                    self.spec_initial(),
                    q as int,
                )) by {
                if states@.contains(q) {
                    let j = choose|j: int| 0 <= j < states@.len() && states@[j] == q;
                    let w = lemma_product_listed_reachable(ts, sts, pairs@, &both, j);
                    assert(ts.reached(self.spec_initial(), w) == Some(q as int));
                }
                if q < ts.spec_size() && reachable_from(ts, self.spec_initial(), q as int) {
                    let w = choose|w: Seq<char>| #[trigger]
                        ts.reached(self.spec_initial(), w) == Some(q as int);
                    lemma_loop_runs(ts, sts, self.spec_initial(), w);
                    lemma_product_reached(ts, sts, pairs@, &both, 0, w);
                    let j = both.reached(0, w).unwrap();
                    assert(states@[j] == q);
                }
            }
        }
        (states, trimmed)
    }

    /// Returns the states that can be reached from the initial state, each
    /// once, the initial state first.
    pub fn reachable_state_indices(&self) -> (states: Vec<StateIndex>)
        requires
            self.wf(),
        ensures
            states@.len() > 0,
            states@[0] == self.spec_initial(),
            states@.no_duplicates(),
            forall|q: StateIndex|
                #[trigger] states@.contains(q) <==> (q < self.spec_ts().spec_size()
                    && reachable_from(self.spec_ts(), self.spec_initial(), q as int)),
    {
        let (states, trimmed) = self.trim_with_states();
        proof {
            assert(is_trim(self.spec_ts(), self.spec_initial(), states@, &trimmed));
        }
        states
    }

    /// Collects the part of the transition system that can be reached from the
    /// initial state, together with its initial state, which is state 0.
    pub fn trim_collect_pointed(&self) -> (r: (DTS<Q, C>, StateIndex))
        requires
            self.wf(),
        ensures
            r.1 == 0,
            exists|states: Seq<StateIndex>| #[trigger]
                is_trim(self.spec_ts(), self.spec_initial(), states, &r.0),
    {
        let (states, trimmed) = self.trim_with_states();
        let r = (trimmed, 0);
        assert(is_trim(self.spec_ts(), self.spec_initial(), states@, &r.0));
        r
    }
}

impl<Q: Copy, C: Copy> DTS<Q, C> {
    /// Collects a copy of the system.
    pub fn collect_dts(&self) -> (collected: DTS<Q, C>)
        requires
            self.wf(),
        ensures
            same_edges(self, &collected),
            same_state_colors(self, &collected),
    {
        self.clone()
    }

    /// Collects a copy of the system in which every state has, besides its
    /// color, its index for its color.
    pub fn collect_dts_preserving(&self) -> (collected: DTS<(StateIndex, Q), C>)
        requires
            self.wf(),
        ensures
            same_edges(self, &collected),
            forall|q: int|
                0 <= q < self.spec_size() ==> #[trigger] collected.spec_state_color(q) == (
                    q as usize,
                    self.spec_state_color(q),
                ),
    {
        let n = self.size();
        let mut colors: Vec<(StateIndex, Q)> = Vec::new();
        let mut q: usize = 0;
        while q < n
            invariant
                n == self.spec_size(),
                q <= n,
                colors@.len() == q,
                forall|s: int|
                    0 <= s < q ==> colors@[s] == (s as usize, self.spec_state_color(s)),
            decreases n - q,
        {
            colors.push((q, *self.state_color(q).unwrap()));
            q += 1;
        }
        self.recolor(colors)
    }
}

impl<C: Copy> DTS<bool, C> {
    /// Builds a deterministic finite automaton that starts in `initial`. The
    /// colors of the edges are dropped.
    pub fn into_dfa_with_initial(self, initial: StateIndex) -> (dfa: DFA)
        requires
            self.wf(),
            initial < self.spec_size(),
        ensures
            dfa.wf(),
            dfa.spec_initial() == initial,
            same_successors(&self, dfa.spec_ts()),
            same_state_colors(&self, dfa.spec_ts()),
    {
        Automaton::from_parts_with_acceptance(
            self.erase_edge_colors(),
            initial,
            ReachabilityCondition,
        )
    }
}

impl<Q> DTS<Q, Int> {
    /// Builds a deterministic parity automaton that starts in `initial`. The
    /// colors of the states are dropped.
    pub fn into_dpa_with_initial(self, initial: StateIndex) -> (dpa: DPA)
        requires
            self.wf(),
            initial < self.spec_size(),
        ensures
            dpa.wf(),
            dpa.spec_initial() == initial,
            same_edges(&self, dpa.spec_ts()),
    {
        Automaton::from_parts_with_acceptance(
            self.erase_state_colors(),
            initial,
            MinEvenParityCondition,
        )
    }
}

impl<Q> DTS<Q, bool> {
    /// Builds a deterministic Büchi automaton that starts in `initial`. The
    /// colors of the states are dropped.
    pub fn into_dba_with_initial(self, initial: StateIndex) -> (dba: DBA)
        requires
            self.wf(),
            initial < self.spec_size(),
        ensures
            dba.wf(),
            dba.spec_initial() == initial,
            same_edges(&self, dba.spec_ts()),
    {
        Automaton::from_parts_with_acceptance(self.erase_state_colors(), initial, BuchiCondition)
    }
}

impl<Z, Q: Copy, C: Copy, const OMEGA: bool> Automaton<Z, Q, C, OMEGA> {
    /// Collects a copy of the transition system, together with the initial
    /// state.
    pub fn collect_dts_and_initial(&self) -> (r: (DTS<Q, C>, StateIndex))
        requires
            self.wf(),
        ensures
            r.1 == self.spec_initial(),
            same_edges(self.spec_ts(), &r.0),
            same_state_colors(self.spec_ts(), &r.0),
    {
        (self.ts().clone(), self.initial())
    }

    /// Collects a machine with outputs on its states that starts where `self`
    /// starts. The colors of the edges are dropped.
    pub fn collect_moore(&self) -> (moore: MooreMachine<Q>)
        requires
            self.wf(),
        ensures
            moore.wf(),
            moore.spec_initial() == self.spec_initial(),
            same_successors(self.spec_ts(), moore.spec_ts()),
            same_state_colors(self.spec_ts(), moore.spec_ts()),
    {
        Automaton::from_parts_with_acceptance(
            self.ts().erase_edge_colors(),
            self.initial(),
            MooreSemantics,
        )
    }

    /// Collects a right congruence: the transition system with its initial
    /// state and its colors.
    pub fn collect_right_congruence(&self) -> (cong: RightCongruence<Q, C>)
        requires
            self.wf(),
        ensures
            cong.wf(),
            cong.spec_initial() == self.spec_initial(),
            same_edges(self.spec_ts(), cong.spec_ts()),
            same_state_colors(self.spec_ts(), cong.spec_ts()),
    {
        Automaton::from_parts_with_acceptance(self.ts().clone(), self.initial(), WithoutCondition)
    }

    /// Turns `self` into a right congruence: the transition system with its
    /// initial state and its colors.
    pub fn into_right_congruence(self) -> (cong: RightCongruence<Q, C>)
        ensures
            cong.spec_ts() == self.spec_ts(),
            cong.spec_initial() == self.spec_initial(),
            cong.wf() == self.wf(),
    {
        Automaton::from_pointed_with_acceptance(self, WithoutCondition)
    }
}

impl<Z, Q, const OMEGA: bool> Automaton<Z, Q, bool, OMEGA> {
    /// Collects a deterministic Büchi automaton that starts where `self`
    /// starts. The colors of the states are dropped.
    pub fn collect_dba(&self) -> (dba: DBA)
        requires
            self.wf(),
        ensures
            dba.wf(),
            dba.spec_initial() == self.spec_initial(),
            same_edges(self.spec_ts(), dba.spec_ts()),
    {
        Automaton::from_parts_with_acceptance(
            self.ts().erase_state_colors(),
            self.initial(),
            BuchiCondition,
        )
    }
}

} // verus!
