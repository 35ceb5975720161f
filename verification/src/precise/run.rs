//! The runs of the precise automaton, and what exploring it finds.
use crate::color::{Int, Void};
use crate::minimization::bisimulation::mealy_output;
use crate::precise::{PStateView, PreciseDPA};
use crate::ts::DTS;
use vstd::prelude::*;

verus! {

impl PreciseDPA {
    /// Every symbol of `w` belongs to the alphabet.
    pub open spec fn valid_word(&self, w: Seq<char>) -> bool {
        forall|i: int| 0 <= i < w.len() ==> self.symbols().contains(#[trigger] w[i])
    }

    /// The state in which the run on `w` from `s` ends.
    pub open spec fn run_from(&self, s: PStateView, w: Seq<char>) -> PStateView
        decreases w.len(),
    {
        if w.len() == 0 {
            s
        } else {
            self.run_from(self.step_target(s, w[0]), w.skip(1))
        }
    }

    /// The state of the precise automaton after reading `w`.
    pub open spec fn state_after(&self, w: Seq<char>) -> PStateView {
        self.run_from(self.spec_initial(), w)
    }

    /// The color of the last edge of the run on `w` from `s`.
    pub open spec fn last_color_from(&self, s: PStateView, w: Seq<char>) -> Option<int>
        decreases w.len(),
    {
        if w.len() == 0 {
            None
        } else if w.len() == 1 {
            Some(self.step_color(s, w[0]))
        } else {
            self.last_color_from(self.step_target(s, w[0]), w.skip(1))
        }
    }

    /// The color of the edge that the precise automaton takes on the symbol at
    /// position `j` of `w`.
    pub open spec fn color_at(&self, w: Seq<char>, j: int) -> int {
        self.step_color(self.state_after(w.take(j)), w[j])
    }

    /// Some word leads from the initial state to `s`.
    pub open spec fn reachable(&self, s: PStateView) -> bool {
        exists|w: Seq<char>| self.valid_word(w) && #[trigger] self.state_after(w) == s
    }

    /// The initial state is valid.
    pub proof fn lemma_initial_valid(&self)
        requires
            self.wf(),
        ensures
            self.valid_state(self.spec_initial()),
    {
        let s = self.spec_initial();
        assert forall|i: int| 0 <= i < self.spec_width() implies #[trigger] s.progress_states[i]
            < self.spec_dfa(s.progress_classes[i] as int, i).spec_ts().spec_size() by {
            assert(self.dfa_fits(s.class as int, i));
        }
    }

    /// Runs on words over the alphabet lead from valid states to valid states.
    pub proof fn lemma_run_valid(&self, s: PStateView, w: Seq<char>)
        requires
            self.wf(),
            self.valid_state(s),
            self.valid_word(w),
        ensures
            self.valid_state(self.run_from(s, w)),
        decreases w.len(),
    {
        if w.len() > 0 {
            assert(self.symbols().contains(w[0]));
            self.lemma_step_total(s, w[0]);
            assert forall|i: int| 0 <= i < w.skip(1).len() implies self.symbols().contains(
                #[trigger] w.skip(1)[i],
            ) by {
                assert(w.skip(1)[i] == w[i + 1]);
            }
            self.lemma_run_valid(self.step_target(s, w[0]), w.skip(1));
        }
    }

    /// Reading one more symbol leads from the state reached along the edge on
    /// that symbol.
    pub proof fn lemma_run_push(&self, s: PStateView, w: Seq<char>, sym: char)
        ensures
            self.run_from(s, w.push(sym)) == self.step_target(self.run_from(s, w), sym),
        decreases w.len(),
    {
        let full = w.push(sym);
        if w.len() == 0 {
            assert(full[0] == sym);
            assert(full.skip(1).len() == 0);
            assert(self.run_from(self.step_target(s, sym), full.skip(1)) == self.step_target(s, sym));
        } else {
            assert(full[0] == w[0]);
            assert(full.skip(1) =~= w.skip(1).push(sym));
            self.lemma_run_push(self.step_target(s, w[0]), w.skip(1), sym);
        }
    }

    /// The color of the last edge of a run is the color of the edge taken on
    /// the last symbol.
    pub proof fn lemma_last_color_push(&self, s: PStateView, w: Seq<char>, sym: char)
        ensures
            self.last_color_from(s, w.push(sym)) == Some(self.step_color(self.run_from(s, w), sym)),
        decreases w.len(),
    {
        let full = w.push(sym);
        if w.len() == 0 {
            assert(full[0] == sym);
        } else {
            assert(full[0] == w[0]);
            assert(full.skip(1) =~= w.skip(1).push(sym));
            self.lemma_last_color_push(self.step_target(s, w[0]), w.skip(1), sym);
        }
    }

    /// The system of an exploration runs as the precise automaton does: from
    /// the position of a state it reaches the position of the state that the
    /// precise automaton reaches, and it outputs the color of the last edge.
    pub proof fn lemma_exploration_runs(
        &self,
        states: Seq<PStateView>,
        ts: &DTS<Void, Int>,
        i: int,
        w: Seq<char>,
    )
        requires
            self.wf(),
            self.is_exploration(states, ts),
            0 <= i < states.len(),
            self.valid_word(w),
        ensures
            ts.reached(i, w) matches Some(j) && 0 <= j < states.len() && states[j] == self.run_from(
                states[i],
                w,
            ),
            w.len() > 0 ==> (mealy_output(ts, i, w) matches Some(c) && Some(c as int)
                == self.last_color_from(states[i], w)),
        decreases w.len(),
    {
        if w.len() > 0 {
            let a = self.symbols().index_of(w[0]);
            assert(self.symbols().contains(w[0]));
            assert(self.edge_recorded(states, ts, i, self.symbols()[a]));
            let (c, j) = ts.spec_edge(i, w[0]).unwrap();
            assert forall|k: int| 0 <= k < w.skip(1).len() implies self.symbols().contains(
                #[trigger] w.skip(1)[k],
            ) by {
                assert(w.skip(1)[k] == w[k + 1]);
            }
            self.lemma_exploration_runs(states, ts, j, w.skip(1));
        }
    }

    /// Every state that an exploration lists can be reached: a word leads to it.
    pub proof fn lemma_listed_is_reachable(
        &self,
        states: Seq<PStateView>,
        ts: &DTS<Void, Int>,
        j: int,
    ) -> (w: Seq<char>)
        requires
            self.wf(),
            self.is_exploration(states, ts),
            0 <= j < states.len(),
        ensures
            self.valid_word(w),
            self.state_after(w) == states[j],
        decreases j,
    {
        if j == 0 {
            Seq::<char>::empty()
        } else {
            assert(self.found_from_earlier(states, j));
            let (i, a) = choose|i: int, a: int|
                0 <= i < j && 0 <= a < self.symbols().len() && states[j] == #[trigger] self.step_target(
                    states[i],
                    self.symbols()[a],
                );
            let v = self.lemma_listed_is_reachable(states, ts, i);
            let sym = self.symbols()[a];
            self.lemma_run_push(self.spec_initial(), v, sym);
            let w = v.push(sym);
            assert forall|k: int| 0 <= k < w.len() implies self.symbols().contains(#[trigger] w[k]) by {
                if k < v.len() {
                    assert(w[k] == v[k]);
                }
            }
            w
        }
    }

    /// Every state of the system of an exploration can be reached from its
    /// first state.
    pub proof fn lemma_exploration_all_reachable(&self, states: Seq<PStateView>, ts: &DTS<Void, Int>)
        requires
            self.wf(),
            self.is_exploration(states, ts),
        ensures
            ts.all_reachable(0),
    {
        assert forall|j: int| 0 <= j < ts.spec_size() implies #[trigger] ts.reachable(0, j) by {
            let w = self.lemma_listed_is_reachable(states, ts, j);
            self.lemma_exploration_runs(states, ts, 0, w);
            let l = ts.reached(0, w).unwrap();
            assert(states[l] == states[j]);
        }
    }

    /// From a state that can be reached an edge leaves on every symbol: some
    /// level accepts, so the color is a level, and the target is a state that
    /// can be reached.
    pub proof fn lemma_reachable_step_total(&self, s: PStateView, sym: char)
        requires
            self.wf(),
            self.reachable(s),
            self.symbols().contains(sym),
        ensures
            self.valid_state(s),
            0 <= self.step_color(s, sym) < self.spec_width(),
            self.accepting_levels(s, sym)[self.step_color(s, sym)],
            self.reachable(self.step_target(s, sym)),
    {
        let w = choose|w: Seq<char>| self.valid_word(w) && #[trigger] self.state_after(w) == s;
        self.lemma_initial_valid();
        self.lemma_run_valid(self.spec_initial(), w);
        self.lemma_step_total(s, sym);
        self.lemma_run_push(self.spec_initial(), w, sym);
        let longer = w.push(sym);
        assert forall|k: int| 0 <= k < longer.len() implies self.symbols().contains(
            #[trigger] longer[k],
        ) by {
            if k < w.len() {
                assert(longer[k] == w[k]);
            }
        }
        assert(self.valid_word(longer) && self.state_after(longer) == self.step_target(s, sym));
    }

    /// An exploration lists exactly the states that can be reached.
    pub proof fn lemma_exploration_complete(&self, states: Seq<PStateView>, ts: &DTS<Void, Int>)
        requires
            self.wf(),
            self.is_exploration(states, ts),
        ensures
            forall|s: PStateView| states.contains(s) <==> self.reachable(s),
    {
        assert forall|s: PStateView| states.contains(s) <==> self.reachable(s) by {
            if states.contains(s) {
                let j = choose|j: int| 0 <= j < states.len() && states[j] == s;
                let w = self.lemma_listed_is_reachable(states, ts, j);
                assert(self.valid_word(w) && self.state_after(w) == s);
            }
            if self.reachable(s) {
                let w = choose|w: Seq<char>| self.valid_word(w) && #[trigger] self.state_after(w) == s;
                self.lemma_exploration_runs(states, ts, 0, w);
                let j = ts.reached(0, w).unwrap();
                assert(states[j] == s);
            }
        }
    }
}

} // verus!
