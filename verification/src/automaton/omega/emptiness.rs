//! A Büchi automaton accepts some ultimately periodic word exactly if a state
//! that can be reached lies on a loop through an accepting edge.
use crate::automaton::omega::run::{lemma_times_add, OmegaRun};
use crate::automaton::omega::BuchiCondition;
use crate::automaton::Automaton;
use crate::ts::reach::lemma_distinct_below;
use crate::word::{lemma_times_grows, times};
use vstd::prelude::*;

verus! {

impl<'a, Q, C> OmegaRun<'a, Q, C> {
    /// The symbols that are read from position `i` up to, but not including,
    /// position `j`.
    pub open spec fn word_between(&self, i: int, j: int) -> Seq<char> {
        Seq::new((j - i) as nat, |k: int| self.symbol(i + k))
    }

    /// The state at a later position is the state that the symbols read in
    /// between lead to.
    pub proof fn lemma_segment(&self, i: int, j: int)
        requires
            self.ts.wf(),
            0 <= i <= j,
        ensures
            self.state(j) == match self.state(i) {
                Some(q) => self.ts.reached(q, self.word_between(i, j)),
                None => None,
            },
        decreases j - i,
    {
        if i == j {
            assert(self.word_between(i, j) =~= Seq::<char>::empty());
            if self.state(i).is_some() {
                self.lemma_prefix(i, i);
            }
        } else {
            self.lemma_segment(i, j - 1);
            let shorter = self.word_between(i, j - 1);
            assert(self.word_between(i, j) =~= shorter.push(self.symbol(j - 1)));
            if let Some(q) = self.state(i) {
                self.ts.lemma_reached_push(q, shorter, self.symbol(j - 1));
            }
        }
    }

    /// The state at the `k`-th repetition of the cycle.
    pub open spec fn boundary(&self, k: int) -> Option<int> {
        self.state(self.spoke.len() + times(self.cycle.len() as int, k as nat))
    }

    /// Among the states at the first repetitions of the cycle, one more than
    /// there are states, two are the same.
    pub proof fn lemma_boundary_repeats(&self) -> (r: (int, int))
        requires
            self.ts.wf(),
            self.exists_forever(),
            self.cycle.len() > 0,
        ensures
            0 <= r.0 < r.1 <= self.ts.spec_size(),
            self.boundary(r.0) == self.boundary(r.1),
    {
        let n = self.ts.spec_size();
        self.ts.lemma_size_fits();
        let all = Seq::new(n + 1, |k: int| self.boundary(k).unwrap() as usize);
        assert forall|k: int| 0 <= k < all.len() implies #[trigger] all[k] < n && self.boundary(k)
            == Some(all[k] as int) by {
            lemma_times_grows(self.cycle.len() as int, k as nat);
            let position = self.spoke.len() + times(self.cycle.len() as int, k as nat);
            assert(self.state(position).is_some());
            self.lemma_prefix(position, position);
        }
        if all.no_duplicates() {
            lemma_distinct_below(all, n);
            assert(false);
        }
        let (x, y) = choose|x: int, y: int|
            0 <= x < all.len() && 0 <= y < all.len() && x != y && all[x] == all[y];
        if x < y {
            (x, y)
        } else {
            (y, x)
        }
    }
}

impl<Q> Automaton<BuchiCondition, Q, bool, true> {
    /// The run on the word with the given spoke and cycle.
    pub open spec fn lasso_run(&self, spoke: Seq<char>, cycle: Seq<char>) -> OmegaRun<'_, Q, bool> {
        OmegaRun { ts: self.spec_ts(), start: self.spec_initial(), spoke, cycle }
    }

    /// The automaton accepts the word with the given spoke and cycle.
    pub open spec fn accepts_lasso(&self, spoke: Seq<char>, cycle: Seq<char>) -> bool {
        &&& cycle.len() > 0
        &&& self.lasso_run(spoke, cycle).exists_forever()
        &&& self.lasso_run(spoke, cycle).seen_infinitely_often(true)
    }

    /// The automaton accepts some ultimately periodic word.
    pub open spec fn accepts_some_word(&self) -> bool {
        exists|spoke: Seq<char>, cycle: Seq<char>| #[trigger] self.accepts_lasso(spoke, cycle)
    }
}

impl<Q: Copy> Automaton<BuchiCondition, Q, bool, true> {
    /// Where a state that can be reached lies on a loop through an edge that
    /// is colored `true`, the automaton accepts the word that leads to the
    /// state and then takes the loop forever.
    pub proof fn lemma_loop_gives_word(&self, p: int, sym: char)
        requires
            self.wf(),
            self.accepting_loop_at(p, sym),
        ensures
            self.accepts_some_word(),
    {
        let ts = self.spec_ts();
        let u = choose|u: Seq<char>| #[trigger] ts.reached(self.spec_initial(), u) == Some(p);
        let (c, t) = ts.spec_edge(p, sym).unwrap();
        let v = choose|v: Seq<char>| #[trigger] ts.reached(t, v) == Some(p);
        let cycle = seq![sym] + v;
        let run = self.lasso_run(u, cycle);
        let len = cycle.len() as int;
        let a = u.len() as int;
        assert(times(len, 1) == len) by {
            assert(times(len, 0) == 0);
        }
        assert(run.word_between(0, a) =~= u) by {
            assert forall|k: int| 0 <= k < a implies run.symbol(k) == u[k] by {}
        }
        run.lemma_segment(0, a);
        assert(run.state(a) == Some(p));
        assert(run.word_between(a, a + len) =~= cycle) by {
            assert forall|k: int| 0 <= k < len implies run.symbol(a + k) == cycle[k] by {}
        }
        run.lemma_segment(a, a + len);
        assert(cycle[0] == sym);
        assert(cycle.skip(1) =~= v);
        assert(ts.reached(p, cycle) == Some(p));
        assert(run.state(a + len) == Some(p));
        assert(run.symbol(a) == sym);
        assert(run.color(a) == Some(true));
        run.lemma_lasso(a, 1);
        assert(run.seen_between(true, a, a + len));
        assert(self.accepts_lasso(u, cycle));
    }

    /// Where the automaton accepts a word, a state that can be reached lies on
    /// a loop through an edge that is colored `true`.
    pub proof fn lemma_word_gives_loop(&self, spoke: Seq<char>, cycle: Seq<char>)
        requires
            self.wf(),
            self.accepts_lasso(spoke, cycle),
        ensures
            self.has_accepting_loop(),
    {
        let ts = self.spec_ts();
        let run = self.lasso_run(spoke, cycle);
        let len = cycle.len() as int;
        let s = spoke.len() as int;
        let (k1, k2) = run.lemma_boundary_repeats();
        let a = s + times(len, k1 as nat);
        let m = (k2 - k1) as nat;
        let period = times(len, m);
        lemma_times_add(len, k1 as nat, m);
        lemma_times_grows(len, k1 as nat);
        lemma_times_grows(len, m);
        assert(run.state(a) == run.state(a + period));
        assert(run.state(a).is_some());
        run.lemma_lasso(a, m);
        assert(run.seen_between(true, a, a + period));
        let i = choose|i: int| a <= i < a + period && #[trigger] run.color(i) == Some(true);
        let p = run.state(i).unwrap();
        let sym = run.symbol(i);
        run.lemma_prefix(i, i);
        run.lemma_segment(0, i);
        assert(ts.reached(self.spec_initial(), run.word_between(0, i)) == Some(p));
        assert(ts.reachable(self.spec_initial(), p));
        let (c, t) = ts.spec_edge(p, sym).unwrap();
        assert(run.state(i + 1) == Some(t));
        run.lemma_segment(i + 1, a + period);
        run.lemma_segment(a, i);
        let back = run.word_between(i + 1, a + period) + run.word_between(a, i);
        ts.lemma_reached_concat(t, run.word_between(i + 1, a + period), run.word_between(a, i));
        assert(ts.reached(t, back) == Some(p));
        assert(ts.reachable(t, p));
        assert(self.accepting_loop_at(p, sym));
    }

    /// A Büchi automaton accepts some ultimately periodic word exactly if a
    /// state that can be reached from the initial state lies on a loop through
    /// an edge that is colored `true`.
    pub proof fn lemma_nonempty_iff_accepting_loop(&self)
        requires
            self.wf(),
        ensures
            self.accepts_some_word() <==> self.has_accepting_loop(),
    {
        if self.accepts_some_word() {
            let (spoke, cycle) = choose|spoke: Seq<char>, cycle: Seq<char>| #[trigger]
                self.accepts_lasso(spoke, cycle);
            self.lemma_word_gives_loop(spoke, cycle);
        }
        if self.has_accepting_loop() {
            let (p, sym) = choose|p: int, sym: char| #[trigger] self.accepting_loop_at(p, sym);
            self.lemma_loop_gives_word(p, sym);
        }
    }
}

} // verus!
