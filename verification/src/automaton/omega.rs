//! Automata on infinite words.
use crate::automaton::Automaton;
use crate::automaton::omega::run::{infinity_set, run_of, OmegaRun};
use crate::color::{Color, Int, Void};
use crate::representation::reachable_from;
use crate::ts::StateIndex;
use crate::word::ReducedOmegaWord;
use vstd::prelude::*;

pub mod emptiness;
pub mod rabin;
pub mod run;

verus! {

/// The condition of a parity automaton: a run is accepted if the least color
/// that it sees infinitely often is even.
#[derive(Clone, Copy, Debug, PartialEq, Eq, Structural, Hash)]
pub struct MinEvenParityCondition;

/// The condition of a Büchi automaton: a run is accepted if it takes
/// infinitely often an edge that is colored `true`.
#[derive(Clone, Copy, Debug, PartialEq, Eq, Structural, Hash)]
pub struct BuchiCondition;

impl Default for MinEvenParityCondition {
    fn default() -> (z: Self)
        ensures
            z == MinEvenParityCondition,
    {
        MinEvenParityCondition
    }
}

impl Default for BuchiCondition {
    fn default() -> (z: Self)
        ensures
            z == BuchiCondition,
    {
        BuchiCondition
    }
}

/// A deterministic parity automaton: its edges are colored with priorities.
pub type DPA = Automaton<MinEvenParityCondition, Void, Int, true>;

/// A deterministic Büchi automaton: its edges are colored with booleans.
pub type DBA = Automaton<BuchiCondition, Void, bool, true>;

impl<Z, Q, C: Color> Automaton<Z, Q, C, true> {
    /// The run of the automaton on `word`.
    pub open spec fn spec_run(&self, word: &ReducedOmegaWord) -> OmegaRun<'_, Q, C> {
        run_of(self.spec_ts(), self.spec_initial(), word)
    }

    /// Runs the automaton on the given infinite word and returns what the
    /// acceptance condition judges: the colors that the run sees infinitely
    /// often, each once. Returns `None` if the run leaves the automaton.
    pub fn transform(&self, word: &ReducedOmegaWord) -> (output: Option<Vec<C>>)
        requires
            self.wf(),
            word.wf(),
        ensures
            match output {
                Some(colors) => self.spec_run(word).exists_forever() && colors@.no_duplicates()
                    && forall|c: C|
                    #[trigger] colors@.contains(c) <==> self.spec_run(word).seen_infinitely_often(c),
                None => !self.spec_run(word).exists_forever(),
            },
    {
        infinity_set(self.ts(), self.initial(), word)
    }
}

impl<Q> Automaton<BuchiCondition, Q, bool, true> {
    /// The automaton accepts `word`: its run never leaves it and takes
    /// infinitely often an edge that is colored `true`.
    pub open spec fn spec_accepts(&self, word: &ReducedOmegaWord) -> bool {
        self.spec_run(word).exists_forever() && self.spec_run(word).seen_infinitely_often(true)
    }

    /// Returns whether the automaton accepts the given infinite word.
    pub fn accepts(&self, word: &ReducedOmegaWord) -> (b: bool)
        requires
            self.wf(),
            word.wf(),
        ensures
            b == self.spec_accepts(word),
    {
        match self.transform(word) {
            Some(colors) => {
                let mut i: usize = 0;
                while i < colors.len()
                    invariant
                        i <= colors@.len(),
                        forall|j: int| 0 <= j < i ==> !colors@[j],
                        self.spec_run(word).exists_forever(),
                        forall|c: bool|
                            #[trigger] colors@.contains(c) <==> self.spec_run(
                                word,
                            ).seen_infinitely_often(c),
                    decreases colors@.len() - i,
                {
                    if colors[i] {
                        assert(colors@.contains(true));
                        return true;
                    }
                    i += 1;
                }
                assert(!colors@.contains(true));
                false
            },
            None => false,
        }
    }
}

impl<Q> Automaton<MinEvenParityCondition, Q, Int, true> {
    /// Color `c` is the least color that the run on `word` sees infinitely
    /// often.
    pub open spec fn least_seen(&self, word: &ReducedOmegaWord, c: Int) -> bool {
        &&& self.spec_run(word).seen_infinitely_often(c)
        &&& forall|d: Int| d < c ==> !#[trigger] self.spec_run(word).seen_infinitely_often(d)
    }

    /// The automaton accepts `word`: its run never leaves it, and the least
    /// color that the run sees infinitely often is even.
    pub open spec fn spec_accepts(&self, word: &ReducedOmegaWord) -> bool {
        self.spec_run(word).exists_forever() && exists|c: Int|
            #[trigger] self.least_seen(word, c) && c % 2 == 0
    }

    /// Returns whether the automaton accepts the given infinite word.
    pub fn accepts(&self, word: &ReducedOmegaWord) -> (b: bool)
        requires
            self.wf(),
            word.wf(),
        ensures
            b == self.spec_accepts(word),
    {
        match self.transform(word) {
            Some(colors) => {
                if colors.len() == 0 {
                    proof {
                        if self.spec_accepts(word) {
                            let c = choose|c: Int| #[trigger] self.least_seen(word, c) && c % 2 == 0;
                            assert(colors@.contains(c));
                        }
                    }
                    return false;
                }
                let mut least = colors[0];
                let mut i: usize = 1;
                while i < colors.len()
                    invariant
                        1 <= i <= colors@.len(),
                        colors@.contains(least),
                        forall|j: int| 0 <= j < i ==> least <= colors@[j],
                    decreases colors@.len() - i,
                {
                    if colors[i] < least {
                        least = colors[i];
                    }
                    i += 1;
                }
                proof {
                    assert forall|d: Int| d < least implies !#[trigger] self.spec_run(
                        word,
                    ).seen_infinitely_often(d) by {
                        if colors@.contains(d) {
                            let j = choose|j: int| 0 <= j < colors@.len() && colors@[j] == d;
                        }
                    }
                    assert(self.least_seen(word, least));
                    if self.spec_accepts(word) {
                        let c = choose|c: Int| #[trigger] self.least_seen(word, c) && c % 2 == 0;
                        assert(c == least);
                    }
                }
                least % 2 == 0
            },
            None => false,
        }
    }
}

impl<Q: Copy> Automaton<BuchiCondition, Q, bool, true> {
    /// From state `p`, which can be reached from the initial state, an edge
    /// that is colored `true` leaves on `sym`, and a word leads back from its
    /// target to `p`.
    pub open spec fn accepting_loop_at(&self, p: int, sym: char) -> bool {
        &&& 0 <= p < self.spec_ts().spec_size()
        &&& reachable_from(self.spec_ts(), self.spec_initial(), p)
        &&& match self.spec_ts().spec_edge(p, sym) {
            Some((c, t)) => c && reachable_from(self.spec_ts(), t, p),
            None => false,
        }
    }

    /// Some state that can be reached lies on a loop through an edge that is
    /// colored `true`.
    pub open spec fn has_accepting_loop(&self) -> bool {
        exists|p: int, sym: char| #[trigger] self.accepting_loop_at(p, sym)
    }

    /// Returns whether the automaton accepts no ultimately periodic word: no
    /// state that can be reached from the initial state lies on a loop through
    /// an edge that is colored `true`.
    pub fn is_empty(&self) -> (b: bool)
        requires
            self.wf(),
        ensures
            b == !self.has_accepting_loop(),
            b == !self.accepts_some_word(),
    {
        proof {
            self.lemma_nonempty_iff_accepting_loop();
        }
        let ts = self.ts();
        let n = ts.size();
        let k = ts.num_symbols();
        let states = self.reachable_state_indices();
        let mut i: usize = 0;
        while i < states.len()
            invariant
                self.wf(),
                self.accepts_some_word() <==> self.has_accepting_loop(),
                ts == self.spec_ts(),
                n == ts.spec_size(),
                k == ts.symbols().len(),
                i <= states@.len(),
                forall|q: StateIndex|
                    #[trigger] states@.contains(q) <==> (q < ts.spec_size() && reachable_from(
                        ts,
                        self.spec_initial(),
                        q as int,
                    )),
                forall|j: int, sym: char|
                    0 <= j < i ==> !#[trigger] self.accepting_loop_at(states@[j] as int, sym),
            decreases states@.len() - i,
        {
            let p = states[i];
            assert(states@.contains(p));
            let mut marked: Vec<bool> = Vec::new();
            let mut q: usize = 0;
            while q < n
                invariant
                    q <= n,
                    marked@.len() == q,
                    forall|s: int| 0 <= s < q ==> marked@[s] == (s == p),
                decreases n - q,
            {
                marked.push(q == p);
                q += 1;
            }
            let mut a: usize = 0;
            while a < k
                invariant
                    self.wf(),
                    self.accepts_some_word() <==> self.has_accepting_loop(),
                    ts == self.spec_ts(),
                    n == ts.spec_size(),
                    k == ts.symbols().len(),
                    p < n,
                    reachable_from(ts, self.spec_initial(), p as int),
                    a <= k,
                    marked@.len() == n,
                    forall|s: int| 0 <= s < n ==> marked@[s] == (s == p),
                    forall|b: int|
                        0 <= b < a ==> !#[trigger] self.accepting_loop_at(p as int, ts.symbols()[b]),
                decreases k - a,
            {
                match ts.edge_at(p, a) {
                    Some((c, t)) => {
                        if c {
                            match ts.find_word(t, &marked) {
                                Some(w) => {
                                    proof {
                                        assert(ts.reached(t as int, w@) == Some(p as int));
                                        assert(self.accepting_loop_at(p as int, ts.symbols()[a as int]));
                                    }
                                    return false;
                                },
                                None => {
                                    proof {
                                        if reachable_from(ts, t as int, p as int) {
                                            let w = choose|w: Seq<char>| #[trigger]
                                                ts.reached(t as int, w) == Some(p as int);
                                            assert(!marked@[p as int]);
                                        }
                                    }
                                },
                            }
                        }
                    },
                    None => {},
                }
                a += 1;
            }
            proof {
                assert forall|sym: char| !#[trigger] self.accepting_loop_at(p as int, sym) by {
                    ts.lemma_edge_in_range(p as int, sym);
                    if ts.symbols().contains(sym) {
                        let b = ts.symbols().index_of(sym);
                        assert(!self.accepting_loop_at(p as int, ts.symbols()[b]));
                    }
                }
            }
            i += 1;
        }
        proof {
            if self.has_accepting_loop() {
                let (p, sym) = choose|p: int, sym: char| #[trigger] self.accepting_loop_at(p, sym);
                assert(states@.contains(p as usize));
                let j = choose|j: int| 0 <= j < states@.len() && states@[j] == p as usize;
                assert(!self.accepting_loop_at(states@[j] as int, sym));
            }
        }
        true
    }
}

} // verus!
