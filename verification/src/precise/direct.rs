//! The colors of the precise automaton, defined directly on the word that is
//! read, and the proof that the automaton computes them.
use crate::precise::{first_true_from, ClassId, PreciseDPA};
use vstd::prelude::*;

verus! {

impl PreciseDPA {
    /// The class that the leading congruence reaches on `w`.
    pub open spec fn leading_class(&self, w: Seq<char>) -> ClassId {
        self.spec_cong().spec_ts().reached(self.spec_cong().spec_initial(), w).unwrap() as usize
    }

    /// The position in `w` since which `level` follows its progress automaton,
    /// seen after `j` symbols: the end of the last edge among the first `j`
    /// whose color is at most `level`, or the start of the word.
    pub open spec fn since(&self, w: Seq<char>, level: int, j: int) -> int
        decreases j, 0int, 0int,
    {
        if j <= 0 {
            0
        } else if self.least_level(w, j - 1, 0) <= level {
            j
        } else {
            self.since(w, level, j - 1)
        }
    }

    /// Whether `level` accepts on the symbol at position `j`: the progress
    /// automaton at `level` of the class that the leading congruence had
    /// reached when `level` last started anew accepts what has been read since
    /// then, the symbol at `j` included.
    pub open spec fn level_accepts(&self, w: Seq<char>, level: int, j: int) -> bool
        decreases j, 1int, 0int,
    {
        let r = self.since(w, level, j);
        self.spec_dfa(self.leading_class(w.take(r)) as int, level).spec_accepts(w.subrange(r, j + 1))
    }

    /// The least level from `from` on that accepts on the symbol at position
    /// `j`, or the number of levels if there is none.
    pub open spec fn least_level(&self, w: Seq<char>, j: int, from: int) -> int
        decreases j, 2int, self.spec_width() - from,
    {
        if from < 0 || from >= self.spec_width() {
            self.spec_width() as int
        } else if self.level_accepts(w, from, j) {
            from
        } else {
            self.least_level(w, j, from + 1)
        }
    }

    /// The color of the symbol at position `j` of `w`, defined directly: the
    /// least level that accepts on it.
    pub open spec fn direct_color(&self, w: Seq<char>, j: int) -> int {
        self.least_level(w, j, 0)
    }

    /// Where the flags say which levels accept, the first flag that is set is
    /// the least level that accepts.
    proof fn lemma_least_level_is_first_true(&self, w: Seq<char>, j: int, flags: Seq<bool>, from: int)
        requires
            flags.len() == self.spec_width(),
            forall|i: int| 0 <= i < self.spec_width() ==> flags[i] == self.level_accepts(w, i, j),
            0 <= from <= self.spec_width(),
        ensures
            self.least_level(w, j, from) == first_true_from(flags, from),
        decreases self.spec_width() - from,
    {
        if from < self.spec_width() && !flags[from] {
            self.lemma_least_level_is_first_true(w, j, flags, from + 1);
        }
    }

    /// The leading congruence reaches a class on every word over the alphabet.
    proof fn lemma_leading_class(&self, w: Seq<char>)
        requires
            self.wf(),
            self.valid_word(w),
        ensures
            self.spec_cong().spec_ts().reached(self.spec_cong().spec_initial(), w) == Some(
                self.leading_class(w) as int,
            ),
            self.leading_class(w) < self.num_classes(),
        decreases w.len(),
    {
        let ts = self.spec_cong().spec_ts();
        let e = self.spec_cong().spec_initial();
        ts.lemma_size_fits();
        if w.len() > 0 {
            let v = w.drop_last();
            let sym = w.last();
            assert(v.push(sym) =~= w);
            assert forall|i: int| 0 <= i < v.len() implies self.symbols().contains(#[trigger] v[i]) by {
                assert(v[i] == w[i]);
            }
            self.lemma_leading_class(v);
            ts.lemma_reached_push(e, v, sym);
            let c = self.leading_class(v) as int;
            assert(self.symbols().contains(w[w.len() - 1]));
            let a = self.symbols().index_of(sym);
            assert(ts.spec_edge(c, ts.symbols()[a]).is_some());
            ts.lemma_edge_in_range(c, sym);
        }
    }

    /// After `j` symbols of `w` the precise automaton is in the class that the
    /// leading congruence has reached; at every level it holds the class that
    /// the leading congruence had reached when the level last started anew and
    /// the state that the progress automaton of that class has reached since.
    /// The color of every edge it took is the color defined directly.
    pub proof fn lemma_tracking(&self, w: Seq<char>, j: int)
        requires
            self.wf(),
            self.valid_word(w),
            0 <= j <= w.len(),
        ensures
            self.valid_state(self.state_after(w.take(j))),
            self.state_after(w.take(j)).class == self.leading_class(w.take(j)),
            forall|i: int|
                0 <= i < self.spec_width() ==> 0 <= #[trigger] self.since(w, i, j) <= j,
            forall|i: int|
                0 <= i < self.spec_width() ==> #[trigger] self.state_after(
                    w.take(j),
                ).progress_classes[i] == self.leading_class(w.take(self.since(w, i, j))),
            forall|i: int|
                0 <= i < self.spec_width() ==> Some(
                    #[trigger] self.state_after(w.take(j)).progress_states[i] as int,
                ) == self.spec_dfa(
                    self.leading_class(w.take(self.since(w, i, j))) as int,
                    i,
                ).spec_ts().reached(
                    self.spec_dfa(
                        self.leading_class(w.take(self.since(w, i, j))) as int,
                        i,
                    ).spec_initial(),
                    w.subrange(self.since(w, i, j), j),
                ),
            j > 0 ==> self.color_at(w, j - 1) == self.direct_color(w, j - 1),
        decreases j,
    {
        let width = self.spec_width() as int;
        self.lemma_sizes_fit();
        if j == 0 {
            assert(w.take(0) =~= Seq::<char>::empty());
            self.lemma_initial_valid();
            let s = self.spec_initial();
            assert(self.state_after(w.take(0)) == s);
            self.lemma_leading_class(w.take(0));
            assert forall|i: int| 0 <= i < width implies Some(
                #[trigger] s.progress_states[i] as int,
            ) == self.spec_dfa(
                self.leading_class(w.take(self.since(w, i, 0))) as int,
                i,
            ).spec_ts().reached(
                self.spec_dfa(
                    self.leading_class(w.take(self.since(w, i, 0))) as int,
                    i,
                ).spec_initial(),
                w.subrange(self.since(w, i, 0), 0),
            ) by {
                assert(self.dfa_fits(s.class as int, i));
                assert(w.subrange(0, 0) =~= Seq::<char>::empty());
            }
        } else {
            self.lemma_tracking(w, j - 1);
            let v = w.take(j - 1);
            let sym = w[j - 1];
            let full = w.take(j);
            assert(full =~= v.push(sym));
            assert(self.symbols().contains(w[j - 1]));
            let s0 = self.state_after(v);
            let s = self.state_after(full);
            self.lemma_run_push(self.spec_initial(), v, sym);
            assert(s == self.step_target(s0, sym));
            self.lemma_step_total(s0, sym);
            self.lemma_next_class_in_range(s0, sym);
            assert forall|i: int| 0 <= i < full.len() implies self.symbols().contains(
                #[trigger] full[i],
            ) by {
                assert(full[i] == w[i]);
            }
            assert forall|i: int| 0 <= i < v.len() implies self.symbols().contains(#[trigger] v[i]) by {
                assert(v[i] == w[i]);
            }
            self.lemma_leading_class(v);
            self.lemma_leading_class(full);
            self.spec_cong().spec_ts().lemma_reached_push(self.spec_cong().spec_initial(), v, sym);
            assert(s.class == self.leading_class(full));
            let flags = self.accepting_levels(s0, sym);
            assert forall|i: int| 0 <= i < width implies flags[i] == self.level_accepts(w, i, j - 1) by {
                let r = self.since(w, i, j - 1);
                let c = s0.progress_classes[i] as int;
                assert(c == self.leading_class(w.take(r)));
                let dfa = self.spec_dfa(c, i);
                assert(self.dfa_fits(c, i));
                self.lemma_advanced_in_range(s0, sym, i);
                dfa.spec_ts().lemma_reached_push(dfa.spec_initial(), w.subrange(r, j - 1), sym);
                assert(w.subrange(r, j - 1).push(sym) =~= w.subrange(r, j));
                assert(Some(s0.progress_states[i] as int) == dfa.spec_ts().reached(
                    dfa.spec_initial(),
                    w.subrange(r, j - 1),
                ));
            }
            self.lemma_least_level_is_first_true(w, j - 1, flags, 0);
            let k = self.step_color(s0, sym);
            assert(k == self.direct_color(w, j - 1));
            assert(self.color_at(w, j - 1) == k);
            assert forall|i: int| 0 <= i < width implies 0 <= #[trigger] self.since(w, i, j) <= j by {
                assert(0 <= self.since(w, i, j - 1) <= j - 1);
            }
            assert forall|i: int| 0 <= i < width implies #[trigger] s.progress_classes[i]
                == self.leading_class(w.take(self.since(w, i, j))) by {
                assert(0 <= self.since(w, i, j - 1) <= j - 1);
                if i < k {
                    assert(self.since(w, i, j) == self.since(w, i, j - 1));
                    assert(s.progress_classes[i] == s0.progress_classes[i]);
                } else {
                    assert(self.since(w, i, j) == j);
                }
            }
            assert forall|i: int| 0 <= i < width implies Some(#[trigger] s.progress_states[i] as int)
                == self.spec_dfa(
                self.leading_class(w.take(self.since(w, i, j))) as int,
                i,
            ).spec_ts().reached(
                self.spec_dfa(
                    self.leading_class(w.take(self.since(w, i, j))) as int,
                    i,
                ).spec_initial(),
                w.subrange(self.since(w, i, j), j),
            ) by {
                assert(0 <= self.since(w, i, j - 1) <= j - 1);
                if i < k {
                    let r = self.since(w, i, j - 1);
                    assert(self.since(w, i, j) == r);
                    let c = s0.progress_classes[i] as int;
                    assert(c == self.leading_class(w.take(r)));
                    let dfa = self.spec_dfa(c, i);
                    assert(self.dfa_fits(c, i));
                    self.lemma_advanced_in_range(s0, sym, i);
                    dfa.spec_ts().lemma_reached_push(dfa.spec_initial(), w.subrange(r, j - 1), sym);
                    assert(w.subrange(r, j - 1).push(sym) =~= w.subrange(r, j));
                    assert(Some(s0.progress_states[i] as int) == dfa.spec_ts().reached(
                        dfa.spec_initial(),
                        w.subrange(r, j - 1),
                    ));
                    assert(s.progress_states[i] == self.advanced(s0, sym, i));
                } else {
                    assert(self.since(w, i, j) == j);
                    let d = s.class as int;
                    assert(self.dfa_fits(d, i));
                    assert(w.subrange(j, j) =~= Seq::<char>::empty());
                    assert(s.progress_states[i] == self.spec_dfa(d, i).spec_initial() as usize);
                }
            }
        }
    }

    /// The precise automaton computes the colors that are defined directly:
    /// on every word over the alphabet, the color of the edge that it takes on
    /// the symbol at any position is the least level whose progress automaton,
    /// started when the level last started anew, accepts what has been read
    /// since.
    pub proof fn lemma_colors_are_direct(&self, w: Seq<char>, j: int)
        requires
            self.wf(),
            self.valid_word(w),
            0 <= j < w.len(),
        ensures
            self.color_at(w, j) == self.direct_color(w, j),
            0 <= self.color_at(w, j) < self.spec_width(),
    {
        self.lemma_tracking(w, j + 1);
        self.lemma_tracking(w, j);
        assert(self.symbols().contains(w[j]));
        self.lemma_step_total(self.state_after(w.take(j)), w[j]);
    }
}

} // verus!
