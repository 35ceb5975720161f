//! Exploration of the states of the precise automaton that can be reached.
use crate::color::{Int, Void};
use crate::precise::finite::{lemma_distinct_lists_bounded, lists_of_length};
use crate::precise::{PState, PStateView, PreciseDPA};
use crate::ts::DTS;
use vstd::prelude::*;

verus! {

/// What the states in a list hold.
pub open spec fn views(states: Seq<PState>) -> Seq<PStateView> {
    Seq::new(states.len(), |i: int| states[i]@)
}

/// A state written as one list: its class, then the classes and the states of
/// the active progress automata.
pub open spec fn encoded(s: PStateView) -> Seq<usize> {
    seq![s.class] + s.progress_classes + s.progress_states
}

/// States of the same width that are written the same are the same.
proof fn lemma_encoded_injective(s: PStateView, t: PStateView, width: nat)
    requires
        s.progress_classes.len() == width,
        s.progress_states.len() == width,
        t.progress_classes.len() == width,
        t.progress_states.len() == width,
        encoded(s) == encoded(t),
    ensures
        s == t,
{
    let es = encoded(s);
    let et = encoded(t);
    assert(es[0] == s.class);
    assert(et[0] == t.class);
    assert forall|i: int| 0 <= i < width implies s.progress_classes[i] == t.progress_classes[i] by {
        assert(es[1 + i] == s.progress_classes[i]);
        assert(et[1 + i] == t.progress_classes[i]);
    }
    assert forall|i: int| 0 <= i < width implies s.progress_states[i] == t.progress_states[i] by {
        assert(es[1 + width + i] == s.progress_states[i]);
        assert(et[1 + width + i] == t.progress_states[i]);
    }
    assert(s.progress_classes =~= t.progress_classes);
    assert(s.progress_states =~= t.progress_states);
}

/// A list of different states of the same width is at most as long as there
/// are lists of machine numbers that write such states.
proof fn lemma_distinct_states_bounded(states: Seq<PStateView>, width: nat)
    requires
        states.no_duplicates(),
        forall|i: int|
            0 <= i < states.len() ==> (#[trigger] states[i]).progress_classes.len() == width
                && states[i].progress_states.len() == width,
    ensures
        states.len() <= lists_of_length(2 * width + 1).len(),
{
    let lists = Seq::new(states.len(), |i: int| encoded(states[i]));
    assert forall|i: int, j: int| 0 <= i < lists.len() && 0 <= j < lists.len() && i != j implies lists[i]
        != lists[j] by {
        if lists[i] == lists[j] {
            lemma_encoded_injective(states[i], states[j], width);
        }
    }
    lemma_distinct_lists_bounded(lists, 2 * width + 1);
}

impl PreciseDPA {
    /// In `ts`, the edge that leaves state `i` on `sym` has the color of the
    /// edge that leaves the `i`-th of `states` on `sym`, and leads to the
    /// position of the target of that edge.
    pub open spec fn edge_recorded(
        &self,
        states: Seq<PStateView>,
        ts: &DTS<Void, Int>,
        i: int,
        sym: char,
    ) -> bool {
        match ts.spec_edge(i, sym) {
            Some((c, j)) => c == self.step_color(states[i], sym) && 0 <= j < states.len()
                && states[j] == self.step_target(states[i], sym),
            None => false,
        }
    }

    /// The state at position `j` was found as the target of an edge that
    /// leaves a state at an earlier position.
    pub open spec fn found_from_earlier(&self, states: Seq<PStateView>, j: int) -> bool {
        exists|i: int, a: int|
            0 <= i < j && 0 <= a < self.symbols().len() && states[j] == #[trigger] self.step_target(
                states[i],
                self.symbols()[a],
            )
    }

    /// The list `states` and the system `ts` record an exploration from the
    /// initial state: the list starts with the initial state, holds no state
    /// twice, and holds with every state the targets of its edges; `ts` has
    /// one state for every position of the list and the edges of the states
    /// listed.
    pub open spec fn is_exploration(&self, states: Seq<PStateView>, ts: &DTS<Void, Int>) -> bool {
        &&& ts.wf()
        &&& ts.symbols() == self.symbols()
        &&& ts.spec_size() == states.len()
        &&& states.len() > 0
        &&& states[0] == self.spec_initial()
        &&& states.no_duplicates()
        &&& forall|i: int| 0 <= i < states.len() ==> self.valid_state(#[trigger] states[i])
        &&& forall|i: int, a: int|
            0 <= i < states.len() && 0 <= a < self.symbols().len() ==> #[trigger] self.edge_recorded(
                states,
                ts,
                i,
                self.symbols()[a],
            )
        &&& forall|j: int| 0 < j < states.len() ==> #[trigger] self.found_from_earlier(states, j)
    }
}

/// The position of `state` in `states`.
fn position(states: &Vec<PState>, state: &PState) -> (found: Option<usize>)
    ensures
        match found {
            Some(j) => j < states@.len() && views(states@)[j as int] == state@,
            None => forall|j: int| 0 <= j < states@.len() ==> views(states@)[j] != state@,
        },
{
    let mut j: usize = 0;
    while j < states.len()
        invariant
            j <= states@.len(),
            forall|i: int| 0 <= i < j ==> views(states@)[i] != state@,
        decreases states@.len() - j,
    {
        if states[j].equals(state) {
            return Some(j);
        }
        j += 1;
    }
    None
}

impl PreciseDPA {
    /// Explores the states that can be reached from the initial state. Returns
    /// them in the order in which they are found, together with a transition
    /// system that has one state for each of them, numbered in that order, and
    /// their edges, colored with their priorities.
    pub fn explore(&self) -> (r: (Vec<PState>, DTS<Void, Int>))
        requires
            self.wf(),
        ensures
            self.is_exploration(views(r.0@), &r.1),
    {
        let k = self.cong().ts().num_symbols();
        let alphabet = self.cong().ts().alphabet().clone();
        let mut ts: DTS<Void, Int> = DTS::for_alphabet(alphabet);
        let mut states: Vec<PState> = Vec::new();
        states.push(self.initial());
        ts.add_state(Void);
        let ghost bound = lists_of_length(2 * self.spec_width() + 1).len() as int;
        let mut i: usize = 0;
        proof {
            assert(views(states@) =~= seq![self.spec_initial()]);
            lemma_distinct_states_bounded(views(states@), self.spec_width());
        }
        while i < states.len()
            invariant
                self.wf(),
                k == self.symbols().len(),
                bound == lists_of_length(2 * self.spec_width() + 1).len(),
                ts.wf(),
                ts.symbols() == self.symbols(),
                ts.spec_size() == states@.len(),
                states@.len() > 0,
                states@.len() <= bound,
                i <= states@.len(),
                views(states@)[0] == self.spec_initial(),
                views(states@).no_duplicates(),
                forall|j: int|
                    0 <= j < states@.len() ==> self.valid_state(#[trigger] views(states@)[j]),
                forall|j: int, a: int|
                    0 <= j < i && 0 <= a < k ==> #[trigger] self.edge_recorded(
                        views(states@),
                        &ts,
                        j,
                        self.symbols()[a],
                    ),
                forall|j: int, sym: char| i <= j ==> (#[trigger] ts.spec_edge(j, sym)).is_none(),
                forall|j: int|
                    0 < j < states@.len() ==> #[trigger] self.found_from_earlier(views(states@), j),
            decreases 2 * bound - states@.len() - i,
        {
            let mut a: usize = 0;
            let ghost len0 = states@.len();
            while a < k
                invariant
                    self.wf(),
                    k == self.symbols().len(),
                    bound == lists_of_length(2 * self.spec_width() + 1).len(),
                    states@.len() >= len0,
                    ts.wf(),
                    ts.symbols() == self.symbols(),
                    ts.spec_size() == states@.len(),
                    states@.len() > 0,
                    states@.len() <= bound,
                    i < states@.len(),
                    a <= k,
                    views(states@)[0] == self.spec_initial(),
                    views(states@).no_duplicates(),
                    forall|j: int|
                        0 <= j < states@.len() ==> self.valid_state(#[trigger] views(states@)[j]),
                    forall|j: int, b: int|
                        0 <= j < i && 0 <= b < k ==> #[trigger] self.edge_recorded(
                            views(states@),
                            &ts,
                            j,
                            self.symbols()[b],
                        ),
                    forall|b: int|
                        0 <= b < a ==> #[trigger] self.edge_recorded(
                            views(states@),
                            &ts,
                            i as int,
                            self.symbols()[b],
                        ),
                    forall|b: int|
                        a <= b < k ==> (#[trigger] ts.spec_edge(i as int, self.symbols()[b])).is_none(),
                    forall|j: int, sym: char| i < j ==> (#[trigger] ts.spec_edge(j, sym)).is_none(),
                    forall|j: int|
                        0 < j < states@.len() ==> #[trigger] self.found_from_earlier(
                            views(states@),
                            j,
                        ),
                decreases k - a,
            {
                let sym = self.cong().ts().symbol(a);
                let ghost before = views(states@);
                let ghost ts0 = ts;
                assert(self.valid_state(views(states@)[i as int]));
                assert(views(states@)[i as int] == states@[i as int]@);
                proof {
                    ts.lemma_edge_in_range(i as int, sym);
                    assert(self.symbols()[a as int] == sym);
                    assert(self.symbols().contains(sym));
                }
                let (c, t) = self.take_precise_transition(&states[i], sym);
                let ghost target = t@;
                let j = match position(&states, &t) {
                    Some(j) => j,
                    None => {
                        states.push(t);
                        ts.add_state(Void);
                        proof {
                            let after = views(states@);
                            assert(after =~= before.push(target));
                            lemma_distinct_states_bounded(after, self.spec_width());
                            assert(after[i as int] == before[i as int]);
                            assert(after[after.len() - 1] == self.step_target(
                                after[i as int],
                                self.symbols()[a as int],
                            ));
                            assert(self.found_from_earlier(after, after.len() - 1));
                            assert forall|j: int| 0 < j < after.len() implies #[trigger] self.found_from_earlier(
                                after,
                                j,
                            ) by {
                                if j < before.len() {
                                    assert(self.found_from_earlier(before, j));
                                    let (i0, a0) = choose|i0: int, a0: int|
                                        0 <= i0 < j && 0 <= a0 < self.symbols().len() && before[j]
                                            == #[trigger] self.step_target(
                                            before[i0],
                                            self.symbols()[a0],
                                        );
                                    assert(after[j] == self.step_target(
                                        after[i0],
                                        self.symbols()[a0],
                                    ));
                                }
                            }
                            assert forall|j: int, b: int|
                                0 <= j < i && 0 <= b < k implies #[trigger] self.edge_recorded(
                                after,
                                &ts,
                                j,
                                self.symbols()[b],
                            ) by {
                                assert(self.edge_recorded(before, &ts0, j, self.symbols()[b]));
                            }
                            assert forall|b: int| 0 <= b < a implies #[trigger] self.edge_recorded(
                                after,
                                &ts,
                                i as int,
                                self.symbols()[b],
                            ) by {
                                assert(self.edge_recorded(before, &ts0, i as int, self.symbols()[b]));
                            }
                        }
                        states.len() - 1
                    },
                };
                let ghost mid = views(states@);
                let ghost ts1 = ts;
                let overlap = ts.add_edge(i, sym, c, j);
                proof {
                    assert(overlap.is_none());
                    assert(self.edge_recorded(mid, &ts, i as int, sym));
                    assert forall|b: int| 0 <= b < k && b != a implies self.symbols()[b] != sym by {
                        if b < a {
                            assert((self.symbols()[b] as int) < (self.symbols()[a as int] as int));
                        } else {
                            assert((self.symbols()[a as int] as int) < (self.symbols()[b] as int));
                        }
                    }
                    assert forall|j: int, b: int|
                        0 <= j < i && 0 <= b < k implies #[trigger] self.edge_recorded(
                        mid,
                        &ts,
                        j,
                        self.symbols()[b],
                    ) by {
                        assert(self.edge_recorded(mid, &ts1, j, self.symbols()[b]));
                    }
                    assert forall|b: int| 0 <= b < a + 1 implies #[trigger] self.edge_recorded(
                        mid,
                        &ts,
                        i as int,
                        self.symbols()[b],
                    ) by {
                        if b < a {
                            assert(self.edge_recorded(mid, &ts1, i as int, self.symbols()[b]));
                        }
                    }
                }
                a += 1;
            }
            i += 1;
        }
        (states, ts)
    }
}

} // verus!
