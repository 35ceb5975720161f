//! The precise deterministic parity automaton of a family of weak priority
//! mappings: a leading congruence together with, for every class, an ordered
//! family of progress automata.
use crate::automaton::reachability::DFA;
use crate::automaton::RightCongruence;
use crate::color::Int;
use crate::error::ConstructionError;
use crate::ts::StateIndex;
use vstd::prelude::*;

pub mod construct;
pub mod direct;
pub mod explore;
pub mod finite;
pub mod run;

verus! {

/// The largest number of progress automata per class, and so of priorities.
pub const MAX_PRIORITIES: usize = 8;

/// The index of a class of the leading congruence.
pub type ClassId = StateIndex;

/// The index of a state of a progress automaton.
pub type StateId = StateIndex;

/// A state of the precise automaton. It keeps track of the class in the
/// leading congruence and, for each priority level, of the class whose progress
/// automaton is active at that level and of the state of that automaton.
/// Two states are the same if they hold the same values.
#[derive(Debug, PartialEq, Eq, PartialOrd, Ord, Hash)]
pub struct PState {
    class: ClassId,
    progress_classes: Vec<ClassId>,
    progress_states: Vec<StateId>,
}

/// What a state of the precise automaton holds.
pub struct PStateView {
    pub class: ClassId,
    pub progress_classes: Seq<ClassId>,
    pub progress_states: Seq<StateId>,
}

impl View for PState {
    type V = PStateView;

    closed spec fn view(&self) -> PStateView {
        PStateView {
            class: self.class,
            progress_classes: self.progress_classes@,
            progress_states: self.progress_states@,
        }
    }
}

/// Copies a list of indices.
fn copy_indices(list: &[usize]) -> (copy: Vec<usize>)
    ensures
        copy@ == list@,
{
    let mut copy: Vec<usize> = Vec::new();
    let mut i: usize = 0;
    while i < list.len()
        invariant
            i <= list@.len(),
            copy@ == list@.take(i as int),
        decreases list@.len() - i,
    {
        copy.push(list[i]);
        assert(list@.take(i + 1) == list@.take(i as int).push(list@[i as int]));
        i += 1;
    }
    assert(list@.take(list@.len() as int) == list@);
    copy
}

/// Whether two lists of indices hold the same.
fn same_indices(left: &Vec<usize>, right: &Vec<usize>) -> (same: bool)
    ensures
        same == (left@ == right@),
{
    if left.len() != right.len() {
        return false;
    }
    let mut i: usize = 0;
    while i < left.len()
        invariant
            left@.len() == right@.len(),
            i <= left@.len(),
            forall|j: int| 0 <= j < i ==> left@[j] == right@[j],
        decreases left@.len() - i,
    {
        if left[i] != right[i] {
            return false;
        }
        i += 1;
    }
    assert(left@ =~= right@);
    true
}

impl Clone for PState {
    fn clone(&self) -> (copy: Self)
        ensures
            copy@ == self@,
    {
        PState {
            class: self.class,
            progress_classes: copy_indices(self.progress_classes.as_slice()),
            progress_states: copy_indices(self.progress_states.as_slice()),
        }
    }
}

impl PState {
    /// Returns the index of the class in the leading congruence.
    pub fn class(&self) -> (class: ClassId)
        ensures
            class == self@.class,
    {
        self.class
    }

    /// Returns the classes of the currently active progress automata, one for
    /// each level.
    pub fn progress_classes(&self) -> (classes: Vec<ClassId>)
        ensures
            classes@ == self@.progress_classes,
    {
        copy_indices(self.progress_classes.as_slice())
    }

    /// Returns the states of the currently active progress automata, one for
    /// each level.
    pub fn progress_states(&self) -> (states: Vec<StateId>)
        ensures
            states@ == self@.progress_states,
    {
        copy_indices(self.progress_states.as_slice())
    }

    /// The number of levels that the state tracks.
    pub fn width(&self) -> (n: usize)
        ensures
            n == self@.progress_classes.len(),
    {
        self.progress_classes.len()
    }

    /// Creates a state from the index of the class in the leading congruence,
    /// the classes and the states of the currently active progress automata.
    pub fn from_iters(leading: ClassId, pc: Vec<ClassId>, pq: Vec<StateId>) -> (state: Self)
        ensures
            state@ == (PStateView { class: leading, progress_classes: pc@, progress_states: pq@ }),
    {
        PState { class: leading, progress_classes: pc, progress_states: pq }
    }

    /// Creates a state from the index of the class in the leading congruence
    /// and slices of the classes and states of the currently active progress
    /// automata.
    pub fn new(leading: ClassId, pc: &[ClassId], pq: &[StateId]) -> (state: Self)
        ensures
            state@ == (PStateView { class: leading, progress_classes: pc@, progress_states: pq@ }),
    {
        PState {
            class: leading,
            progress_classes: copy_indices(pc),
            progress_states: copy_indices(pq),
        }
    }

    /// Whether both states hold the same values.
    pub fn equals(&self, other: &Self) -> (same: bool)
        ensures
            same == (self@ == other@),
    {
        let same = self.class == other.class && same_indices(
            &self.progress_classes,
            &other.progress_classes,
        ) && same_indices(&self.progress_states, &other.progress_states);
        proof {
            if same {
                assert(self@.progress_classes == other@.progress_classes);
            }
        }
        same
    }
}

/// The least position from `from` on at which `flags` holds `true`, or the
/// length of `flags` if there is none.
pub open spec fn first_true_from(flags: Seq<bool>, from: int) -> int
    decreases flags.len() - from,
{
    if from < 0 || from >= flags.len() {
        flags.len() as int
    } else if flags[from] {
        from
    } else {
        first_true_from(flags, from + 1)
    }
}

/// The least position at which `flags` holds `true`.
pub open spec fn first_true(flags: Seq<bool>) -> int {
    first_true_from(flags, 0)
}

/// `first_true_from` finds the least position that holds `true`.
pub proof fn lemma_first_true_from(flags: Seq<bool>, from: int)
    requires
        0 <= from <= flags.len(),
    ensures
        from <= first_true_from(flags, from) <= flags.len(),
        first_true_from(flags, from) < flags.len() ==> flags[first_true_from(flags, from)],
        forall|j: int| from <= j < first_true_from(flags, from) ==> !flags[j],
    decreases flags.len() - from,
{
    if from < flags.len() && !flags[from] {
        lemma_first_true_from(flags, from + 1);
    }
}

/// The precise automaton is a construction that turns a leading congruence and,
/// for every class, a family of progress automata into a deterministic parity
/// automaton. Its states are explored on demand; its edges are computed by
/// [`PreciseDPA::take_precise_transition`].
#[derive(Debug)]
pub struct PreciseDPA {
    cong: RightCongruence,
    dfas: Vec<Vec<DFA>>,
    width: usize,
}

impl PreciseDPA {
    /// The leading congruence.
    pub closed spec fn spec_cong(&self) -> &RightCongruence {
        &self.cong
    }

    /// The number of priority levels: the number of progress automata of every
    /// class.
    pub closed spec fn spec_width(&self) -> nat {
        self.width as nat
    }

    /// The progress automaton of class `class` at level `level`.
    pub closed spec fn spec_dfa(&self, class: int, level: int) -> &DFA {
        &self.dfas@[class]@[level]
    }

    /// There is one family for each class, of as many automata as there are
    /// levels.
    pub closed spec fn shaped(&self) -> bool {
        &&& self.dfas@.len() == self.cong.spec_ts().spec_size()
        &&& forall|c: int| 0 <= c < self.dfas@.len() ==> (#[trigger] self.dfas@[c])@.len() == self.width
    }

    /// The number of classes of the leading congruence.
    pub open spec fn num_classes(&self) -> nat {
        self.spec_cong().spec_ts().spec_size()
    }

    /// The symbols of the alphabet.
    pub open spec fn symbols(&self) -> Seq<char> {
        self.spec_cong().spec_ts().symbols()
    }

    /// The progress automaton of `class` at `level` is complete and reads the
    /// alphabet of the leading congruence.
    pub open spec fn dfa_fits(&self, class: int, level: int) -> bool {
        &&& self.spec_dfa(class, level).wf()
        &&& self.spec_dfa(class, level).spec_ts().complete()
        &&& self.spec_dfa(class, level).spec_ts().symbols() == self.symbols()
    }

    /// The leading congruence is complete; there are between one and eight
    /// levels; every progress automaton is complete and reads the alphabet of
    /// the leading congruence; and the automaton at the last level of every
    /// class accepts in every state.
    pub open spec fn wf(&self) -> bool {
        &&& self.spec_cong().wf()
        &&& self.spec_cong().spec_ts().complete()
        &&& 1 <= self.spec_width() <= MAX_PRIORITIES
        &&& self.shaped()
        &&& forall|c: int, i: int|
            0 <= c < self.num_classes() && 0 <= i < self.spec_width() ==> #[trigger] self.dfa_fits(c, i)
        &&& forall|c: int|
            0 <= c < self.num_classes() ==> (#[trigger] self.spec_dfa(
                c,
                self.spec_width() - 1,
            )).accepts_everywhere()
    }

    /// The state `s` names a class, and at every level a class and a state of
    /// the progress automaton of that class.
    pub open spec fn valid_state(&self, s: PStateView) -> bool {
        &&& s.class < self.num_classes()
        &&& s.progress_classes.len() == self.spec_width()
        &&& s.progress_states.len() == self.spec_width()
        &&& forall|i: int|
            0 <= i < self.spec_width() ==> #[trigger] s.progress_classes[i] < self.num_classes()
        &&& forall|i: int|
            0 <= i < self.spec_width() ==> #[trigger] s.progress_states[i] < self.spec_dfa(
                s.progress_classes[i] as int,
                i,
            ).spec_ts().spec_size()
    }

    /// The class that the leading congruence reaches from the class of `s` on
    /// `sym`.
    pub open spec fn next_class(&self, s: PStateView, sym: char) -> ClassId {
        self.spec_cong().spec_ts().spec_successor(s.class as int, sym).unwrap() as usize
    }

    /// The state that the progress automaton active at `level` reaches on `sym`.
    pub open spec fn advanced(&self, s: PStateView, sym: char, level: int) -> StateId {
        self.spec_dfa(s.progress_classes[level] as int, level).spec_ts().spec_successor(
            s.progress_states[level] as int,
            sym,
        ).unwrap() as usize
    }

    /// For every level, whether the progress automaton active at that level
    /// accepts after reading `sym`.
    pub open spec fn accepting_levels(&self, s: PStateView, sym: char) -> Seq<bool> {
        Seq::new(
            self.spec_width(),
            |i: int|
                self.spec_dfa(s.progress_classes[i] as int, i).spec_is_accepting(
                    self.advanced(s, sym, i) as int,
                ),
        )
    }

    /// The color of the edge that leaves `s` on `sym`: the least level whose
    /// progress automaton accepts after reading `sym`.
    pub open spec fn step_color(&self, s: PStateView, sym: char) -> int {
        first_true(self.accepting_levels(s, sym))
    }

    /// The target of the edge that leaves `s` on `sym`. The levels below the
    /// color go on with their automata; the color and the levels above it start
    /// anew in the class that the leading congruence reaches.
    pub open spec fn step_target(&self, s: PStateView, sym: char) -> PStateView {
        let d = self.next_class(s, sym);
        let k = self.step_color(s, sym);
        PStateView {
            class: d,
            progress_classes: Seq::new(
                self.spec_width(),
                |i: int|
                    if i < k {
                        s.progress_classes[i]
                    } else {
                        d
                    },
            ),
            progress_states: Seq::new(
                self.spec_width(),
                |i: int|
                    if i < k {
                        self.advanced(s, sym, i)
                    } else {
                        self.spec_dfa(d as int, i).spec_initial() as usize
                    },
            ),
        }
    }

    /// The state in which the precise automaton starts: at every level the
    /// progress automaton of the initial class of the leading congruence is
    /// active, in its initial state.
    pub open spec fn spec_initial(&self) -> PStateView {
        let e = self.spec_cong().spec_initial() as usize;
        PStateView {
            class: e,
            progress_classes: Seq::new(self.spec_width(), |i: int| e),
            progress_states: Seq::new(
                self.spec_width(),
                |i: int| self.spec_dfa(e as int, i).spec_initial() as usize,
            ),
        }
    }

    /// From a valid state an edge leaves on every symbol: some level accepts,
    /// so the color is a level, and the target is a valid state again.
    pub proof fn lemma_step_total(&self, s: PStateView, sym: char)
        requires
            self.wf(),
            self.valid_state(s),
            self.symbols().contains(sym),
        ensures
            0 <= self.step_color(s, sym) < self.spec_width(),
            self.accepting_levels(s, sym)[self.step_color(s, sym)],
            forall|j: int| 0 <= j < self.step_color(s, sym) ==> !self.accepting_levels(s, sym)[j],
            self.valid_state(self.step_target(s, sym)),
    {
        let flags = self.accepting_levels(s, sym);
        let last = self.spec_width() - 1;
        lemma_first_true_from(flags, 0);
        self.lemma_advanced_in_range(s, sym, last);
        let top = self.spec_dfa(s.progress_classes[last] as int, last);
        assert(top.accepts_everywhere());
        assert(top.spec_is_accepting(self.advanced(s, sym, last) as int));
        assert(flags[last]);
        let k = self.step_color(s, sym);
        let t = self.step_target(s, sym);
        self.lemma_next_class_in_range(s, sym);
        assert forall|i: int| 0 <= i < self.spec_width() implies #[trigger] t.progress_states[i]
            < self.spec_dfa(t.progress_classes[i] as int, i).spec_ts().spec_size() by {
            if i < k {
                self.lemma_advanced_in_range(s, sym, i);
            } else {
                assert(self.dfa_fits(t.class as int, i));
            }
        }
    }

    /// The leading congruence leads from a class to a class.
    pub proof fn lemma_next_class_in_range(&self, s: PStateView, sym: char)
        requires
            self.wf(),
            self.valid_state(s),
            self.symbols().contains(sym),
        ensures
            self.spec_cong().spec_ts().spec_successor(s.class as int, sym) == Some(
                self.next_class(s, sym) as int,
            ),
            self.next_class(s, sym) < self.num_classes(),
    {
        let ts = self.spec_cong().spec_ts();
        let a = self.symbols().index_of(sym);
        assert(ts.spec_edge(s.class as int, ts.symbols()[a]).is_some());
        ts.lemma_edge_in_range(s.class as int, sym);
        assert(self.num_classes() == self.num_classes() as usize) by {
            self.lemma_sizes_fit();
        }
    }

    /// A progress automaton leads from a state to a state.
    pub proof fn lemma_advanced_in_range(&self, s: PStateView, sym: char, level: int)
        requires
            self.wf(),
            self.valid_state(s),
            self.symbols().contains(sym),
            0 <= level < self.spec_width(),
        ensures
            self.spec_dfa(s.progress_classes[level] as int, level).spec_ts().spec_successor(
                s.progress_states[level] as int,
                sym,
            ) == Some(self.advanced(s, sym, level) as int),
            self.advanced(s, sym, level) < self.spec_dfa(
                s.progress_classes[level] as int,
                level,
            ).spec_ts().spec_size(),
    {
        let c = s.progress_classes[level] as int;
        assert(self.dfa_fits(c, level));
        let ts = self.spec_dfa(c, level).spec_ts();
        let a = ts.symbols().index_of(sym);
        assert(ts.spec_edge(s.progress_states[level] as int, ts.symbols()[a]).is_some());
        ts.lemma_edge_in_range(s.progress_states[level] as int, sym);
        self.lemma_sizes_fit();
    }

    /// The numbers of classes and of states are numbers of the machine.
    pub proof fn lemma_sizes_fit(&self)
        requires
            self.wf(),
        ensures
            self.num_classes() <= usize::MAX,
            forall|c: int, i: int|
                0 <= c < self.num_classes() && 0 <= i < self.spec_width() ==> (#[trigger] self.spec_dfa(
                    c,
                    i,
                )).spec_ts().spec_size() <= usize::MAX,
    {
        self.spec_cong().spec_ts().lemma_size_fits();
        assert forall|c: int, i: int|
            0 <= c < self.num_classes() && 0 <= i < self.spec_width() implies (#[trigger] self.spec_dfa(
            c,
            i,
        )).spec_ts().spec_size() <= usize::MAX by {
            self.spec_dfa(c, i).spec_ts().lemma_size_fits();
        }
    }
}

impl PreciseDPA {
    /// Returns a reference to the leading congruence.
    pub fn cong(&self) -> (cong: &RightCongruence)
        ensures
            cong == self.spec_cong(),
    {
        &self.cong
    }

    /// Returns the number of priority levels.
    pub fn width(&self) -> (width: usize)
        ensures
            width == self.spec_width(),
    {
        self.width
    }

    /// Returns the progress automaton of the given class at the given level.
    pub fn dfa(&self, class: ClassId, level: usize) -> (dfa: &DFA)
        requires
            self.wf(),
            class < self.num_classes(),
            level < self.spec_width(),
        ensures
            dfa == self.spec_dfa(class as int, level as int),
    {
        let family = &self.dfas[class];
        assert(family@.len() == self.width);
        &family[level]
    }

    /// Returns the state in which the precise automaton starts.
    pub fn initial(&self) -> (state: PState)
        requires
            self.wf(),
        ensures
            state@ == self.spec_initial(),
            self.valid_state(state@),
    {
        let e = self.cong.initial();
        let mut pc: Vec<ClassId> = Vec::new();
        let mut pq: Vec<StateId> = Vec::new();
        let mut i: usize = 0;
        while i < self.width
            invariant
                self.wf(),
                e == self.spec_cong().spec_initial(),
                i <= self.width,
                pc@.len() == i,
                pq@.len() == i,
                forall|j: int| 0 <= j < i ==> pc@[j] == e,
                forall|j: int|
                    0 <= j < i ==> pq@[j] == self.spec_dfa(e as int, j).spec_initial() && pq@[j]
                        < self.spec_dfa(e as int, j).spec_ts().spec_size(),
            decreases self.width - i,
        {
            assert(self.dfa_fits(e as int, i as int));
            let dfa = self.dfa(e, i);
            pc.push(e);
            pq.push(dfa.initial());
            i += 1;
        }
        let state = PState { class: e, progress_classes: pc, progress_states: pq };
        assert(state@.progress_classes =~= self.spec_initial().progress_classes);
        assert(state@.progress_states =~= self.spec_initial().progress_states);
        state
    }

    /// Given a state and a symbol, returns the index of the least accepting
    /// progress automaton, which is the priority of the edge, and the state
    /// that the edge leads to.
    pub fn take_precise_transition(&self, q: &PState, a: char) -> (r: (Int, PState))
        requires
            self.wf(),
            self.valid_state(q@),
            self.symbols().contains(a),
        ensures
            r.0 == self.step_color(q@, a),
            r.1@ == self.step_target(q@, a),
            r.0 < self.spec_width(),
            self.valid_state(r.1@),
    {
        proof {
            self.lemma_step_total(q@, a);
            self.lemma_next_class_in_range(q@, a);
        }
        let d = match self.cong.ts().successor_index(q.class, a) {
            Some(d) => d,
            None => vstd::pervasive::unreached(),
        };
        let n = self.width;
        let mut reached: Vec<StateId> = Vec::new();
        let mut flags: Vec<bool> = Vec::new();
        let mut i: usize = 0;
        while i < n
            invariant
                self.wf(),
                self.valid_state(q@),
                self.symbols().contains(a),
                n == self.spec_width(),
                i <= n,
                reached@.len() == i,
                flags@.len() == i,
                forall|j: int| 0 <= j < i ==> reached@[j] == self.advanced(q@, a, j),
                forall|j: int| 0 <= j < i ==> flags@[j] == self.accepting_levels(q@, a)[j],
            decreases n - i,
        {
            let c = q.progress_classes[i];
            let s = q.progress_states[i];
            assert(c == q@.progress_classes[i as int]);
            assert(s == q@.progress_states[i as int]);
            assert(self.dfa_fits(c as int, i as int));
            proof {
                self.lemma_advanced_in_range(q@, a, i as int);
            }
            let dfa = self.dfa(c, i);
            let p = match dfa.ts().successor_index(s, a) {
                Some(p) => p,
                None => vstd::pervasive::unreached(),
            };
            let b = dfa.is_accepting(p);
            reached.push(p);
            flags.push(b);
            i += 1;
        }
        assert(flags@ =~= self.accepting_levels(q@, a));
        let mut k: usize = 0;
        while k < n && !flags[k]
            invariant
                n == flags@.len(),
                k <= n,
                first_true_from(flags@, 0) == first_true_from(flags@, k as int),
            decreases n - k,
        {
            k += 1;
        }
        assert(k == self.step_color(q@, a));
        let mut pc: Vec<ClassId> = Vec::new();
        let mut pq: Vec<StateId> = Vec::new();
        let ghost target = self.step_target(q@, a);
        let mut i: usize = 0;
        while i < n
            invariant
                self.wf(),
                self.valid_state(q@),
                n == self.spec_width(),
                i <= n,
                d < self.num_classes(),
                d == self.next_class(q@, a),
                k == self.step_color(q@, a),
                target == self.step_target(q@, a),
                reached@.len() == n,
                forall|j: int| 0 <= j < n ==> reached@[j] == self.advanced(q@, a, j),
                pc@.len() == i,
                pq@.len() == i,
                forall|j: int| 0 <= j < i ==> pc@[j] == target.progress_classes[j],
                forall|j: int| 0 <= j < i ==> pq@[j] == target.progress_states[j],
            decreases n - i,
        {
            if i < k {
                pc.push(q.progress_classes[i]);
                pq.push(reached[i]);
            } else {
                assert(self.dfa_fits(d as int, i as int));
                pc.push(d);
                pq.push(self.dfa(d, i).initial());
            }
            i += 1;
        }
        let next = PState { class: d, progress_classes: pc, progress_states: pq };
        assert(next@.progress_classes =~= target.progress_classes);
        assert(next@.progress_states =~= target.progress_states);
        (k as u8, next)
    }
}

/// The number of progress automata of the first family, which every family is
/// to have.
pub open spec fn family_width(dfas: Seq<Vec<DFA>>) -> nat {
    if dfas.len() == 0 {
        0
    } else {
        dfas[0]@.len()
    }
}

/// There is at least one priority level, and there are at most eight.
pub open spec fn count_ok(dfas: Seq<Vec<DFA>>) -> bool {
    1 <= family_width(dfas) <= MAX_PRIORITIES
}

/// There is one family for every class, and all families have the same number
/// of progress automata.
pub open spec fn shape_ok(cong: &RightCongruence, dfas: Seq<Vec<DFA>>) -> bool {
    &&& dfas.len() == cong.spec_ts().spec_size()
    &&& forall|c: int| 0 <= c < dfas.len() ==> (#[trigger] dfas[c])@.len() == family_width(dfas)
}

/// The automaton `dfa` has its initial state, is complete and reads the
/// alphabet of the leading congruence.
pub open spec fn fits(cong: &RightCongruence, dfa: &DFA) -> bool {
    &&& dfa.wf()
    &&& dfa.spec_ts().complete()
    &&& dfa.spec_ts().symbols() == cong.spec_ts().symbols()
}

/// The progress automaton at `level` of a family of `width` automata can be
/// used: it fits, and it accepts everywhere if it is the last of its family.
pub open spec fn usable(cong: &RightCongruence, dfa: &DFA, level: int, width: int) -> bool {
    fits(cong, dfa) && (level == width - 1 ==> dfa.accepts_everywhere())
}

/// The leading congruence and all progress automata are complete, and the
/// last automaton of every family accepts everywhere.
pub open spec fn collaborators_ok(cong: &RightCongruence, dfas: Seq<Vec<DFA>>) -> bool {
    &&& cong.wf()
    &&& cong.spec_ts().complete()
    &&& forall|c: int, i: int|
        0 <= c < dfas.len() && 0 <= i < dfas[c]@.len() ==> usable(
            cong,
            &#[trigger] dfas[c]@[i],
            i,
            dfas[c]@.len() as int,
        )
}

/// Whether the progress automaton can be used at `level` of a family of `width`
/// automata.
fn is_usable(cong: &RightCongruence, dfa: &DFA, level: usize, width: usize) -> (b: bool)
    requires
        cong.spec_ts().wf(),
        dfa.spec_ts().wf(),
        level < width,
    ensures
        b == usable(cong, dfa, level as int, width as int),
{
    if dfa.initial() >= dfa.size() {
        return false;
    }
    if !dfa.ts().is_complete() {
        return false;
    }
    if !dfa.ts().alphabet().equals(cong.ts().alphabet()) {
        return false;
    }
    if level + 1 == width {
        dfa.is_accepting_everywhere()
    } else {
        true
    }
}

impl PreciseDPA {
    /// Creates the precise automaton of the given leading congruence and
    /// families of progress automata, one family for each class, after checking
    /// that they can be used.
    ///
    /// The number of automata of the first family is the number of levels. If
    /// it is zero or more than eight, the error is `InvalidPriorityCount`.
    /// Otherwise, if the number of families is not the number of classes, or a
    /// family has another number of automata, the error is
    /// `FamilyWidthMismatch`. Otherwise, if the leading congruence or a
    /// progress automaton is not complete, lacks its initial state or reads
    /// another alphabet, or if the last automaton of a family does not accept
    /// everywhere, the error is `IncompleteCollaborator`.
    pub fn new(cong: RightCongruence, dfas: Vec<Vec<DFA>>) -> (r: Result<Self, ConstructionError>)
        requires
            cong.spec_ts().wf(),
            forall|c: int, i: int|
                0 <= c < dfas@.len() && 0 <= i < dfas@[c]@.len() ==> (#[trigger] dfas@[c]@[i]).spec_ts().wf(),
        ensures
            match r {
                Ok(dpa) => {
                    &&& count_ok(dfas@)
                    &&& shape_ok(&cong, dfas@)
                    &&& collaborators_ok(&cong, dfas@)
                    &&& dpa.wf()
                    &&& *dpa.spec_cong() == cong
                    &&& dpa.spec_width() == family_width(dfas@)
                    &&& forall|c: int, i: int|
                        0 <= c < dfas@.len() && 0 <= i < dfas@[c]@.len() ==> *#[trigger] dpa.spec_dfa(c, i)
                            == dfas@[c]@[i]
                },
                Err(ConstructionError::InvalidPriorityCount { count }) => !count_ok(dfas@) && count
                    == family_width(dfas@),
                Err(ConstructionError::FamilyWidthMismatch { class, width }) => count_ok(dfas@)
                    && !shape_ok(&cong, dfas@),
                Err(ConstructionError::IncompleteCollaborator { class, level }) => count_ok(dfas@)
                    && shape_ok(&cong, dfas@) && !collaborators_ok(&cong, dfas@),
                Err(ConstructionError::QuotientColorConflict { .. }) => false,
            },
    {
        let width = if dfas.len() == 0 {
            0
        } else {
            dfas[0].len()
        };
        if width == 0 || width > MAX_PRIORITIES {
            return Err(ConstructionError::InvalidPriorityCount { count: width });
        }
        let n = cong.size();
        if dfas.len() != n {
            return Err(ConstructionError::FamilyWidthMismatch { class: dfas.len(), width });
        }
        let mut c: usize = 0;
        while c < n
            invariant
                n == dfas@.len(),
                n == cong.spec_ts().spec_size(),
                width == family_width(dfas@),
                count_ok(dfas@),
                c <= n,
                forall|b: int| 0 <= b < c ==> (#[trigger] dfas@[b])@.len() == width,
            decreases n - c,
        {
            if dfas[c].len() != width {
                assert(dfas@[c as int]@.len() != family_width(dfas@));
                return Err(
                    ConstructionError::FamilyWidthMismatch { class: c, width: dfas[c].len() },
                );
            }
            c += 1;
        }
        if cong.initial() >= n {
            return Err(
                ConstructionError::IncompleteCollaborator { class: cong.initial(), level: None },
            );
        }
        match cong.ts().find_missing_edge() {
            Some((class, _)) => {
                return Err(ConstructionError::IncompleteCollaborator { class, level: None });
            },
            None => {},
        }
        let mut c: usize = 0;
        while c < n
            invariant
                cong.spec_ts().wf(),
                n == dfas@.len(),
                width == family_width(dfas@),
                count_ok(dfas@),
                shape_ok(&cong, dfas@),
                c <= n,
                forall|b: int| 0 <= b < n ==> (#[trigger] dfas@[b])@.len() == width,
                forall|b: int, i: int|
                    0 <= b < dfas@.len() && 0 <= i < dfas@[b]@.len() ==> (#[trigger] dfas@[b]@[i]).spec_ts().wf(),
                forall|b: int, i: int|
                    0 <= b < c && 0 <= i < width ==> usable(
                        &cong,
                        &#[trigger] dfas@[b]@[i],
                        i,
                        width as int,
                    ),
            decreases n - c,
        {
            let family = &dfas[c];
            let mut i: usize = 0;
            while i < width
                invariant
                    cong.spec_ts().wf(),
                    c < n,
                    n == dfas@.len(),
                    count_ok(dfas@),
                    shape_ok(&cong, dfas@),
                    family@ == dfas@[c as int]@,
                    family@.len() == width,
                    i <= width,
                    forall|j: int| 0 <= j < width ==> (#[trigger] family@[j]).spec_ts().wf(),
                    forall|j: int| 0 <= j < i ==> usable(&cong, &#[trigger] family@[j], j, width as int),
                decreases width - i,
            {
                if !is_usable(&cong, &family[i], i, width) {
                    assert(!usable(&cong, &dfas@[c as int]@[i as int], i as int, dfas@[c as int]@.len() as int));
                    return Err(
                        ConstructionError::IncompleteCollaborator { class: c, level: Some(i) },
                    );
                }
                i += 1;
            }
            c += 1;
        }
        let dpa = PreciseDPA { cong, dfas, width };
        proof {
            assert forall|c: int, i: int|
                0 <= c < dpa.num_classes() && 0 <= i < dpa.spec_width() implies #[trigger] dpa.dfa_fits(
                c,
                i,
            ) by {
                assert(usable(&cong, &dfas@[c]@[i], i, width as int));
            }
            assert forall|c: int| 0 <= c < dpa.num_classes() implies (#[trigger] dpa.spec_dfa(
                c,
                dpa.spec_width() - 1,
            )).accepts_everywhere() by {
                assert(usable(&cong, &dfas@[c]@[width - 1], width - 1, width as int));
            }
        }
        Ok(dpa)
    }
}

/// An edge of the precise automaton: its source, its symbol, its target and its
/// color, which is a priority.
#[derive(Debug)]
pub struct PreciseDPATransition<'a> {
    dpa: &'a PreciseDPA,
    source: PState,
    expression: char,
    target: PState,
    color: Int,
}

impl<'a> PreciseDPATransition<'a> {
    /// The automaton to which the edge belongs.
    pub closed spec fn spec_dpa(&self) -> &PreciseDPA {
        self.dpa
    }

    /// The source of the edge.
    pub closed spec fn spec_source(&self) -> PStateView {
        self.source@
    }

    /// The symbol of the edge.
    pub closed spec fn spec_expression(&self) -> char {
        self.expression
    }

    /// The target of the edge.
    pub closed spec fn spec_target(&self) -> PStateView {
        self.target@
    }

    /// The color of the edge.
    pub closed spec fn spec_color(&self) -> Int {
        self.color
    }

    /// The edge is the one that the automaton takes from its source on its
    /// symbol.
    pub open spec fn is_edge(&self) -> bool {
        &&& self.spec_color() == self.spec_dpa().step_color(self.spec_source(), self.spec_expression())
        &&& self.spec_target() == self.spec_dpa().step_target(
            self.spec_source(),
            self.spec_expression(),
        )
    }

    /// Creates a new instance.
    pub fn new(dpa: &'a PreciseDPA, source: PState, expression: char, target: PState, color: Int) -> (edge:
        Self)
        ensures
            edge.spec_dpa() == dpa,
            edge.spec_source() == source@,
            edge.spec_expression() == expression,
            edge.spec_target() == target@,
            edge.spec_color() == color,
    {
        PreciseDPATransition { dpa, source, expression, target, color }
    }

    /// Returns the source of the edge.
    pub fn source(&self) -> (state: PState)
        ensures
            state@ == self.spec_source(),
    {
        self.source.clone()
    }

    /// Returns the target of the edge.
    pub fn target(&self) -> (state: PState)
        ensures
            state@ == self.spec_target(),
    {
        self.target.clone()
    }

    /// Returns the color of the edge.
    pub fn color(&self) -> (color: Int)
        ensures
            color == self.spec_color(),
    {
        self.color
    }

    /// Returns the symbol of the edge.
    pub fn expression(&self) -> (sym: char)
        ensures
            sym == self.spec_expression(),
    {
        self.expression
    }
}

/// Walks through the edges that leave a state of the precise automaton, one
/// for every symbol of the alphabet, in the order of the alphabet.
#[derive(Debug)]
pub struct PreciseDPAEdgesFrom<'a> {
    dpa: &'a PreciseDPA,
    state: PState,
    position: usize,
}

impl<'a> PreciseDPAEdgesFrom<'a> {
    /// The automaton whose edges are walked through.
    pub closed spec fn spec_dpa(&self) -> &PreciseDPA {
        self.dpa
    }

    /// The state whose edges are walked through.
    pub closed spec fn spec_state(&self) -> PStateView {
        self.state@
    }

    /// The position in the alphabet of the symbol of the next edge.
    pub closed spec fn spec_position(&self) -> nat {
        self.position as nat
    }

    /// Creates a new instance.
    pub fn new(dpa: &'a PreciseDPA, state: PState) -> (edges: Self)
        ensures
            edges.spec_dpa() == dpa,
            edges.spec_state() == state@,
            edges.spec_position() == 0,
    {
        PreciseDPAEdgesFrom { dpa, state, position: 0 }
    }

    /// Returns the edge on the next symbol of the alphabet, or `None` when
    /// every symbol has had its turn.
    pub fn next(&mut self) -> (edge: Option<PreciseDPATransition<'a>>)
        requires
            old(self).spec_dpa().wf(),
            old(self).spec_dpa().valid_state(old(self).spec_state()),
        ensures
            final(self).spec_dpa() == old(self).spec_dpa(),
            final(self).spec_state() == old(self).spec_state(),
            match edge {
                Some(e) => old(self).spec_position() < old(self).spec_dpa().symbols().len()
                    && final(self).spec_position() == old(self).spec_position() + 1 && e.spec_dpa()
                    == old(self).spec_dpa() && e.spec_source() == old(self).spec_state()
                    && e.spec_expression() == old(self).spec_dpa().symbols()[old(
                    self,
                ).spec_position() as int] && e.is_edge(),
                None => old(self).spec_position() >= old(self).spec_dpa().symbols().len()
                    && final(self).spec_position() == old(self).spec_position(),
            },
    {
        let k = self.dpa.cong.ts().num_symbols();
        if self.position >= k {
            return None;
        }
        let sym = self.dpa.cong.ts().symbol(self.position);
        assert(self.dpa.symbols()[self.position as int] == sym);
        let (color, target) = self.dpa.take_precise_transition(&self.state, sym);
        self.position = self.position + 1;
        Some(PreciseDPATransition::new(self.dpa, self.state.clone(), sym, target, color))
    }
}

/// Walks through the states of the precise automaton that can be reached, in
/// the order in which exploring finds them.
#[derive(Debug)]
pub struct PreciseDPAStatesIter<'a> {
    dpa: &'a PreciseDPA,
    states: Vec<PState>,
    position: usize,
}

impl<'a> PreciseDPAStatesIter<'a> {
    /// The automaton whose states are walked through.
    pub closed spec fn spec_dpa(&self) -> &PreciseDPA {
        self.dpa
    }

    /// The states that are walked through.
    pub closed spec fn spec_states(&self) -> Seq<PStateView> {
        crate::precise::explore::views(self.states@)
    }

    /// The number of states that have been returned.
    pub closed spec fn spec_position(&self) -> nat {
        self.position as nat
    }

    /// Returns the next state, or `None` when every state has had its turn.
    pub fn next(&mut self) -> (state: Option<PState>)
        ensures
            final(self).spec_dpa() == old(self).spec_dpa(),
            final(self).spec_states() == old(self).spec_states(),
            match state {
                Some(s) => {
                    &&& old(self).spec_position() < old(self).spec_states().len()
                    &&& s@ == old(self).spec_states()[old(self).spec_position() as int]
                    &&& final(self).spec_position() == old(self).spec_position() + 1
                },
                None => {
                    &&& old(self).spec_position() >= old(self).spec_states().len()
                    &&& final(self).spec_position() == old(self).spec_position()
                },
            },
    {
        if self.position >= self.states.len() {
            return None;
        }
        let state = self.states[self.position].clone();
        self.position = self.position + 1;
        Some(state)
    }
}

impl PreciseDPA {
    /// Returns a walk through the states that can be reached from the initial
    /// state, each once, the initial state first.
    pub fn state_indices(&self) -> (states: PreciseDPAStatesIter<'_>)
        requires
            self.wf(),
        ensures
            states.spec_dpa() == self,
            states.spec_position() == 0,
            states.spec_states().no_duplicates(),
            states.spec_states().len() > 0,
            states.spec_states()[0] == self.spec_initial(),
            forall|s: PStateView| states.spec_states().contains(s) <==> self.reachable(s),
    {
        PreciseDPAStatesIter { dpa: self, states: self.reachable_state_indices(), position: 0 }
    }
}

impl PreciseDPA {
    /// Returns the progress automata of the given level, one for every class,
    /// each with its class.
    pub fn dfas_level(&self, level: usize) -> (dfas: Vec<(usize, &DFA)>)
        requires
            self.wf(),
            level < self.spec_width(),
        ensures
            dfas@.len() == self.num_classes(),
            forall|c: int|
                0 <= c < dfas@.len() ==> (#[trigger] dfas@[c]).0 == c && dfas@[c].1 == self.spec_dfa(
                    c,
                    level as int,
                ),
    {
        let n = self.cong.size();
        let mut dfas: Vec<(usize, &DFA)> = Vec::new();
        let mut c: usize = 0;
        while c < n
            invariant
                self.wf(),
                level < self.spec_width(),
                n == self.num_classes(),
                c <= n,
                dfas@.len() == c,
                forall|b: int|
                    0 <= b < c ==> (#[trigger] dfas@[b]).0 == b && dfas@[b].1 == self.spec_dfa(
                        b,
                        level as int,
                    ),
            decreases n - c,
        {
            dfas.push((c, self.dfa(c, level)));
            c += 1;
        }
        dfas
    }

    /// Given a state, returns the progress automata that are currently active,
    /// one for every level.
    pub fn dfas(&self, q: &PState) -> (dfas: Vec<&DFA>)
        requires
            self.wf(),
            self.valid_state(q@),
        ensures
            dfas@.len() == self.spec_width(),
            forall|i: int|
                0 <= i < dfas@.len() ==> #[trigger] dfas@[i] == self.spec_dfa(
                    q@.progress_classes[i] as int,
                    i,
                ),
    {
        let mut dfas: Vec<&DFA> = Vec::new();
        let mut i: usize = 0;
        while i < self.width
            invariant
                self.wf(),
                self.valid_state(q@),
                i <= self.width,
                dfas@.len() == i,
                forall|j: int|
                    0 <= j < i ==> #[trigger] dfas@[j] == self.spec_dfa(
                        q@.progress_classes[j] as int,
                        j,
                    ),
            decreases self.width - i,
        {
            let c = q.progress_classes[i];
            assert(c == q@.progress_classes[i as int]);
            dfas.push(self.dfa(c, i));
            i += 1;
        }
        dfas
    }

    /// Returns the color of `state`. The states of the precise automaton have
    /// no color, and every state of the right width is one of its states.
    pub fn state_color(&self, state: &PState) -> (color: Option<crate::color::Void>)
        ensures
            color == Some(crate::color::Void),
    {
        Some(crate::color::Void)
    }

    /// Returns a walk through the edges that leave `state`.
    pub fn edges_from(&self, state: PState) -> (edges: PreciseDPAEdgesFrom<'_>)
        ensures
            edges.spec_dpa() == self,
            edges.spec_state() == state@,
            edges.spec_position() == 0,
    {
        PreciseDPAEdgesFrom::new(self, state)
    }

    /// Returns the edge that leaves `state` on `sym`, or `None` if `sym` is no
    /// symbol of the alphabet.
    pub fn edge(&self, state: &PState, sym: char) -> (edge: Option<PreciseDPATransition<'_>>)
        requires
            self.wf(),
            self.valid_state(state@),
        ensures
            match edge {
                Some(e) => self.symbols().contains(sym) && e.spec_dpa() == self && e.spec_source()
                    == state@ && e.spec_expression() == sym && e.is_edge(),
                None => !self.symbols().contains(sym),
            },
    {
        if !self.cong.ts().alphabet().contains(sym) {
            return None;
        }
        let (color, target) = self.take_precise_transition(state, sym);
        Some(PreciseDPATransition::new(self, state.clone(), sym, target, color))
    }
}

} // verus!
