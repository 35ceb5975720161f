//! From a family of weak priority mappings to a minimal deterministic parity
//! automaton.
use crate::alphabet::CharAlphabet;
use crate::automaton::omega::{MinEvenParityCondition, DPA};
use crate::automaton::reachability::{ReachabilityCondition, DFA};
use crate::automaton::{Automaton, MealyMachine, MealySemantics, RightCongruence};
use crate::color::{Int, Void};
use crate::error::ConstructionError;
use crate::minimization::bisimulation::{lemma_same_edges_same_output, mealy_bisimilar, mealy_output};
use crate::minimization::partition_refinement::{mealy_minimal, mealy_partition_refinement};
use crate::precise::explore::views;
use crate::precise::{collaborators_ok, usable, PreciseDPA, MAX_PRIORITIES};
use crate::ts::DTS;
use vstd::prelude::*;

verus! {

/// The output is the given color.
pub open spec fn is_color(output: Option<Int>, color: int) -> bool {
    output matches Some(c) && c == color
}

/// The automaton `dfa` has a single state, which accepts, and from which an
/// edge on every symbol of `alphabet` leads back to it.
pub open spec fn is_universal(dfa: &DFA, alphabet: Seq<char>) -> bool {
    &&& dfa.wf()
    &&& dfa.spec_ts().spec_size() == 1
    &&& dfa.spec_ts().symbols() == alphabet
    &&& dfa.spec_ts().complete()
    &&& dfa.accepts_everywhere()
}

/// Builds the automaton over `alphabet` that accepts every word: it has a
/// single state, which accepts.
pub fn padding_universal_dfa(alphabet: &CharAlphabet) -> (dfa: DFA)
    requires
        alphabet.wf(),
    ensures
        is_universal(&dfa, alphabet@),
{
    let mut ts: DTS<bool, Void> = DTS::for_alphabet(alphabet.clone());
    let e = ts.add_state(true);
    let k = alphabet.size();
    let mut a: usize = 0;
    while a < k
        invariant
            alphabet.wf(),
            k == alphabet@.len(),
            a <= k,
            e == 0,
            ts.wf(),
            ts.spec_size() == 1,
            ts.symbols() == alphabet@,
            ts.spec_state_color(0),
            forall|b: int| 0 <= b < a ==> (#[trigger] ts.spec_edge(0, alphabet@[b])).is_some(),
        decreases k - a,
    {
        let sym = alphabet.symbol(a);
        let ghost before = ts;
        assert(alphabet@.contains(sym));
        ts.add_edge(e, sym, Void, e);
        proof {
            assert forall|b: int| 0 <= b < a + 1 implies (#[trigger] ts.spec_edge(
                0,
                alphabet@[b],
            )).is_some() by {
                if b < a {
                    assert(before.spec_edge(0, alphabet@[b]).is_some());
                    assert((alphabet@[b] as int) < (alphabet@[a as int] as int));
                }
            }
        }
        a += 1;
    }
    let dfa: DFA = Automaton::from_parts_with_acceptance(ts, e, ReachabilityCondition);
    assert(dfa.spec_is_accepting(0));
    dfa
}

/// A family of weak priority mappings: a leading congruence and, for every
/// class of it, a family of progress automata, one for each priority that the
/// class uses. The complexity is the number of priorities of the whole.
#[derive(Debug)]
pub struct FWPM {
    leading: RightCongruence,
    families: Vec<Vec<DFA>>,
    complexity: usize,
}

impl FWPM {
    /// The leading congruence.
    pub closed spec fn spec_leading(&self) -> &RightCongruence {
        &self.leading
    }

    /// The families of progress automata, one for each class.
    pub closed spec fn spec_families(&self) -> Seq<Vec<DFA>> {
        self.families@
    }

    /// The number of priorities.
    pub closed spec fn spec_complexity(&self) -> nat {
        self.complexity as nat
    }

    /// Creates a family of weak priority mappings from its parts.
    pub fn new(leading: RightCongruence, families: Vec<Vec<DFA>>, complexity: usize) -> (fwpm: Self)
        ensures
            *fwpm.spec_leading() == leading,
            fwpm.spec_families() == families@,
            fwpm.spec_complexity() == complexity,
    {
        FWPM { leading, families, complexity }
    }

    /// Returns the leading congruence.
    pub fn leading(&self) -> (leading: &RightCongruence)
        ensures
            leading == self.spec_leading(),
    {
        &self.leading
    }

    /// Returns the number of priorities.
    pub fn complexity(&self) -> (complexity: usize)
        ensures
            complexity == self.spec_complexity(),
    {
        self.complexity
    }

    /// There is at least one priority, and there are at most eight.
    pub open spec fn count_ok(&self) -> bool {
        1 <= self.spec_complexity() <= MAX_PRIORITIES
    }

    /// There is one family for every class, and no family has more progress
    /// automata than there are priorities.
    pub open spec fn shape_ok(&self) -> bool {
        &&& self.spec_families().len() == self.spec_leading().spec_ts().spec_size()
        &&& forall|c: int|
            0 <= c < self.spec_families().len() ==> (#[trigger] self.spec_families()[c])@.len()
                <= self.spec_complexity()
    }

    /// The leading congruence and all progress automata are complete and read
    /// the same alphabet, and a progress automaton for the last priority
    /// accepts everywhere.
    pub open spec fn collaborators_ok(&self) -> bool {
        &&& self.spec_leading().wf()
        &&& self.spec_leading().spec_ts().complete()
        &&& forall|c: int, i: int|
            0 <= c < self.spec_families().len() && 0 <= i < self.spec_families()[c]@.len()
                ==> usable(
                self.spec_leading(),
                &#[trigger] self.spec_families()[c]@[i],
                i,
                self.spec_complexity() as int,
            )
    }

    /// The precise automaton `p` is the one of this family: it has the leading
    /// congruence and the progress automata of the family, and where a class
    /// has fewer progress automata than there are priorities, it has the
    /// automaton that accepts everything.
    pub open spec fn realized_by(&self, p: &PreciseDPA) -> bool {
        &&& p.wf()
        &&& *p.spec_cong() == *self.spec_leading()
        &&& p.spec_width() == self.spec_complexity()
        &&& forall|c: int, i: int|
            0 <= c < self.spec_families().len() && 0 <= i < self.spec_complexity() ==> if i
                < self.spec_families()[c]@.len() {
                *#[trigger] p.spec_dfa(c, i) == self.spec_families()[c]@[i]
            } else {
                is_universal(p.spec_dfa(c, i), p.symbols())
            }
    }
}

/// Fills a family of progress automata up to `width` automata with the
/// automaton that accepts everything.
fn pad_family(family: Vec<DFA>, alphabet: &CharAlphabet, width: usize) -> (padded: Vec<DFA>)
    requires
        alphabet.wf(),
        family@.len() <= width,
    ensures
        padded@.len() == width,
        forall|i: int| 0 <= i < family@.len() ==> padded@[i] == family@[i],
        forall|i: int| family@.len() <= i < width ==> is_universal(&#[trigger] padded@[i], alphabet@),
{
    let mut padded = family;
    while padded.len() < width
        invariant
            alphabet.wf(),
            family@.len() <= padded@.len() <= width,
            forall|i: int| 0 <= i < family@.len() ==> padded@[i] == family@[i],
            forall|i: int|
                family@.len() <= i < padded@.len() ==> is_universal(&#[trigger] padded@[i], alphabet@),
        decreases width - padded@.len(),
    {
        padded.push(padding_universal_dfa(alphabet));
    }
    padded
}

impl PreciseDPA {
    /// Collects the states that can be reached into a machine with the
    /// priorities on its edges. The states are numbered in the order in which
    /// they are found, so the machine starts in state 0. On every non-empty
    /// word over the alphabet it outputs the color of the edge that the precise
    /// automaton takes on the last symbol.
    pub fn collect_mealy(&self) -> (mealy: MealyMachine<Void, Int>)
        requires
            self.wf(),
        ensures
            mealy.wf(),
            mealy.spec_initial() == 0,
            exists|states: Seq<crate::precise::PStateView>|
                self.is_exploration(states, mealy.spec_ts()),
            mealy.spec_ts().all_reachable(0),
            forall|w: Seq<char>|
                self.valid_word(w) && w.len() > 0 ==> is_color(
                    #[trigger] mealy_output(mealy.spec_ts(), 0, w),
                    self.color_at(w, w.len() - 1),
                ),
    {
        let (states, ts) = self.explore();
        let mealy: MealyMachine<Void, Int> = Automaton::from_parts_with_acceptance(
            ts,
            0,
            MealySemantics,
        );
        proof {
            let listed = views(states@);
            assert(self.is_exploration(listed, mealy.spec_ts()));
            self.lemma_exploration_all_reachable(listed, mealy.spec_ts());
            assert forall|w: Seq<char>| self.valid_word(w) && w.len() > 0 implies is_color(
                #[trigger] mealy_output(mealy.spec_ts(), 0, w),
                self.color_at(w, w.len() - 1),
            ) by {
                self.lemma_output_is_color(listed, mealy.spec_ts(), w);
            }
        }
        mealy
    }

    /// Returns the states that can be reached from the initial state, in the
    /// order in which exploring finds them, each of them once.
    pub fn reachable_state_indices(&self) -> (states: Vec<crate::precise::PState>)
        requires
            self.wf(),
        ensures
            views(states@).no_duplicates(),
            views(states@).len() > 0,
            views(states@)[0] == self.spec_initial(),
            forall|s: crate::precise::PStateView| views(states@).contains(s) <==> self.reachable(s),
    {
        let (states, ts) = self.explore();
        proof {
            self.lemma_exploration_complete(views(states@), &ts);
        }
        states
    }

    /// The system of an exploration outputs on a word the color of the edge
    /// that the precise automaton takes on the last symbol of the word.
    pub proof fn lemma_output_is_color(
        &self,
        states: Seq<crate::precise::PStateView>,
        ts: &DTS<Void, Int>,
        w: Seq<char>,
    )
        requires
            self.wf(),
            self.is_exploration(states, ts),
            self.valid_word(w),
            w.len() > 0,
        ensures
            is_color(mealy_output(ts, 0, w), self.color_at(w, w.len() - 1)),
    {
        self.lemma_exploration_runs(states, ts, 0, w);
        let v = w.drop_last();
        assert(v.push(w.last()) =~= w);
        assert(w.take(w.len() - 1) =~= v);
        self.lemma_last_color_push(self.spec_initial(), v, w.last());
    }
}

/// Systems with the same states and edges are minimal together.
proof fn lemma_same_edges_minimal<Q1, Q2, C>(left: &DTS<Q1, C>, right: &DTS<Q2, C>)
    requires
        left.spec_size() == right.spec_size(),
        forall|s: int, sym: char| #[trigger] left.spec_edge(s, sym) == right.spec_edge(s, sym),
        mealy_minimal(left),
    ensures
        mealy_minimal(right),
{
    assert forall|p: int, q: int|
        0 <= p < right.spec_size() && 0 <= q < right.spec_size() && p != q
        implies !#[trigger] mealy_bisimilar(right, p, q) by {
        assert(!mealy_bisimilar(left, p, q));
        let w = choose|w: Seq<char>| #[trigger] mealy_output(left, p, w) != mealy_output(left, q, w);
        lemma_same_edges_same_output(left, right, p, w);
        lemma_same_edges_same_output(left, right, q, w);
        assert(mealy_output(right, p, w) != mealy_output(right, q, w));
    }
}

impl PreciseDPA {
    /// Creates the precise automaton of a family of weak priority mappings.
    ///
    /// The number of priorities has to be at least one and at most eight, else
    /// the error is `InvalidPriorityCount`. There has to be one family of
    /// progress automata for every class, of no more automata than there are
    /// priorities, else the error is `FamilyWidthMismatch`; a family of fewer
    /// is filled up with the automaton that accepts everything. The leading
    /// congruence and the progress automata have to be complete, to hold their
    /// initial states and to read the same alphabet, and a progress automaton
    /// for the last priority has to accept everywhere, else the error is
    /// `IncompleteCollaborator`.
    pub fn from_fwpm(fwpm: FWPM) -> (r: Result<PreciseDPA, ConstructionError>)
        requires
            fwpm.spec_leading().spec_ts().wf(),
            forall|c: int, i: int|
                0 <= c < fwpm.spec_families().len() && 0 <= i < fwpm.spec_families()[c]@.len() ==> (
                #[trigger] fwpm.spec_families()[c]@[i]).spec_ts().wf(),
        ensures
            match r {
                Ok(p) => {
                    &&& fwpm.count_ok()
                    &&& fwpm.shape_ok()
                    &&& fwpm.collaborators_ok()
                    &&& fwpm.realized_by(&p)
                },
                Err(ConstructionError::InvalidPriorityCount { count }) => !fwpm.count_ok() && count
                    == fwpm.spec_complexity(),
                Err(ConstructionError::FamilyWidthMismatch { class, width }) => fwpm.count_ok()
                    && !fwpm.shape_ok(),
                Err(ConstructionError::IncompleteCollaborator { class, level }) => fwpm.count_ok()
                    && fwpm.shape_ok() && !fwpm.collaborators_ok(),
                Err(ConstructionError::QuotientColorConflict { .. }) => false,
            },
    {
        let ghost given = fwpm;
        let FWPM { leading, families, complexity } = fwpm;
        if complexity == 0 || complexity > MAX_PRIORITIES {
            return Err(ConstructionError::InvalidPriorityCount { count: complexity });
        }
        let n = leading.size();
        if families.len() != n {
            return Err(ConstructionError::FamilyWidthMismatch { class: families.len(), width: complexity });
        }
        let mut c: usize = 0;
        while c < n
            invariant
                n == families@.len(),
                c <= n,
                forall|b: int| 0 <= b < c ==> (#[trigger] families@[b])@.len() <= complexity,
                given == fwpm,
                given.spec_families() == families@,
                given.spec_complexity() == complexity,
                given.count_ok(),
            decreases n - c,
        {
            if families[c].len() > complexity {
                assert(given.spec_families()[c as int]@.len() > given.spec_complexity());
                assert(!given.shape_ok());
                return Err(
                    ConstructionError::FamilyWidthMismatch { class: c, width: families[c].len() },
                );
            }
            c += 1;
        }
        assert(given.shape_ok());
        if n == 0 {
            return Err(ConstructionError::IncompleteCollaborator { class: 0, level: None });
        }
        let alphabet = leading.ts().alphabet().clone();
        let ghost families0 = families@;
        let mut rest = families;
        let mut padded: Vec<Vec<DFA>> = Vec::new();
        while rest.len() > 0
            invariant
                alphabet.wf(),
                alphabet@ == leading.spec_ts().symbols(),
                n == families0.len(),
                padded@.len() + rest@.len() == n,
                forall|b: int| 0 <= b < n ==> (#[trigger] families0[b])@.len() <= complexity,
                forall|b: int| 0 <= b < rest@.len() ==> #[trigger] rest@[b] == families0[padded@.len() + b],
                forall|b: int| 0 <= b < padded@.len() ==> (#[trigger] padded@[b])@.len() == complexity,
                forall|b: int, i: int|
                    0 <= b < padded@.len() && 0 <= i < complexity ==> if i < families0[b]@.len() {
                        #[trigger] padded@[b]@[i] == families0[b]@[i]
                    } else {
                        is_universal(&padded@[b]@[i], alphabet@)
                    },
            decreases rest@.len(),
        {
            let ghost done = padded@;
            let family = rest.remove(0);
            assert(family == families0[done.len() as int]);
            let filled = pad_family(family, &alphabet, complexity);
            padded.push(filled);
            proof {
                assert forall|b: int, i: int|
                    0 <= b < padded@.len() && 0 <= i < complexity implies if i < families0[b]@.len() {
                    #[trigger] padded@[b]@[i] == families0[b]@[i]
                } else {
                    is_universal(&padded@[b]@[i], alphabet@)
                } by {
                    if b < done.len() {
                        assert(padded@[b] == done[b]);
                    }
                }
            }
        }
        proof {
            assert forall|b: int, i: int|
                0 <= b < padded@.len() && 0 <= i < padded@[b]@.len() implies (#[trigger] padded@[b]@[i]).spec_ts().wf() by {
                if i < families0[b]@.len() {
                    assert(padded@[b]@[i] == families0[b]@[i]);
                    assert(given.spec_families()[b]@[i].spec_ts().wf());
                } else {
                    assert(is_universal(&padded@[b]@[i], alphabet@));
                }
            }
        }
        let ghost lead = leading;
        let ghost filled = padded@;
        let p = match PreciseDPA::new(leading, padded) {
            Ok(p) => p,
            Err(e) => {
                match e {
                    ConstructionError::IncompleteCollaborator { .. } => {
                        proof {
                            if given.collaborators_ok() {
                                assert forall|b: int, i: int|
                                    0 <= b < filled.len() && 0 <= i < filled[b]@.len() implies usable(
                                    &lead,
                                    &#[trigger] filled[b]@[i],
                                    i,
                                    filled[b]@.len() as int,
                                ) by {
                                    if i < families0[b]@.len() {
                                        assert(filled[b]@[i] == families0[b]@[i]);
                                        assert(usable(
                                            given.spec_leading(),
                                            &given.spec_families()[b]@[i],
                                            i,
                                            complexity as int,
                                        ));
                                    } else {
                                        assert(is_universal(&filled[b]@[i], alphabet@));
                                    }
                                }
                                assert(collaborators_ok(&lead, filled));
                            }
                        }
                        return Err(e);
                    },
                    _ => {
                        proof {
                            assert(filled[0]@.len() == complexity);
                            assert(false);
                        }
                        vstd::pervasive::unreached()
                    },
                }
            },
        };
        proof {
            assert forall|b: int, i: int|
                0 <= b < given.spec_families().len() && 0 <= i < given.spec_families()[b]@.len()
                implies usable(
                given.spec_leading(),
                &#[trigger] given.spec_families()[b]@[i],
                i,
                given.spec_complexity() as int,
            ) by {
                assert(filled[b]@[i] == families0[b]@[i]);
                assert(usable(&lead, &filled[b]@[i], i, filled[b]@.len() as int));
            }
            assert(given.realized_by(&p)) by {
                assert forall|b: int, i: int|
                    0 <= b < given.spec_families().len() && 0 <= i < given.spec_complexity() implies if i
                    < given.spec_families()[b]@.len() {
                    *#[trigger] p.spec_dfa(b, i) == given.spec_families()[b]@[i]
                } else {
                    is_universal(p.spec_dfa(b, i), p.symbols())
                } by {
                    assert(*p.spec_dfa(b, i) == filled[b]@[i]);
                }
            }
        }
        Ok(p)
    }
}

/// Builds the minimal deterministic parity automaton of a family of weak
/// priority mappings: the precise automaton of the family is explored from its
/// initial state, collected and minimized.
///
/// The number of priorities has to be at least one and at most eight, else the
/// error is `InvalidPriorityCount`. There has to be one family of progress
/// automata for every class, of no more automata than there are priorities,
/// else the error is `FamilyWidthMismatch`; a family of fewer is filled up
/// with the automaton that accepts everything. The leading congruence and the
/// progress automata have to be complete, to hold their initial states and to
/// read the same alphabet, and a progress automaton for the last priority has
/// to accept everywhere, else the error is `IncompleteCollaborator`.
///
/// On every non-empty word over the alphabet the result outputs the color of
/// the edge that the precise automaton takes on the last symbol.
pub fn build_precise_dpa_for(fwpm: FWPM) -> (r: Result<DPA, ConstructionError>)
    requires
        fwpm.spec_leading().spec_ts().wf(),
        forall|c: int, i: int|
            0 <= c < fwpm.spec_families().len() && 0 <= i < fwpm.spec_families()[c]@.len() ==> (
            #[trigger] fwpm.spec_families()[c]@[i]).spec_ts().wf(),
    ensures
        match r {
            Ok(dpa) => {
                &&& fwpm.count_ok()
                &&& fwpm.shape_ok()
                &&& fwpm.collaborators_ok()
                &&& dpa.wf()
                &&& dpa.spec_ts().symbols() == fwpm.spec_leading().spec_ts().symbols()
                &&& mealy_minimal(dpa.spec_ts())
                &&& dpa.spec_ts().all_reachable(dpa.spec_initial())
                &&& exists|p: PreciseDPA|
                    fwpm.realized_by(&p) && forall|w: Seq<char>|
                        p.valid_word(w) && w.len() > 0 ==> is_color(
                            #[trigger] mealy_output(dpa.spec_ts(), dpa.spec_initial(), w),
                            p.color_at(w, w.len() - 1),
                        )
            },
            Err(ConstructionError::InvalidPriorityCount { count }) => !fwpm.count_ok() && count
                == fwpm.spec_complexity(),
            Err(ConstructionError::FamilyWidthMismatch { class, width }) => fwpm.count_ok()
                && !fwpm.shape_ok(),
            Err(ConstructionError::IncompleteCollaborator { class, level }) => fwpm.count_ok()
                && fwpm.shape_ok() && !fwpm.collaborators_ok(),
            Err(ConstructionError::QuotientColorConflict { .. }) => false,
        },
{
    let p = match PreciseDPA::from_fwpm(fwpm) {
        Ok(p) => p,
        Err(e) => {
            return Err(e);
        },
    };
    let mealy = p.collect_mealy();
    let minimized = mealy_partition_refinement(&mealy);
    let (mts, initial, _) = minimized.into_parts();
    let forget = |colors: &Vec<Void>| -> (color: Void)
        ensures
            color == Void,
        { Void };
    let keep = |color: Int| -> (kept: Int)
        ensures
            kept == color,
        { color };
    let ts = mts.map_colors(&forget, &keep);
    let dpa: DPA = Automaton::from_parts_with_acceptance(ts, initial, MinEvenParityCondition);
    proof {
        assert forall|s: int, sym: char| #[trigger]
            mts.spec_edge(s, sym) == dpa.spec_ts().spec_edge(s, sym) by {
            let e = dpa.spec_ts().spec_edge(s, sym);
        }
        lemma_same_edges_minimal(&mts, dpa.spec_ts());
        assert forall|q: int| 0 <= q < dpa.spec_ts().spec_size() implies #[trigger] dpa.spec_ts().reachable(
            dpa.spec_initial(),
            q,
        ) by {
            assert(mts.reachable(initial as int, q));
            let w = choose|w: Seq<char>| #[trigger] mts.reached(initial as int, w) == Some(q);
            assert forall|s: int, sym: char| #[trigger]
                mts.spec_successor(s, sym) == dpa.spec_ts().spec_successor(s, sym) by {
                assert(mts.spec_edge(s, sym) == dpa.spec_ts().spec_edge(s, sym));
            }
            mts.lemma_same_successors_same_reached(dpa.spec_ts(), initial as int, w);
        }
        assert forall|w: Seq<char>| p.valid_word(w) && w.len() > 0 implies is_color(
            #[trigger] mealy_output(dpa.spec_ts(), dpa.spec_initial(), w),
            p.color_at(w, w.len() - 1),
        ) by {
            lemma_same_edges_same_output(&mts, dpa.spec_ts(), initial as int, w);
            assert(mealy_output(&mts, initial as int, w) == mealy_output(mealy.spec_ts(), 0, w));
        }
    }
    Ok(dpa)
}

} // verus!
