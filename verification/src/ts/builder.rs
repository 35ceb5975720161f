//! Building transition systems from lists of edges.
use crate::alphabet::CharAlphabet;
use crate::automaton::omega::{BuchiCondition, MinEvenParityCondition, DBA, DPA};
use crate::automaton::reachability::{ReachabilityCondition, DFA};
use crate::automaton::{
    Automaton, MealyMachine, MealySemantics, MooreMachine, MooreSemantics, RightCongruence,
    WithoutCondition,
};
use crate::color::{Int, Void};
use crate::ts::{StateIndex, DTS};
use itertools::Itertools;
use vstd::prelude::*;

verus! {

/// An edge: its source, its symbol, its color and its target.
pub type EdgeTuple<C> = (StateIndex, char, C, StateIndex);

/// What can be given to a builder as an edge.
pub trait IntoEdgeTuple<C>: Sized {
    /// The edge that this stands for.
    spec fn spec_edge_tuple(self) -> EdgeTuple<C>;

    /// Returns the edge that this stands for.
    fn into_edge_tuple(self) -> (edge: EdgeTuple<C>)
        ensures
            edge == self.spec_edge_tuple(),
    ;
}

impl<C> IntoEdgeTuple<C> for (StateIndex, char, C, StateIndex) {
    open spec fn spec_edge_tuple(self) -> EdgeTuple<C> {
        self
    }

    fn into_edge_tuple(self) -> (edge: EdgeTuple<C>) {
        self
    }
}

impl IntoEdgeTuple<Void> for (StateIndex, char, StateIndex) {
    open spec fn spec_edge_tuple(self) -> EdgeTuple<Void> {
        (self.0, self.1, Void, self.2)
    }

    fn into_edge_tuple(self) -> (edge: EdgeTuple<Void>) {
        (self.0, self.1, Void, self.2)
    }
}

/// The sources and targets of the edges, in the order of the edges.
pub open spec fn endpoints<C>(edges: Seq<EdgeTuple<C>>) -> Seq<StateIndex>
    decreases edges.len(),
{
    if edges.len() == 0 {
        Seq::empty()
    } else {
        endpoints(edges.drop_last()).push(edges.last().3).push(edges.last().0)
    }
}

/// Every source and every target of an edge is among the endpoints.
pub proof fn lemma_endpoints<C>(edges: Seq<EdgeTuple<C>>, j: int)
    requires
        0 <= j < edges.len(),
    ensures
        endpoints(edges).contains(edges[j].0),
        endpoints(edges).contains(edges[j].3),
    decreases edges.len(),
{
    let all = endpoints(edges);
    let shorter = endpoints(edges.drop_last());
    if j == edges.len() - 1 {
        assert(all[all.len() - 1] == edges[j].0);
        assert(all[all.len() - 2] == edges[j].3);
    } else {
        lemma_endpoints(edges.drop_last(), j);
        let a = shorter.index_of(edges[j].0);
        assert(all[a] == edges[j].0);
        let b = shorter.index_of(edges[j].3);
        assert(all[b] == edges[j].3);
    }
}

/// Counts the different numbers in `ids` with `unique` and `count` of
/// `itertools`: `unique` yields every number once, the first time it occurs,
/// and `count` counts what is yielded.
#[verifier::external_body]
fn count_distinct(ids: &Vec<StateIndex>) -> (n: usize)
    ensures
        n == ids@.to_set().len(),
{
    ids.iter().unique().count()
}

/// Helper for the construction of transition systems. It stores a list of
/// edges, a list of state colors, a default color for states that have none,
/// and symbols that the alphabet is to hold besides those of the edges.
#[derive(Debug)]
pub struct TSBuilder<Q = Void, C = Void> {
    symbols: Vec<char>,
    edges: Vec<EdgeTuple<C>>,
    default: Option<Q>,
    colors: Vec<(StateIndex, Q)>,
}

impl<Q, C> TSBuilder<Q, C> {
    /// The symbols that were added besides those of the edges.
    pub closed spec fn spec_symbols(&self) -> Seq<char> {
        self.symbols@
    }

    /// The edges, in the order in which they were added.
    pub closed spec fn spec_edges(&self) -> Seq<EdgeTuple<C>> {
        self.edges@
    }

    /// The color of states that were given none.
    pub closed spec fn spec_default(&self) -> Option<Q> {
        self.default
    }

    /// The colors that states were given, in the order in which they were
    /// given.
    pub closed spec fn spec_colors(&self) -> Seq<(StateIndex, Q)> {
        self.colors@
    }

    /// State `idx` was given a color.
    pub open spec fn has_color(&self, idx: StateIndex) -> bool {
        exists|j: int| 0 <= j < self.spec_colors().len() && (#[trigger] self.spec_colors()[j]).0 == idx
    }

    /// No state was given two colors.
    pub open spec fn wf(&self) -> bool {
        forall|i: int, j: int|
            0 <= i < j < self.spec_colors().len() ==> (#[trigger] self.spec_colors()[i]).0 != (
            #[trigger] self.spec_colors()[j]).0
    }

    /// The number of states of the system that is built: the number of
    /// different states that occur in the edges.
    pub open spec fn num_states(&self) -> nat {
        endpoints(self.spec_edges()).to_set().len()
    }

    /// The symbols of the system that is built: those of the edges and those
    /// that were added.
    pub open spec fn all_symbols(&self) -> Set<char> {
        Set::new(
            |sym: char|
                self.spec_symbols().contains(sym) || exists|j: int|
                    0 <= j < self.spec_edges().len() && (#[trigger] self.spec_edges()[j]).1 == sym,
        )
    }

    /// The builder with `color` for its default color.
    pub closed spec fn with_default(self, color: Q) -> Self {
        TSBuilder {
            symbols: self.symbols,
            edges: self.edges,
            default: Some(color),
            colors: self.colors,
        }
    }

    /// The states that occur in the edges are the numbers below their number,
    /// and no two edges leave one state on one symbol.
    pub open spec fn edges_ok(&self) -> bool {
        &&& self.wf()
        &&& forall|j: int|
            0 <= j < self.spec_edges().len() ==> (#[trigger] self.spec_edges()[j]).0
                < self.num_states() && self.spec_edges()[j].3 < self.num_states()
        &&& forall|i: int, j: int|
            0 <= i < j < self.spec_edges().len() ==> !((#[trigger] self.spec_edges()[i]).0 == (
            #[trigger] self.spec_edges()[j]).0 && self.spec_edges()[i].1 == self.spec_edges()[j].1)
    }

    /// Giving a default color changes nothing else.
    pub proof fn lemma_with_default(self, color: Q)
        ensures
            self.with_default(color).spec_default() == Some(color),
            self.with_default(color).spec_symbols() == self.spec_symbols(),
            self.with_default(color).spec_edges() == self.spec_edges(),
            self.with_default(color).spec_colors() == self.spec_colors(),
            self.edges_ok() ==> self.with_default(color).can_build(),
    {
        let b = self.with_default(color);
        assert(b.spec_edges() == self.spec_edges());
        assert(b.spec_colors() == self.spec_colors());
        assert(b.num_states() == self.num_states());
        if self.edges_ok() {
            assert(b.wf());
            assert forall|j: int| 0 <= j < b.spec_edges().len() implies (#[trigger] b.spec_edges()[j]).0
                < b.num_states() && b.spec_edges()[j].3 < b.num_states() by {
                assert(self.spec_edges()[j].0 < self.num_states());
            }
            assert forall|i: int, j: int| 0 <= i < j < b.spec_edges().len() implies !((
            #[trigger] b.spec_edges()[i]).0 == (#[trigger] b.spec_edges()[j]).0 && b.spec_edges()[i].1
                == b.spec_edges()[j].1) by {
                assert(!(self.spec_edges()[i].0 == self.spec_edges()[j].0 && self.spec_edges()[i].1
                    == self.spec_edges()[j].1));
            }
        }
    }

    /// A system can be built: every state has a color, the states that occur
    /// in the edges are the numbers below their number, and no two edges leave
    /// one state on one symbol.
    pub open spec fn can_build(&self) -> bool {
        &&& self.wf()
        &&& self.spec_default().is_none() ==> forall|i: StateIndex|
            i < self.num_states() ==> #[trigger] self.has_color(i)
        &&& forall|j: int|
            0 <= j < self.spec_edges().len() ==> (#[trigger] self.spec_edges()[j]).0
                < self.num_states() && self.spec_edges()[j].3 < self.num_states()
        &&& forall|i: int, j: int|
            0 <= i < j < self.spec_edges().len() ==> !((#[trigger] self.spec_edges()[i]).0 == (
            #[trigger] self.spec_edges()[j]).0 && self.spec_edges()[i].1 == self.spec_edges()[j].1)
    }

    /// Creates an empty instance without a default color.
    pub fn new() -> (builder: Self)
        ensures
            builder.wf(),
            builder.spec_symbols().len() == 0,
            builder.spec_edges().len() == 0,
            builder.spec_colors().len() == 0,
            builder.spec_default().is_none(),
    {
        TSBuilder { symbols: Vec::new(), edges: Vec::new(), default: None, colors: Vec::new() }
    }

    /// Sets the default color for states that have no color specified.
    pub fn default_color(self, color: Q) -> (builder: Self)
        ensures
            builder == self.with_default(color),
            builder.spec_default() == Some(color),
            builder.spec_symbols() == self.spec_symbols(),
            builder.spec_edges() == self.spec_edges(),
            builder.spec_colors() == self.spec_colors(),
    {
        let mut builder = self;
        builder.default = Some(color);
        builder
    }

    /// By default, the only symbols of the system that is built are the ones
    /// that appear on at least one edge. This method forces additional symbols
    /// to appear.
    pub fn with_alphabet_symbols<const K: usize>(self, symbols: [char; K]) -> (builder: Self)
        ensures
            builder.spec_symbols() == self.spec_symbols() + symbols@,
            builder.spec_default() == self.spec_default(),
            builder.spec_edges() == self.spec_edges(),
            builder.spec_colors() == self.spec_colors(),
    {
        let mut builder = self;
        let mut i: usize = 0;
        while i < K
            invariant
                i <= K,
                symbols@.len() == K,
                builder.symbols@ == self.symbols@ + symbols@.take(i as int),
                builder.default == self.default,
                builder.edges == self.edges,
                builder.colors == self.colors,
            decreases K - i,
        {
            builder.symbols.push(symbols[i]);
            assert(symbols@.take(i + 1) == symbols@.take(i as int).push(symbols@[i as int]));
            assert(self.symbols@ + symbols@.take(i + 1) =~= (self.symbols@ + symbols@.take(
                i as int,
            )).push(symbols@[i as int]));
            i += 1;
        }
        assert(symbols@.take(K as int) == symbols@);
        builder
    }

    /// Assigns the given `color` to the state with the given index `idx`,
    /// which must not have a color yet.
    pub fn color(self, idx: StateIndex, color: Q) -> (builder: Self)
        requires
            self.wf(),
            !self.has_color(idx),
        ensures
            builder.wf(),
            builder.spec_colors() == self.spec_colors().push((idx, color)),
            builder.spec_default() == self.spec_default(),
            builder.spec_edges() == self.spec_edges(),
            builder.spec_symbols() == self.spec_symbols(),
    {
        let mut builder = self;
        builder.colors.push((idx, color));
        proof {
            assert forall|i: int, j: int| 0 <= i < j < builder.spec_colors().len() implies (
            #[trigger] builder.spec_colors()[i]).0 != (#[trigger] builder.spec_colors()[j]).0 by {
                if j == builder.spec_colors().len() - 1 {
                    assert(self.spec_colors()[i].0 != idx);
                } else {
                    assert(self.spec_colors()[i].0 != self.spec_colors()[j].0);
                }
            }
        }
        builder
    }
}

impl<Q: Copy, C: Copy> TSBuilder<Q, C> {
    /// Adds a list of colors. The colors are assigned to the states in the
    /// order in which they are given: the first to state 0, the second to
    /// state 1, and so on. None of these states may have a color yet.
    pub fn with_state_colors<const K: usize>(self, colors: [Q; K]) -> (builder: Self)
        requires
            self.wf(),
            forall|i: StateIndex| i < K ==> !#[trigger] self.has_color(i),
        ensures
            builder.wf(),
            builder.spec_colors() == self.spec_colors() + Seq::new(
                K as nat,
                |i: int| (i as usize, colors@[i]),
            ),
            builder.spec_default() == self.spec_default(),
            builder.spec_edges() == self.spec_edges(),
            builder.spec_symbols() == self.spec_symbols(),
    {
        let mut builder = self;
        let mut i: usize = 0;
        let ghost added = Seq::new(K as nat, |i: int| (i as usize, colors@[i]));
        while i < K
            invariant
                i <= K,
                colors@.len() == K,
                self.wf(),
                forall|j: StateIndex| j < K ==> !#[trigger] self.has_color(j),
                added == Seq::new(K as nat, |i: int| (i as usize, colors@[i])),
                builder.wf(),
                builder.spec_colors() == self.spec_colors() + added.take(i as int),
                builder.spec_default() == self.spec_default(),
                builder.spec_edges() == self.spec_edges(),
                builder.spec_symbols() == self.spec_symbols(),
            decreases K - i,
        {
            proof {
                if builder.has_color(i) {
                    let j = choose|j: int|
                        0 <= j < builder.spec_colors().len() && (#[trigger] builder.spec_colors()[j]).0
                            == i;
                    if j < self.spec_colors().len() {
                        assert(self.spec_colors()[j].0 == i);
                        assert(self.has_color(i));
                    } else {
                        assert(added[j - self.spec_colors().len()].0 == i);
                    }
                    assert(false);
                }
            }
            let ghost before = builder.spec_colors();
            builder = builder.color(i, colors[i]);
            proof {
                assert(added.take(i + 1) == added.take(i as int).push(added[i as int]));
                assert(self.spec_colors() + added.take(i + 1) =~= before.push(added[i as int]));
            }
            i += 1;
        }
        assert(added.take(K as int) == added);
        builder
    }

    /// Adds a list of edges, in the order in which they are given. An edge is
    /// a tuple of source, symbol, color and target; where the edges have no
    /// color, the color may be left out.
    pub fn with_edges<E: IntoEdgeTuple<C> + Copy, const K: usize>(self, edges: [E; K]) -> (builder:
        Self)
        ensures
            builder.spec_edges() == self.spec_edges() + Seq::new(
                K as nat,
                |i: int| edges@[i].spec_edge_tuple(),
            ),
            builder.spec_default() == self.spec_default(),
            builder.spec_colors() == self.spec_colors(),
            builder.spec_symbols() == self.spec_symbols(),
    {
        let mut builder = self;
        let mut i: usize = 0;
        let ghost added = Seq::new(K as nat, |i: int| edges@[i].spec_edge_tuple());
        while i < K
            invariant
                i <= K,
                edges@.len() == K,
                added == Seq::new(K as nat, |i: int| edges@[i].spec_edge_tuple()),
                builder.edges@ == self.edges@ + added.take(i as int),
                builder.default == self.default,
                builder.colors == self.colors,
                builder.symbols == self.symbols,
            decreases K - i,
        {
            let edge = edges[i].into_edge_tuple();
            builder.edges.push(edge);
            proof {
                assert(added.take(i + 1) == added.take(i as int).push(added[i as int]));
                assert(self.edges@ + added.take(i + 1) =~= (self.edges@ + added.take(i as int)).push(
                    added[i as int],
                ));
            }
            i += 1;
        }
        assert(added.take(K as int) == added);
        builder
    }

    /// Adds a list of transitions, in the order in which they are given. A
    /// transition is a tuple of source, symbol, color and target.
    pub fn with_transitions<E: IntoEdgeTuple<C> + Copy, const K: usize>(
        self,
        transitions: [E; K],
    ) -> (builder: Self)
        ensures
            builder.spec_edges() == self.spec_edges() + Seq::new(
                K as nat,
                |i: int| transitions@[i].spec_edge_tuple(),
            ),
            builder.spec_default() == self.spec_default(),
            builder.spec_colors() == self.spec_colors(),
            builder.spec_symbols() == self.spec_symbols(),
    {
        self.with_edges(transitions)
    }
}

/// The symbols of the first `upto` edges.
spec fn symbols_of<C>(edges: Seq<EdgeTuple<C>>, upto: int) -> Set<char> {
    Set::new(|sym: char| exists|j: int| 0 <= j < upto && (#[trigger] edges[j]).1 == sym)
}

impl<Q: Copy, C: Copy> TSBuilder<Q, C> {
    /// The color that the system built has for state `i`: the color that the
    /// state was given, or the default color.
    pub open spec fn color_of(&self, i: StateIndex) -> Q {
        if self.has_color(i) {
            let j = choose|j: int|
                0 <= j < self.spec_colors().len() && (#[trigger] self.spec_colors()[j]).0 == i;
            self.spec_colors()[j].1
        } else {
            self.spec_default().unwrap()
        }
    }

    /// `ts` is the system that the builder describes.
    pub open spec fn builds(&self, ts: &DTS<Q, C>) -> bool {
        &&& ts.wf()
        &&& ts.spec_size() == self.num_states()
        &&& ts.symbols().to_set() == self.all_symbols()
        &&& forall|i: int|
            0 <= i < self.num_states() ==> #[trigger] ts.spec_state_color(i) == self.color_of(
                i as usize,
            )
        &&& forall|j: int|
            0 <= j < self.spec_edges().len() ==> ts.spec_edge(
                (#[trigger] self.spec_edges()[j]).0 as int,
                self.spec_edges()[j].1,
            ) == Some((self.spec_edges()[j].2, self.spec_edges()[j].3 as int))
        &&& forall|q: int, sym: char|
            (#[trigger] ts.spec_edge(q, sym)).is_some() ==> exists|j: int|
                0 <= j < self.spec_edges().len() && (#[trigger] self.spec_edges()[j]).0 == q
                    && self.spec_edges()[j].1 == sym
    }

    /// The sources and targets of the edges.
    fn collect_endpoints(&self) -> (ids: Vec<StateIndex>)
        ensures
            ids@ == endpoints(self.spec_edges()),
    {
        let mut ids: Vec<StateIndex> = Vec::new();
        let mut j: usize = 0;
        assert(self.edges@.take(0) =~= Seq::empty());
        while j < self.edges.len()
            invariant
                j <= self.edges@.len(),
                ids@ == endpoints(self.edges@.take(j as int)),
            decreases self.edges@.len() - j,
        {
            let edge = self.edges[j];
            ids.push(edge.3);
            ids.push(edge.0);
            proof {
                let next = self.edges@.take(j + 1);
                assert(next.drop_last() =~= self.edges@.take(j as int));
                assert(next.last() == self.edges@[j as int]);
            }
            j += 1;
        }
        assert(self.edges@.take(self.edges@.len() as int) =~= self.edges@);
        ids
    }

    /// The alphabet of the symbols of the edges and of those that were added.
    fn collect_alphabet(&self) -> (alphabet: CharAlphabet)
        ensures
            alphabet.wf(),
            alphabet@.to_set() == self.all_symbols(),
    {
        let mut alphabet = CharAlphabet::from_chars(&self.symbols);
        let mut j: usize = 0;
        assert(alphabet@.to_set() =~= self.symbols@.to_set().union(symbols_of(self.edges@, 0)));
        while j < self.edges.len()
            invariant
                j <= self.edges@.len(),
                alphabet.wf(),
                alphabet@.to_set() == self.symbols@.to_set().union(
                    symbols_of(self.edges@, j as int),
                ),
            decreases self.edges@.len() - j,
        {
            let sym = self.edges[j].1;
            alphabet.insert(sym);
            proof {
                assert(symbols_of(self.edges@, j + 1) =~= symbols_of(self.edges@, j as int).insert(
                    sym,
                )) by {
                    assert forall|x: char| symbols_of(self.edges@, j + 1).contains(x) implies symbols_of(
                        self.edges@,
                        j as int,
                    ).insert(sym).contains(x) by {
                        let i = choose|i: int| 0 <= i < j + 1 && (#[trigger] self.edges@[i]).1 == x;
                        if i < j {
                            assert(symbols_of(self.edges@, j as int).contains(x));
                        }
                    }
                    assert(self.edges@[j as int].1 == sym);
                    assert forall|x: char|
                        symbols_of(self.edges@, j as int).insert(sym).contains(
                            x,
                        ) implies symbols_of(self.edges@, j + 1).contains(x) by {
                        if x != sym {
                            let i = choose|i: int| 0 <= i < j && (#[trigger] self.edges@[i]).1 == x;
                            assert(0 <= i < j + 1);
                        }
                    }
                }
                assert(alphabet@.to_set() =~= self.symbols@.to_set().union(
                    symbols_of(self.edges@, j + 1),
                ));
            }
            j += 1;
        }
        assert(alphabet@.to_set() =~= self.all_symbols());
        alphabet
    }

    /// The color of state `i`: the color that it was given, or the default.
    fn find_color(&self, i: StateIndex) -> (color: Option<Q>)
        requires
            self.wf(),
        ensures
            match color {
                Some(c) => (self.has_color(i) || self.spec_default().is_some()) && c == self.color_of(
                    i,
                ),
                None => !self.has_color(i) && self.spec_default().is_none(),
            },
    {
        let mut j: usize = 0;
        while j < self.colors.len()
            invariant
                self.wf(),
                j <= self.colors@.len(),
                forall|l: int| 0 <= l < j ==> (#[trigger] self.colors@[l]).0 != i,
            decreases self.colors@.len() - j,
        {
            if self.colors[j].0 == i {
                proof {
                    assert(self.spec_colors()[j as int].0 == i);
                    assert(self.has_color(i));
                    let l = choose|l: int|
                        0 <= l < self.spec_colors().len() && (#[trigger] self.spec_colors()[l]).0 == i;
                    if l < j {
                        assert(self.colors@[l].0 != i);
                    } else if l > j {
                        assert(self.spec_colors()[j as int].0 != self.spec_colors()[l].0);
                    }
                }
                return Some(self.colors[j].1);
            }
            j += 1;
        }
        self.default
    }

    /// Whether a system can be built.
    pub fn is_buildable(&self) -> (b: bool)
        requires
            self.wf(),
        ensures
            b == self.can_build(),
    {
        let ids = self.collect_endpoints();
        let n = count_distinct(&ids);
        let mut i: usize = 0;
        while i < n
            invariant
                self.wf(),
                n == self.num_states(),
                i <= n,
                self.spec_default().is_none() ==> forall|l: StateIndex|
                    l < i ==> #[trigger] self.has_color(l),
            decreases n - i,
        {
            if self.find_color(i).is_none() {
                return false;
            }
            i += 1;
        }
        let mut j: usize = 0;
        while j < self.edges.len()
            invariant
                n == self.num_states(),
                j <= self.edges@.len(),
                forall|l: int|
                    0 <= l < j ==> (#[trigger] self.spec_edges()[l]).0 < n && self.spec_edges()[l].3
                        < n,
                forall|l: int, m: int|
                    0 <= l < m < j ==> !((#[trigger] self.spec_edges()[l]).0 == (
                    #[trigger] self.spec_edges()[m]).0 && self.spec_edges()[l].1
                        == self.spec_edges()[m].1),
            decreases self.edges@.len() - j,
        {
            let edge = self.edges[j];
            if edge.0 >= n || edge.3 >= n {
                return false;
            }
            let mut l: usize = 0;
            while l < j
                invariant
                    l <= j,
                    j < self.edges@.len(),
                    edge == self.spec_edges()[j as int],
                    forall|m: int|
                        0 <= m < l ==> !((#[trigger] self.spec_edges()[m]).0 == edge.0
                            && self.spec_edges()[m].1 == edge.1),
                decreases j - l,
            {
                let other = self.edges[l];
                if other.0 == edge.0 && other.1 == edge.1 {
                    return false;
                }
                l += 1;
            }
            j += 1;
        }
        true
    }

    /// Builds the deterministic transition system that the builder describes.
    /// Its states are the numbers below the number of different states that
    /// occur in the edges.
    pub fn into_dts(self) -> (ts: DTS<Q, C>)
        requires
            self.can_build(),
        ensures
            self.builds(&ts),
    {
        let alphabet = self.collect_alphabet();
        let ids = self.collect_endpoints();
        let n = count_distinct(&ids);
        let mut ts: DTS<Q, C> = DTS::for_alphabet(alphabet);
        let mut i: usize = 0;
        while i < n
            invariant
                self.can_build(),
                n == self.num_states(),
                i <= n,
                ts.wf(),
                ts.spec_size() == i,
                ts.symbols().to_set() == self.all_symbols(),
                forall|l: int|
                    0 <= l < i ==> #[trigger] ts.spec_state_color(l) == self.color_of(l as usize),
                forall|q: int, sym: char| (#[trigger] ts.spec_edge(q, sym)).is_none(),
            decreases n - i,
        {
            proof {
                if self.spec_default().is_none() {
                    assert(self.has_color(i));
                }
            }
            let color = match self.find_color(i) {
                Some(color) => color,
                None => vstd::pervasive::unreached(),
            };
            ts.add_state(color);
            i += 1;
        }
        let mut j: usize = 0;
        while j < self.edges.len()
            invariant
                self.can_build(),
                n == self.num_states(),
                j <= self.edges@.len(),
                ts.wf(),
                ts.spec_size() == n,
                ts.symbols().to_set() == self.all_symbols(),
                forall|l: int|
                    0 <= l < n ==> #[trigger] ts.spec_state_color(l) == self.color_of(l as usize),
                forall|l: int|
                    0 <= l < j ==> ts.spec_edge(
                        (#[trigger] self.spec_edges()[l]).0 as int,
                        self.spec_edges()[l].1,
                    ) == Some((self.spec_edges()[l].2, self.spec_edges()[l].3 as int)),
                forall|q: int, sym: char|
                    (#[trigger] ts.spec_edge(q, sym)).is_some() ==> exists|l: int|
                        0 <= l < j && (#[trigger] self.spec_edges()[l]).0 == q
                            && self.spec_edges()[l].1 == sym,
            decreases self.edges@.len() - j,
        {
            let (q, sym, c, p) = self.edges[j];
            let ghost before = ts;
            proof {
                assert(self.spec_edges()[j as int] == (q, sym, c, p));
                assert(self.all_symbols().contains(sym));
                assert(ts.symbols().to_set().contains(sym));
                if before.spec_edge(q as int, sym).is_some() {
                    let l = choose|l: int|
                        0 <= l < j && (#[trigger] self.spec_edges()[l]).0 == q
                            && self.spec_edges()[l].1 == sym;
                    assert(false);
                }
            }
            let overlap = ts.add_edge(q, sym, c, p);
            proof {
                assert(overlap.is_none());
                assert forall|l: int| 0 <= l < j + 1 implies ts.spec_edge(
                    (#[trigger] self.spec_edges()[l]).0 as int,
                    self.spec_edges()[l].1,
                ) == Some((self.spec_edges()[l].2, self.spec_edges()[l].3 as int)) by {
                    if l < j {
                        assert(!(self.spec_edges()[l].0 == self.spec_edges()[j as int].0
                            && self.spec_edges()[l].1 == self.spec_edges()[j as int].1));
                        assert(before.spec_edge(
                            self.spec_edges()[l].0 as int,
                            self.spec_edges()[l].1,
                        ) == Some((self.spec_edges()[l].2, self.spec_edges()[l].3 as int)));
                    }
                }
                assert forall|s: int, x: char| (#[trigger] ts.spec_edge(s, x)).is_some() implies exists|
                    l: int,
                |
                    0 <= l < j + 1 && (#[trigger] self.spec_edges()[l]).0 == s
                        && self.spec_edges()[l].1 == x by {
                    if s == q && x == sym {
                        assert(self.spec_edges()[j as int].0 == s);
                    } else {
                        assert(before.spec_edge(s, x).is_some());
                        let l = choose|l: int|
                            0 <= l < j && (#[trigger] self.spec_edges()[l]).0 == s
                                && self.spec_edges()[l].1 == x;
                        assert(0 <= l < j + 1);
                    }
                }
            }
            j += 1;
        }
        ts
    }

    /// Builds the deterministic transition system that the builder describes.
    pub fn into_ts(self) -> (ts: DTS<Q, C>)
        requires
            self.can_build(),
        ensures
            self.builds(&ts),
    {
        self.into_dts()
    }
}

impl<Q, C> Default for TSBuilder<Q, C> {
    fn default() -> (builder: Self)
        ensures
            builder.wf(),
            builder.spec_symbols().len() == 0,
            builder.spec_edges().len() == 0,
            builder.spec_colors().len() == 0,
            builder.spec_default().is_none(),
    {
        TSBuilder::new()
    }
}

impl<C> TSBuilder<Void, C> {
    /// Creates an empty instance in which states are uncolored.
    pub fn without_state_colors() -> (builder: Self)
        ensures
            builder.wf(),
            builder.spec_symbols().len() == 0,
            builder.spec_edges().len() == 0,
            builder.spec_colors().len() == 0,
            builder.spec_default() == Some(Void),
    {
        TSBuilder { symbols: Vec::new(), edges: Vec::new(), default: Some(Void), colors: Vec::new() }
    }
}

impl<Q> TSBuilder<Q, Void> {
    /// Creates an empty instance in which edges are uncolored.
    pub fn without_edge_colors() -> (builder: Self)
        ensures
            builder.wf(),
            builder.spec_symbols().len() == 0,
            builder.spec_edges().len() == 0,
            builder.spec_colors().len() == 0,
            builder.spec_default().is_none(),
    {
        TSBuilder { symbols: Vec::new(), edges: Vec::new(), default: None, colors: Vec::new() }
    }
}

impl TSBuilder<Void, Void> {
    /// Creates an empty instance in which neither states nor edges have a
    /// color.
    pub fn without_colors() -> (builder: Self)
        ensures
            builder.wf(),
            builder.spec_symbols().len() == 0,
            builder.spec_edges().len() == 0,
            builder.spec_colors().len() == 0,
            builder.spec_default() == Some(Void),
    {
        TSBuilder { symbols: Vec::new(), edges: Vec::new(), default: Some(Void), colors: Vec::new() }
    }
}

impl<Q: Copy, C: Copy> TSBuilder<Q, C> {
    /// Builds the system and sets the given `initial` state as its designated
    /// initial state.
    pub fn into_dts_with_initial(self, initial: StateIndex) -> (pointed: RightCongruence<Q, C>)
        requires
            self.can_build(),
            initial < self.num_states(),
        ensures
            pointed.wf(),
            pointed.spec_initial() == initial,
            self.builds(pointed.spec_ts()),
    {
        Automaton::from_parts_with_acceptance(self.into_dts(), initial, WithoutCondition)
    }

    /// Turns `self` into a right congruence with the given initial state.
    pub fn into_right_congruence(self, initial: StateIndex) -> (cong: RightCongruence<Q, C>)
        requires
            self.can_build(),
            initial < self.num_states(),
        ensures
            cong.wf(),
            cong.spec_initial() == initial,
            self.builds(cong.spec_ts()),
    {
        self.into_dts_with_initial(initial)
    }

    /// Turns `self` into a right congruence with the given initial state while
    /// also erasing all state and edge colors.
    pub fn into_right_congruence_bare(self, initial: StateIndex) -> (cong: RightCongruence)
        requires
            self.can_build(),
            initial < self.num_states(),
        ensures
            cong.wf(),
            cong.spec_initial() == initial,
            cong.spec_ts().spec_size() == self.num_states(),
            cong.spec_ts().symbols().to_set() == self.all_symbols(),
            forall|j: int|
                0 <= j < self.spec_edges().len() ==> cong.spec_ts().spec_successor(
                    (#[trigger] self.spec_edges()[j]).0 as int,
                    self.spec_edges()[j].1,
                ) == Some(self.spec_edges()[j].3 as int),
            forall|q: int, sym: char|
                (#[trigger] cong.spec_ts().spec_edge(q, sym)).is_some() ==> exists|j: int|
                    0 <= j < self.spec_edges().len() && (#[trigger] self.spec_edges()[j]).0 == q
                        && self.spec_edges()[j].1 == sym,
    {
        let ts = self.into_dts();
        let forget_state = |color: &Q| -> (erased: Void)
            ensures
                erased == Void,
            { Void };
        let forget_edge = |color: C| -> (erased: Void)
            ensures
                erased == Void,
            { Void };
        let bare = ts.map_colors(&forget_state, &forget_edge);
        proof {
            assert forall|j: int| 0 <= j < self.spec_edges().len() implies bare.spec_successor(
                (#[trigger] self.spec_edges()[j]).0 as int,
                self.spec_edges()[j].1,
            ) == Some(self.spec_edges()[j].3 as int) by {
                let e = bare.spec_edge(self.spec_edges()[j].0 as int, self.spec_edges()[j].1);
            }
            assert forall|q: int, sym: char| (#[trigger] bare.spec_edge(q, sym)).is_some() implies exists|
                j: int,
            |
                0 <= j < self.spec_edges().len() && (#[trigger] self.spec_edges()[j]).0 == q
                    && self.spec_edges()[j].1 == sym by {
                assert(ts.spec_edge(q, sym).is_some());
            }
        }
        Automaton::from_parts_with_acceptance(bare, initial, WithoutCondition)
    }
}

impl TSBuilder<bool, Void> {
    /// Turns `self` into a deterministic finite automaton with the given
    /// initial state.
    pub fn into_dfa(self, initial: StateIndex) -> (dfa: DFA)
        requires
            self.can_build(),
            initial < self.num_states(),
        ensures
            dfa.wf(),
            dfa.spec_initial() == initial,
            self.builds(dfa.spec_ts()),
    {
        Automaton::from_parts_with_acceptance(self.into_dts(), initial, ReachabilityCondition)
    }
}

impl TSBuilder<Void, bool> {
    /// Turns `self` into a deterministic Büchi automaton with the given
    /// initial state. States need no color.
    pub fn into_dba(self, initial: StateIndex) -> (dba: DBA)
        requires
            self.edges_ok(),
            initial < self.num_states(),
        ensures
            dba.wf(),
            dba.spec_initial() == initial,
            self.with_default(Void).builds(dba.spec_ts()),
    {
        proof {
            self.lemma_with_default(Void);
        }
        let ts = self.default_color(Void).into_dts();
        Automaton::from_parts_with_acceptance(ts, initial, BuchiCondition)
    }
}

impl TSBuilder<Void, Int> {
    /// Turns `self` into a deterministic parity automaton with the given
    /// initial state. States need no color.
    pub fn into_dpa(self, initial: StateIndex) -> (dpa: DPA)
        requires
            self.edges_ok(),
            initial < self.num_states(),
        ensures
            dpa.wf(),
            dpa.spec_initial() == initial,
            self.with_default(Void).builds(dpa.spec_ts()),
    {
        proof {
            self.lemma_with_default(Void);
        }
        let ts = self.default_color(Void).into_dts();
        Automaton::from_parts_with_acceptance(ts, initial, MinEvenParityCondition)
    }

    /// Builds a machine with outputs on its edges, with the given initial
    /// state. States need no color.
    pub fn into_mealy(self, initial: StateIndex) -> (mealy: MealyMachine)
        requires
            self.edges_ok(),
            initial < self.num_states(),
        ensures
            mealy.wf(),
            mealy.spec_initial() == initial,
            self.with_default(Void).builds(mealy.spec_ts()),
    {
        proof {
            self.lemma_with_default(Void);
        }
        let ts = self.default_color(Void).into_dts();
        Automaton::from_parts_with_acceptance(ts, initial, MealySemantics)
    }
}

impl TSBuilder<Int, Void> {
    /// Builds a machine with outputs on its states, with the given initial
    /// state.
    pub fn into_moore(self, initial: StateIndex) -> (moore: MooreMachine)
        requires
            self.can_build(),
            initial < self.num_states(),
        ensures
            moore.wf(),
            moore.spec_initial() == initial,
            self.builds(moore.spec_ts()),
    {
        Automaton::from_parts_with_acceptance(self.into_dts(), initial, MooreSemantics)
    }
}

impl<Q, C> DTS<Q, C> {
    /// Instantiates a new builder for systems with the colors of `Self`.
    pub fn builder() -> (builder: TSBuilder<Q, C>)
        ensures
            builder.wf(),
            builder.spec_symbols().len() == 0,
            builder.spec_edges().len() == 0,
            builder.spec_colors().len() == 0,
            builder.spec_default().is_none(),
    {
        TSBuilder::new()
    }
}

impl<Z, Q, C, const OMEGA: bool> Automaton<Z, Q, C, OMEGA> {
    /// Instantiates a new builder for the edge and state color of `Self`.
    pub fn builder() -> (builder: TSBuilder<Q, C>)
        ensures
            builder.wf(),
            builder.spec_symbols().len() == 0,
            builder.spec_edges().len() == 0,
            builder.spec_colors().len() == 0,
            builder.spec_default().is_none(),
    {
        TSBuilder::new()
    }
}

} // verus!
