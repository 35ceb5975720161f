//! Transition systems whose colors are mapped by a function.
use crate::ts::builder::EdgeTuple;
use crate::ts::edges::{EdgesFrom, EdgesTo};
use crate::ts::{StateIndex, DTS};
use std::marker::PhantomData;
use vstd::prelude::*;

verus! {

/// A transition system in which the color of every edge is computed from the
/// edge of a given transition system: from its source, its symbol, its color
/// and its target.
pub struct MapEdges<Ts, F> {
    ts: Ts,
    f: F,
}

impl<Ts, F> MapEdges<Ts, F> {
    /// The underlying transition system.
    pub closed spec fn spec_ts(&self) -> Ts {
        self.ts
    }

    /// The function with which the edges are mapped.
    pub closed spec fn spec_f(&self) -> F {
        self.f
    }

    /// Creates a new instance.
    pub fn new(ts: Ts, f: F) -> (mapped: Self)
        ensures
            mapped.spec_ts() == ts,
            mapped.spec_f() == f,
    {
        MapEdges { ts, f }
    }

    /// Returns a reference to the function with which the edges are mapped.
    pub fn f(&self) -> (f: &F)
        ensures
            *f == self.spec_f(),
    {
        &self.f
    }

    /// Returns a reference to the underlying transition system.
    pub fn ts(&self) -> (ts: &Ts)
        ensures
            *ts == self.spec_ts(),
    {
        &self.ts
    }

    /// Decomposes `self` into the transition system and the function.
    pub fn into_parts(self) -> (parts: (Ts, F))
        ensures
            parts.0 == self.spec_ts(),
            parts.1 == self.spec_f(),
    {
        (self.ts, self.f)
    }
}

/// An edge whose color is computed from its source, its symbol, its color and
/// its target.
pub struct MappedEdge<Idx, T, F, C> {
    transition: T,
    from: Idx,
    f: F,
    _old_color: PhantomData<C>,
}

impl<Idx, T, F, C> MappedEdge<Idx, T, F, C> {
    /// The edge that is mapped.
    pub closed spec fn spec_transition(&self) -> T {
        self.transition
    }

    /// The source of the edge.
    pub closed spec fn spec_from(&self) -> Idx {
        self.from
    }

    /// The function that computes the color.
    pub closed spec fn spec_f(&self) -> F {
        self.f
    }

    /// Creates a new mapped edge.
    pub fn new(transition: T, from: Idx, f: F) -> (edge: Self)
        ensures
            edge.spec_transition() == transition,
            edge.spec_from() == from,
            edge.spec_f() == f,
    {
        MappedEdge { transition, from, f, _old_color: PhantomData }
    }
}

impl<C: Copy, D, F: Fn(StateIndex, char, C, StateIndex) -> D> MappedEdge<
    StateIndex,
    EdgeTuple<C>,
    F,
    C,
> {
    /// Returns the source of the edge.
    pub fn source(&self) -> (q: StateIndex)
        ensures
            q == self.spec_from(),
    {
        self.from
    }

    /// Returns the target of the edge.
    pub fn target(&self) -> (p: StateIndex)
        ensures
            p == self.spec_transition().3,
    {
        self.transition.3
    }

    /// Returns the symbol of the edge.
    pub fn expression(&self) -> (sym: char)
        ensures
            sym == self.spec_transition().1,
    {
        self.transition.1
    }

    /// Returns the color that the function computes for the edge.
    pub fn color(&self) -> (color: D)
        requires
            call_requires(
                self.spec_f(),
                (
                    self.spec_from(),
                    self.spec_transition().1,
                    self.spec_transition().2,
                    self.spec_transition().3,
                ),
            ),
        ensures
            call_ensures(
                self.spec_f(),
                (
                    self.spec_from(),
                    self.spec_transition().1,
                    self.spec_transition().2,
                    self.spec_transition().3,
                ),
                color,
            ),
    {
        (self.f)(self.from, self.transition.1, self.transition.2, self.transition.3)
    }
}

/// The counterpart of [`MappedEdge`] for an edge that is seen from its target.
pub struct MappedPreEdge<Idx, T, F, C> {
    pre_transition: T,
    f: F,
    target: Idx,
    _old_color: PhantomData<C>,
}

impl<Idx, T, F, C> MappedPreEdge<Idx, T, F, C> {
    /// The edge that is mapped.
    pub closed spec fn spec_pre_transition(&self) -> T {
        self.pre_transition
    }

    /// The target of the edge.
    pub closed spec fn spec_target(&self) -> Idx {
        self.target
    }

    /// The function that computes the color.
    pub closed spec fn spec_f(&self) -> F {
        self.f
    }

    /// Creates a new mapped edge.
    pub fn new(pre_transition: T, target: Idx, f: F) -> (edge: Self)
        ensures
            edge.spec_pre_transition() == pre_transition,
            edge.spec_target() == target,
            edge.spec_f() == f,
    {
        MappedPreEdge { pre_transition, f, target, _old_color: PhantomData }
    }
}

impl<C: Copy, D, F: Fn(StateIndex, char, C, StateIndex) -> D> MappedPreEdge<
    StateIndex,
    EdgeTuple<C>,
    F,
    C,
> {
    /// Returns the source of the edge.
    pub fn source(&self) -> (q: StateIndex)
        ensures
            q == self.spec_pre_transition().0,
    {
        self.pre_transition.0
    }

    /// Returns the target of the edge.
    pub fn target(&self) -> (p: StateIndex)
        ensures
            p == self.spec_target(),
    {
        self.target
    }

    /// Returns the color that the function computes for the edge.
    pub fn color(&self) -> (color: D)
        requires
            call_requires(
                self.spec_f(),
                (
                    self.spec_pre_transition().0,
                    self.spec_pre_transition().1,
                    self.spec_pre_transition().2,
                    self.spec_target(),
                ),
            ),
        ensures
            call_ensures(
                self.spec_f(),
                (
                    self.spec_pre_transition().0,
                    self.spec_pre_transition().1,
                    self.spec_pre_transition().2,
                    self.spec_target(),
                ),
                color,
            ),
    {
        (self.f)(self.pre_transition.0, self.pre_transition.1, self.pre_transition.2, self.target)
    }
}

/// A transition system in which the color of every edge is computed from the
/// color of the edge of a given transition system.
pub struct MapEdgeColor<Ts, F> {
    ts: Ts,
    f: F,
}

impl<Ts, F> MapEdgeColor<Ts, F> {
    /// The underlying transition system.
    pub closed spec fn spec_ts(&self) -> Ts {
        self.ts
    }

    /// The function with which the colors are mapped.
    pub closed spec fn spec_f(&self) -> F {
        self.f
    }

    /// Creates a new instance.
    pub fn new(ts: Ts, f: F) -> (mapped: Self)
        ensures
            mapped.spec_ts() == ts,
            mapped.spec_f() == f,
    {
        MapEdgeColor { ts, f }
    }

    /// Returns a reference to the function with which the colors are mapped.
    pub fn f(&self) -> (f: &F)
        ensures
            *f == self.spec_f(),
    {
        &self.f
    }

    /// Returns a reference to the underlying transition system.
    pub fn ts(&self) -> (ts: &Ts)
        ensures
            *ts == self.spec_ts(),
    {
        &self.ts
    }

    /// Decomposes `self` into the transition system and the function.
    pub fn into_parts(self) -> (parts: (Ts, F))
        ensures
            parts.0 == self.spec_ts(),
            parts.1 == self.spec_f(),
    {
        (self.ts, self.f)
    }
}

/// An edge whose color is computed from its color.
pub struct MappedTransition<T, F, C> {
    transition: T,
    f: F,
    _old_color: PhantomData<C>,
}

impl<T, F, C> MappedTransition<T, F, C> {
    /// The edge that is mapped.
    pub closed spec fn spec_transition(&self) -> T {
        self.transition
    }

    /// The function that computes the color.
    pub closed spec fn spec_f(&self) -> F {
        self.f
    }

    /// Creates a new mapped edge.
    pub fn new(transition: T, f: F) -> (edge: Self)
        ensures
            edge.spec_transition() == transition,
            edge.spec_f() == f,
    {
        MappedTransition { transition, f, _old_color: PhantomData }
    }
}

impl<C: Copy, D, F: Fn(C) -> D> MappedTransition<EdgeTuple<C>, F, C> {
    /// Returns the source of the edge.
    pub fn source(&self) -> (q: StateIndex)
        ensures
            q == self.spec_transition().0,
    {
        self.transition.0
    }

    /// Returns the target of the edge.
    pub fn target(&self) -> (p: StateIndex)
        ensures
            p == self.spec_transition().3,
    {
        self.transition.3
    }

    /// Returns the symbol of the edge.
    pub fn expression(&self) -> (sym: char)
        ensures
            sym == self.spec_transition().1,
    {
        self.transition.1
    }

    /// Returns the color that the function computes for the edge.
    pub fn color(&self) -> (color: D)
        requires
            call_requires(self.spec_f(), (self.spec_transition().2,)),
        ensures
            call_ensures(self.spec_f(), (self.spec_transition().2,), color),
    {
        (self.f)(self.transition.2)
    }
}

/// The counterpart of [`MappedTransition`] for an edge that is seen from its
/// target.
pub struct MappedPreTransition<T, F, C> {
    pre_transition: T,
    f: F,
    _old_color: PhantomData<C>,
}

impl<T, F, C> MappedPreTransition<T, F, C> {
    /// The edge that is mapped.
    pub closed spec fn spec_pre_transition(&self) -> T {
        self.pre_transition
    }

    /// The function that computes the color.
    pub closed spec fn spec_f(&self) -> F {
        self.f
    }

    /// Creates a new mapped edge.
    pub fn new(pre_transition: T, f: F) -> (edge: Self)
        ensures
            edge.spec_pre_transition() == pre_transition,
            edge.spec_f() == f,
    {
        MappedPreTransition { pre_transition, f, _old_color: PhantomData }
    }
}

impl<C: Copy, D, F: Fn(C) -> D> MappedPreTransition<EdgeTuple<C>, F, C> {
    /// Returns the source of the edge.
    pub fn source(&self) -> (q: StateIndex)
        ensures
            q == self.spec_pre_transition().0,
    {
        self.pre_transition.0
    }

    /// Returns the target of the edge.
    pub fn target(&self) -> (p: StateIndex)
        ensures
            p == self.spec_pre_transition().3,
    {
        self.pre_transition.3
    }

    /// Returns the color that the function computes for the edge.
    pub fn color(&self) -> (color: D)
        requires
            call_requires(self.spec_f(), (self.spec_pre_transition().2,)),
        ensures
            call_ensures(self.spec_f(), (self.spec_pre_transition().2,), color),
    {
        (self.f)(self.pre_transition.2)
    }
}

/// A transition system in which the color of every state is computed from the
/// color of the state of a given transition system.
pub struct MapStateColor<Ts, F> {
    ts: Ts,
    f: F,
}

impl<Ts, F> MapStateColor<Ts, F> {
    /// The underlying transition system.
    pub closed spec fn spec_ts(&self) -> Ts {
        self.ts
    }

    /// The function with which the colors are mapped.
    pub closed spec fn spec_f(&self) -> F {
        self.f
    }

    /// Creates a new instance.
    pub fn new(ts: Ts, f: F) -> (mapped: Self)
        ensures
            mapped.spec_ts() == ts,
            mapped.spec_f() == f,
    {
        MapStateColor { ts, f }
    }

    /// Returns a reference to the underlying transition system.
    pub fn ts(&self) -> (ts: &Ts)
        ensures
            *ts == self.spec_ts(),
    {
        &self.ts
    }

    /// Decomposes `self` into the transition system and the function.
    pub fn into_parts(self) -> (parts: (Ts, F))
        ensures
            parts.0 == self.spec_ts(),
            parts.1 == self.spec_f(),
    {
        (self.ts, self.f)
    }

    /// Returns a reference to the function with which the colors are mapped.
    pub fn f(&self) -> (f: &F)
        ensures
            *f == self.spec_f(),
    {
        &self.f
    }
}

impl<Q, C: Copy, D, F: Fn(&Q) -> D> MapStateColor<DTS<Q, C>, F> {
    /// Returns the color that the function computes for state `q`, or `None`
    /// if there is no such state.
    pub fn state_color(&self, q: StateIndex) -> (color: Option<D>)
        requires
            q < self.spec_ts().spec_size() ==> call_requires(
                self.spec_f(),
                (&self.spec_ts().spec_state_color(q as int),),
            ),
        ensures
            match color {
                Some(d) => q < self.spec_ts().spec_size() && call_ensures(
                    self.spec_f(),
                    (&self.spec_ts().spec_state_color(q as int),),
                    d,
                ),
                None => q >= self.spec_ts().spec_size(),
            },
    {
        match self.ts.state_color(q) {
            Some(c) => Some((self.f)(c)),
            None => None,
        }
    }

    /// Returns the edge that leaves `q` on `sym`, which is that of the
    /// underlying transition system.
    pub fn edge(&self, q: StateIndex, sym: char) -> (e: Option<(C, StateIndex)>)
        requires
            self.spec_ts().wf(),
        ensures
            match e {
                Some((c, t)) => self.spec_ts().spec_edge(q as int, sym) == Some((c, t as int)),
                None => self.spec_ts().spec_edge(q as int, sym).is_none(),
            },
    {
        self.ts.edge(q, sym)
    }
}

impl<Q, C: Copy, D, F: Fn(C) -> D> MapEdgeColor<DTS<Q, C>, F> {
    /// Returns the color of state `q`, which is that of the underlying
    /// transition system.
    pub fn state_color(&self, q: StateIndex) -> (color: Option<&Q>)
        ensures
            match color {
                Some(c) => q < self.spec_ts().spec_size() && *c == self.spec_ts().spec_state_color(
                    q as int,
                ),
                None => q >= self.spec_ts().spec_size(),
            },
    {
        self.ts.state_color(q)
    }

    /// Returns the edge that leaves `q` on `sym`, with the color that the
    /// function computes for it.
    pub fn edge(&self, q: StateIndex, sym: char) -> (e: Option<MappedTransition<EdgeTuple<C>, &F, C>>)
        requires
            self.spec_ts().wf(),
        ensures
            match e {
                Some(m) => self.spec_ts().spec_edge(q as int, sym) == Some(
                    (m.spec_transition().2, m.spec_transition().3 as int),
                ) && m.spec_transition().0 == q && m.spec_transition().1 == sym && *m.spec_f()
                    == self.spec_f(),
                None => self.spec_ts().spec_edge(q as int, sym).is_none(),
            },
    {
        match self.ts.edge(q, sym) {
            Some((c, t)) => Some(MappedTransition::new((q, sym, c, t), &self.f)),
            None => None,
        }
    }
}

impl<Q, C: Copy, D, F: Fn(StateIndex, char, C, StateIndex) -> D> MapEdges<DTS<Q, C>, F> {
    /// Returns the edge that leaves `q` on `sym`, with the color that the
    /// function computes for it.
    pub fn edge(&self, q: StateIndex, sym: char) -> (e: Option<
        MappedEdge<StateIndex, EdgeTuple<C>, &F, C>,
    >)
        requires
            self.spec_ts().wf(),
        ensures
            match e {
                Some(m) => self.spec_ts().spec_edge(q as int, sym) == Some(
                    (m.spec_transition().2, m.spec_transition().3 as int),
                ) && m.spec_from() == q && m.spec_transition().1 == sym && *m.spec_f()
                    == self.spec_f(),
                None => self.spec_ts().spec_edge(q as int, sym).is_none(),
            },
    {
        match self.ts.edge(q, sym) {
            Some((c, t)) => Some(MappedEdge::new((q, sym, c, t), q, &self.f)),
            None => None,
        }
    }
}

/// Walks through the edges that leave a state, each with its color mapped by a
/// function of the color.
pub struct MappedEdgesFromIter<'a, I, F, C> {
    it: I,
    f: &'a F,
    _old_color: PhantomData<C>,
}

impl<'a, I, F, C> MappedEdgesFromIter<'a, I, F, C> {
    /// The walk that is mapped.
    pub closed spec fn spec_it(&self) -> I {
        self.it
    }

    /// The function that computes the colors.
    pub closed spec fn spec_f(&self) -> &F {
        self.f
    }

    /// Creates a new instance.
    pub fn new(it: I, f: &'a F) -> (mapped: Self)
        ensures
            mapped.spec_it() == it,
            mapped.spec_f() == f,
    {
        MappedEdgesFromIter { it, f, _old_color: PhantomData }
    }
}

impl<'a, 'b, Q, C: Copy, D, F: Fn(C) -> D> MappedEdgesFromIter<'a, EdgesFrom<'b, Q, C>, F, C> {
    /// Returns the next edge, or `None` when no edge is left.
    pub fn next(&mut self) -> (edge: Option<MappedTransition<EdgeTuple<C>, &'a F, C>>)
        requires
            old(self).spec_it().spec_ts().wf(),
            old(self).spec_it().spec_state() < old(self).spec_it().spec_ts().spec_size(),
        ensures
            final(self).spec_f() == old(self).spec_f(),
            match edge {
                Some(m) => old(self).spec_it().steps_to(m.spec_transition(), &final(self).spec_it())
                    && m.spec_f() == old(self).spec_f(),
                None => old(self).spec_it().exhausted() && final(self).spec_it() == old(
                    self,
                ).spec_it(),
            },
    {
        match self.it.next() {
            Some(e) => Some(MappedTransition::new(e, self.f)),
            None => None,
        }
    }
}

/// Walks through the edges that lead to a state, each with its color mapped by
/// a function of the color.
pub struct MappedTransitionsToIter<'a, I, F, C> {
    it: I,
    f: &'a F,
    _old_color: PhantomData<C>,
}

impl<'a, I, F, C> MappedTransitionsToIter<'a, I, F, C> {
    /// The walk that is mapped.
    pub closed spec fn spec_it(&self) -> I {
        self.it
    }

    /// The function that computes the colors.
    pub closed spec fn spec_f(&self) -> &F {
        self.f
    }

    /// Creates a new instance.
    pub fn new(it: I, f: &'a F) -> (mapped: Self)
        ensures
            mapped.spec_it() == it,
            mapped.spec_f() == f,
    {
        MappedTransitionsToIter { it, f, _old_color: PhantomData }
    }
}

impl<'a, 'b, Q, C: Copy, D, F: Fn(C) -> D> MappedTransitionsToIter<'a, EdgesTo<'b, Q, C>, F, C> {
    /// Returns the next edge, or `None` when no edge is left.
    pub fn next(&mut self) -> (edge: Option<MappedPreTransition<EdgeTuple<C>, &'a F, C>>)
        requires
            old(self).spec_it().spec_ts().wf(),
        ensures
            final(self).spec_f() == old(self).spec_f(),
            match edge {
                Some(m) => old(self).spec_it().steps_to(
                    m.spec_pre_transition(),
                    &final(self).spec_it(),
                ) && m.spec_f() == old(self).spec_f(),
                None => old(self).spec_it().exhausted(),
            },
    {
        match self.it.next() {
            Some(e) => Some(MappedPreTransition::new(e, self.f)),
            None => None,
        }
    }
}

/// Walks through the edges that leave a state, each with its color mapped by a
/// function of the whole edge.
pub struct MapEdgesSuccessorsIter<'a, Idx, I, F, C> {
    it: I,
    source: Idx,
    f: &'a F,
    _old_color: PhantomData<C>,
}

impl<'a, Idx, I, F, C> MapEdgesSuccessorsIter<'a, Idx, I, F, C> {
    /// The walk that is mapped.
    pub closed spec fn spec_it(&self) -> I {
        self.it
    }

    /// The function that computes the colors.
    pub closed spec fn spec_f(&self) -> &F {
        self.f
    }

    /// The state that all edges share.
    pub closed spec fn spec_source(&self) -> Idx {
        self.source
    }

    /// Creates a new instance.
    pub fn new(it: I, source: Idx, f: &'a F) -> (mapped: Self)
        ensures
            mapped.spec_it() == it,
            mapped.spec_f() == f,
            mapped.spec_source() == source,
    {
        MapEdgesSuccessorsIter { it, source, f, _old_color: PhantomData }
    }
}

impl<'a, 'b, Q, C: Copy, D, F: Fn(StateIndex, char, C, StateIndex) -> D> MapEdgesSuccessorsIter<
    'a,
    StateIndex,
    EdgesFrom<'b, Q, C>,
    F,
    C,
> {
    /// Returns the next edge, or `None` when no edge is left.
    pub fn next(&mut self) -> (edge: Option<MappedEdge<StateIndex, EdgeTuple<C>, &'a F, C>>)
        requires
            old(self).spec_it().spec_ts().wf(),
            old(self).spec_it().spec_state() < old(self).spec_it().spec_ts().spec_size(),
        ensures
            final(self).spec_f() == old(self).spec_f(),
            final(self).spec_source() == old(self).spec_source(),
            match edge {
                Some(m) => old(self).spec_it().steps_to(m.spec_transition(), &final(self).spec_it())
                    && m.spec_f() == old(self).spec_f() && m.spec_from() == old(self).spec_source(),
                None => old(self).spec_it().exhausted() && final(self).spec_it() == old(
                    self,
                ).spec_it(),
            },
    {
        match self.it.next() {
            Some(e) => Some(MappedEdge::new(e, self.source, self.f)),
            None => None,
        }
    }
}

/// Walks through the edges that lead to a state, each with its color mapped by
/// a function of the whole edge.
pub struct MappedEdgesToIter<'a, Idx, I, F, C> {
    it: I,
    target: Idx,
    f: &'a F,
    _old_color: PhantomData<C>,
}

impl<'a, Idx, I, F, C> MappedEdgesToIter<'a, Idx, I, F, C> {
    /// The walk that is mapped.
    pub closed spec fn spec_it(&self) -> I {
        self.it
    }

    /// The function that computes the colors.
    pub closed spec fn spec_f(&self) -> &F {
        self.f
    }

    /// The state that all edges share.
    pub closed spec fn spec_target(&self) -> Idx {
        self.target
    }

    /// Creates a new instance.
    pub fn new(it: I, target: Idx, f: &'a F) -> (mapped: Self)
        ensures
            mapped.spec_it() == it,
            mapped.spec_f() == f,
            mapped.spec_target() == target,
    {
        MappedEdgesToIter { it, target, f, _old_color: PhantomData }
    }
}

impl<'a, 'b, Q, C: Copy, D, F: Fn(StateIndex, char, C, StateIndex) -> D> MappedEdgesToIter<
    'a,
    StateIndex,
    EdgesTo<'b, Q, C>,
    F,
    C,
> {
    /// Returns the next edge, or `None` when no edge is left.
    pub fn next(&mut self) -> (edge: Option<MappedPreEdge<StateIndex, EdgeTuple<C>, &'a F, C>>)
        requires
            old(self).spec_it().spec_ts().wf(),
        ensures
            final(self).spec_f() == old(self).spec_f(),
            final(self).spec_target() == old(self).spec_target(),
            match edge {
                Some(m) => old(self).spec_it().steps_to(
                    m.spec_pre_transition(),
                    &final(self).spec_it(),
                ) && m.spec_f() == old(self).spec_f() && m.spec_target() == old(self).spec_target(),
                None => old(self).spec_it().exhausted(),
            },
    {
        match self.it.next() {
            Some(e) => Some(MappedPreEdge::new(e, self.target, self.f)),
            None => None,
        }
    }
}

impl<Q, C: Copy, D, F: Fn(C) -> D> MapEdgeColor<DTS<Q, C>, F> {
    /// Returns a walk through the edges that leave `state`, each with the
    /// color that the function computes for it, or `None` if there is no such
    /// state.
    pub fn edges_from(&self, state: StateIndex) -> (edges: Option<
        MappedEdgesFromIter<'_, EdgesFrom<'_, Q, C>, F, C>,
    >)
        ensures
            match edges {
                Some(e) => state < self.spec_ts().spec_size() && *e.spec_it().spec_ts()
                    == self.spec_ts() && e.spec_it().spec_state() == state
                    && e.spec_it().spec_position() == 0 && *e.spec_f() == self.spec_f(),
                None => state >= self.spec_ts().spec_size(),
            },
    {
        match self.ts.edges_from(state) {
            Some(it) => Some(MappedEdgesFromIter::new(it, &self.f)),
            None => None,
        }
    }
}

impl<Q, C: Copy, D, F: Fn(StateIndex, char, C, StateIndex) -> D> MapEdges<DTS<Q, C>, F> {
    /// Returns a walk through the edges that leave `state`, each with the
    /// color that the function computes for it, or `None` if there is no such
    /// state.
    pub fn edges_from(&self, state: StateIndex) -> (edges: Option<
        MapEdgesSuccessorsIter<'_, StateIndex, EdgesFrom<'_, Q, C>, F, C>,
    >)
        ensures
            match edges {
                Some(e) => state < self.spec_ts().spec_size() && *e.spec_it().spec_ts()
                    == self.spec_ts() && e.spec_it().spec_state() == state
                    && e.spec_it().spec_position() == 0 && *e.spec_f() == self.spec_f()
                    && e.spec_source() == state,
                None => state >= self.spec_ts().spec_size(),
            },
    {
        match self.ts.edges_from(state) {
            Some(it) => Some(MapEdgesSuccessorsIter::new(it, state, &self.f)),
            None => None,
        }
    }

    /// Returns a walk through the edges that lead to `state`, each with the
    /// color that the function computes for it, or `None` if there is no such
    /// state.
    pub fn predecessors(&self, state: StateIndex) -> (edges: Option<
        MappedEdgesToIter<'_, StateIndex, EdgesTo<'_, Q, C>, F, C>,
    >)
        ensures
            match edges {
                Some(e) => state < self.spec_ts().spec_size() && *e.spec_it().spec_ts()
                    == self.spec_ts() && e.spec_it().spec_target() == state
                    && e.spec_it().spec_source() == 0 && e.spec_it().spec_position() == 0
                    && *e.spec_f() == self.spec_f() && e.spec_target() == state,
                None => state >= self.spec_ts().spec_size(),
            },
    {
        match self.ts.predecessors(state) {
            Some(it) => Some(MappedEdgesToIter::new(it, state, &self.f)),
            None => None,
        }
    }
}

} // verus!
