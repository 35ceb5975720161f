//! Walks through the edges that leave a state, and through those that lead to
//! a state.
use crate::ts::builder::EdgeTuple;
use crate::ts::{StateIndex, DTS};
use vstd::prelude::*;

verus! {

/// Walks through the edges that leave a state, in the order of the alphabet.
pub struct EdgesFrom<'a, Q, C> {
    ts: &'a DTS<Q, C>,
    state: StateIndex,
    position: usize,
}

impl<'a, Q, C: Copy> EdgesFrom<'a, Q, C> {
    /// The transition system whose edges are walked through.
    pub closed spec fn spec_ts(&self) -> &DTS<Q, C> {
        self.ts
    }

    /// The state whose edges are walked through.
    pub closed spec fn spec_state(&self) -> StateIndex {
        self.state
    }

    /// The symbols before this position have had their turn.
    pub closed spec fn spec_position(&self) -> nat {
        self.position as nat
    }

    /// The walk `after` arises from `self` by returning `edge`: the edge leaves
    /// the state on the first symbol from the position on that has an edge, and
    /// the position moves behind that symbol.
    pub open spec fn steps_to(&self, edge: EdgeTuple<C>, after: &Self) -> bool {
        &&& after.spec_ts() == self.spec_ts()
        &&& after.spec_state() == self.spec_state()
        &&& edge.0 == self.spec_state()
        &&& self.spec_position() < after.spec_position() <= self.spec_ts().symbols().len()
        &&& edge.1 == self.spec_ts().symbols()[after.spec_position() - 1]
        &&& self.spec_ts().spec_edge(self.spec_state() as int, edge.1) == Some(
            (edge.2, edge.3 as int),
        )
        &&& forall|b: int|
            self.spec_position() <= b < after.spec_position() - 1 ==> (
            #[trigger] self.spec_ts().spec_edge(
                self.spec_state() as int,
                self.spec_ts().symbols()[b],
            )).is_none()
    }

    /// No edge is left: no symbol from the position on has an edge.
    pub open spec fn exhausted(&self) -> bool {
        forall|b: int|
            self.spec_position() <= b < self.spec_ts().symbols().len() ==> (
            #[trigger] self.spec_ts().spec_edge(
                self.spec_state() as int,
                self.spec_ts().symbols()[b],
            )).is_none()
    }

    /// Creates a walk through the edges that leave `state`.
    pub fn new(ts: &'a DTS<Q, C>, state: StateIndex) -> (edges: Self)
        ensures
            edges.spec_ts() == ts,
            edges.spec_state() == state,
            edges.spec_position() == 0,
    {
        EdgesFrom { ts, state, position: 0 }
    }

    /// Returns the next edge, or `None` when no edge is left.
    pub fn next(&mut self) -> (edge: Option<EdgeTuple<C>>)
        requires
            old(self).spec_ts().wf(),
            old(self).spec_state() < old(self).spec_ts().spec_size(),
        ensures
            match edge {
                Some(e) => old(self).steps_to(e, final(self)),
                None => old(self).exhausted() && *final(self) == *old(self),
            },
    {
        let k = self.ts.num_symbols();
        let start = self.position;
        let mut a: usize = self.position;
        while a < k
            invariant
                self.ts.wf(),
                *self == *old(self),
                self.state < self.ts.spec_size(),
                k == self.ts.symbols().len(),
                start == self.position,
                start <= a,
                forall|b: int|
                    start <= b < a ==> (#[trigger] self.ts.spec_edge(
                        self.state as int,
                        self.ts.symbols()[b],
                    )).is_none(),
            decreases k - a,
        {
            match self.ts.edge_at(self.state, a) {
                Some((c, t)) => {
                    let sym = self.ts.symbol(a);
                    self.position = a + 1;
                    return Some((self.state, sym, c, t));
                },
                None => {},
            }
            a += 1;
        }
        None
    }
}

impl<Q, C: Copy> DTS<Q, C> {
    /// Returns a walk through the edges that leave `state`, or `None` if there
    /// is no such state.
    pub fn edges_from(&self, state: StateIndex) -> (edges: Option<EdgesFrom<'_, Q, C>>)
        ensures
            match edges {
                Some(e) => state < self.spec_size() && e.spec_ts() == self && e.spec_state() == state
                    && e.spec_position() == 0,
                None => state >= self.spec_size(),
            },
    {
        if state < self.size() {
            Some(EdgesFrom::new(self, state))
        } else {
            None
        }
    }
}

/// Walks through the edges that lead to a state, in the order of their
/// sources and then of the alphabet.
pub struct EdgesTo<'a, Q, C> {
    ts: &'a DTS<Q, C>,
    target: StateIndex,
    source: StateIndex,
    position: usize,
}

impl<'a, Q, C: Copy> EdgesTo<'a, Q, C> {
    /// The transition system whose edges are walked through.
    pub closed spec fn spec_ts(&self) -> &DTS<Q, C> {
        self.ts
    }

    /// The state to which the edges lead.
    pub closed spec fn spec_target(&self) -> StateIndex {
        self.target
    }

    /// The source that is looked at.
    pub closed spec fn spec_source(&self) -> nat {
        self.source as nat
    }

    /// The position in the alphabet that is looked at.
    pub closed spec fn spec_position(&self) -> nat {
        self.position as nat
    }

    /// The edge from `q` on the symbol at position `a` has had its turn when the
    /// walk is at source `source` and position `position`.
    pub open spec fn passed(source: nat, position: nat, q: int, a: int) -> bool {
        q < source || (q == source && a < position)
    }

    /// There is an edge from `q` on the symbol at position `a` to the target.
    pub open spec fn leads_to_target(&self, q: int, a: int) -> bool {
        Self::leads_to(self.spec_ts(), self.spec_target(), q, a)
    }

    /// There is an edge in `ts` from `q` on the symbol at position `a` to
    /// `target`.
    pub open spec fn leads_to(ts: &DTS<Q, C>, target: StateIndex, q: int, a: int) -> bool {
        match ts.spec_edge(q, ts.symbols()[a]) {
            Some((_, t)) => t == target,
            None => false,
        }
    }

    /// The walk `after` arises from `self` by returning `edge`: the edge leads
    /// to the target, and it is the first such edge that has not had its turn.
    pub open spec fn steps_to(&self, edge: EdgeTuple<C>, after: &Self) -> bool {
        &&& after.spec_ts() == self.spec_ts()
        &&& after.spec_target() == self.spec_target()
        &&& edge.3 == self.spec_target()
        &&& edge.0 < self.spec_ts().spec_size()
        &&& after.spec_source() == edge.0
        &&& 0 < after.spec_position() <= self.spec_ts().symbols().len()
        &&& edge.1 == self.spec_ts().symbols()[after.spec_position() - 1]
        &&& self.spec_ts().spec_edge(edge.0 as int, edge.1) == Some((edge.2, edge.3 as int))
        &&& !Self::passed(
            self.spec_source(),
            self.spec_position(),
            edge.0 as int,
            after.spec_position() - 1,
        )
        &&& forall|q: int, a: int|
            0 <= q < self.spec_ts().spec_size() && 0 <= a < self.spec_ts().symbols().len()
                && !Self::passed(self.spec_source(), self.spec_position(), q, a) && Self::passed(
                after.spec_source(),
                (after.spec_position() - 1) as nat,
                q,
                a,
            ) ==> !#[trigger] self.leads_to_target(q, a)
    }

    /// No edge is left: no edge that has not had its turn leads to the target.
    pub open spec fn exhausted(&self) -> bool {
        forall|q: int, a: int|
            0 <= q < self.spec_ts().spec_size() && 0 <= a < self.spec_ts().symbols().len()
                && !Self::passed(self.spec_source(), self.spec_position(), q, a)
                ==> !#[trigger] self.leads_to_target(q, a)
    }

    /// Creates a walk through the edges that lead to `target`.
    pub fn new(ts: &'a DTS<Q, C>, target: StateIndex) -> (edges: Self)
        ensures
            edges.spec_ts() == ts,
            edges.spec_target() == target,
            edges.spec_source() == 0,
            edges.spec_position() == 0,
    {
        EdgesTo { ts, target, source: 0, position: 0 }
    }

    /// Returns the next edge, or `None` when no edge is left.
    pub fn next(&mut self) -> (edge: Option<EdgeTuple<C>>)
        requires
            old(self).spec_ts().wf(),
        ensures
            match edge {
                Some(e) => old(self).steps_to(e, final(self)),
                None => {
                    &&& old(self).exhausted()
                    &&& final(self).exhausted()
                    &&& final(self).spec_ts() == old(self).spec_ts()
                    &&& final(self).spec_target() == old(self).spec_target()
                },
            },
    {
        let ts = self.ts;
        let target = self.target;
        let n = ts.size();
        let k = ts.num_symbols();
        let ghost source0 = self.source as nat;
        let ghost position0 = self.position as nat;
        let mut q = self.source;
        let mut a = self.position;
        while q < n
            invariant
                ts.wf(),
                *self == *old(self),
                ts == self.ts,
                target == self.target,
                n == ts.spec_size(),
                k == ts.symbols().len(),
                source0 == self.source,
                position0 == self.position,
                !Self::passed(source0, position0, q as int, a as int),
                forall|s: int, b: int|
                    0 <= s < n && 0 <= b < k && !Self::passed(source0, position0, s, b)
                        && Self::passed(q as nat, a as nat, s, b) ==> !#[trigger] Self::leads_to(
                        ts,
                        target,
                        s,
                        b,
                    ),
            decreases n - q,
        {
            while a < k
                invariant
                    ts.wf(),
                    *self == *old(self),
                    ts == self.ts,
                    target == self.target,
                    n == ts.spec_size(),
                    k == ts.symbols().len(),
                    q < n,
                    source0 == self.source,
                    position0 == self.position,
                    !Self::passed(source0, position0, q as int, a as int),
                    forall|s: int, b: int|
                        0 <= s < n && 0 <= b < k && !Self::passed(source0, position0, s, b)
                            && Self::passed(q as nat, a as nat, s, b) ==> !#[trigger] Self::leads_to(
                            ts,
                            target,
                            s,
                            b,
                        ),
                decreases k - a,
            {
                match ts.edge_at(q, a) {
                    Some((c, t)) => {
                        if t == target {
                            let sym = ts.symbol(a);
                            self.source = q;
                            self.position = a + 1;
                            return Some((q, sym, c, t));
                        }
                        assert(!Self::leads_to(ts, target, q as int, a as int));
                    },
                    None => {
                        assert(!Self::leads_to(ts, target, q as int, a as int));
                    },
                }
                a += 1;
            }
            q += 1;
            a = 0;
        }
        self.source = q;
        self.position = a;
        None
    }
}

impl<Q, C: Copy> DTS<Q, C> {
    /// Returns a walk through the edges that lead to `state`, or `None` if
    /// there is no such state.
    pub fn predecessors(&self, state: StateIndex) -> (edges: Option<EdgesTo<'_, Q, C>>)
        ensures
            match edges {
                Some(e) => state < self.spec_size() && e.spec_ts() == self && e.spec_target()
                    == state && e.spec_source() == 0 && e.spec_position() == 0,
                None => state >= self.spec_size(),
            },
    {
        if state < self.size() {
            Some(EdgesTo::new(self, state))
        } else {
            None
        }
    }
}

} // verus!
