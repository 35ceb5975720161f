//! Deterministic transition systems over an alphabet of characters.
use crate::alphabet::{lemma_position_unique, position_of, CharAlphabet};
use vstd::prelude::*;

pub mod builder;
pub mod edges;
pub mod operations;
pub mod reach;

verus! {

/// The index of a state.
pub type StateIndex = usize;

/// A deterministic transition system. Its states are the indices below `size`,
/// each with a color; from each state at most one edge leaves for each symbol of
/// the alphabet, and every edge has a color and a target.
#[derive(Debug)]
pub struct DTS<Q, C> {
    alphabet: CharAlphabet,
    colors: Vec<Q>,
    edges: Vec<Vec<Option<(C, usize)>>>,
}

impl<Q, C> DTS<Q, C> {
    /// The symbols of the alphabet, in increasing order.
    pub closed spec fn symbols(&self) -> Seq<char> {
        self.alphabet@
    }

    /// The number of states.
    pub closed spec fn spec_size(&self) -> nat {
        self.colors@.len()
    }

    /// The color of state `q`.
    pub closed spec fn spec_state_color(&self, q: int) -> Q {
        self.colors@[q]
    }

    /// The color and the target of the edge that leaves `q` on `sym`, if there is one.
    pub closed spec fn spec_edge(&self, q: int, sym: char) -> Option<(C, int)> {
        if 0 <= q < self.colors@.len() {
            match position_of(self.alphabet@, sym) {
                Some(a) => match self.edges@[q]@[a] {
                    Some((c, t)) => Some((c, t as int)),
                    None => None,
                },
                None => None,
            }
        } else {
            None
        }
    }

    /// One row of edges per state and one entry per symbol; every target is a state.
    pub closed spec fn wf(&self) -> bool {
        &&& self.alphabet.wf()
        &&& self.edges@.len() == self.colors@.len()
        &&& forall|q: int|
            0 <= q < self.edges@.len() ==> (#[trigger] self.edges@[q])@.len()
                == self.alphabet@.len()
        &&& forall|q: int, a: int|
            0 <= q < self.edges@.len() && 0 <= a < self.alphabet@.len() ==> (
            #[trigger] self.edges@[q]@[a] matches Some((_, t)) ==> t < self.colors@.len())
    }

    /// The target of the edge that leaves `q` on `sym`.
    pub open spec fn spec_successor(&self, q: int, sym: char) -> Option<int> {
        match self.spec_edge(q, sym) {
            Some((_, t)) => Some(t),
            None => None,
        }
    }

    /// The color of the edge that leaves `q` on `sym`.
    pub open spec fn spec_edge_color(&self, q: int, sym: char) -> Option<C> {
        match self.spec_edge(q, sym) {
            Some((c, _)) => Some(c),
            None => None,
        }
    }

    /// The state in which the run on `w` from `q` ends, if the run exists.
    pub open spec fn reached(&self, q: int, w: Seq<char>) -> Option<int>
        decreases w.len(),
    {
        if w.len() == 0 {
            if 0 <= q < self.spec_size() {
                Some(q)
            } else {
                None
            }
        } else {
            match self.spec_edge(q, w[0]) {
                Some((_, t)) => self.reached(t, w.skip(1)),
                None => None,
            }
        }
    }

    /// Some word leads from `from` to `q`.
    pub open spec fn reachable(&self, from: int, q: int) -> bool {
        exists|w: Seq<char>| #[trigger] self.reached(from, w) == Some(q)
    }

    /// Every state can be reached from `from`.
    pub open spec fn all_reachable(&self, from: int) -> bool {
        forall|q: int| 0 <= q < self.spec_size() ==> #[trigger] self.reachable(from, q)
    }

    /// From every state an edge leaves on every symbol.
    pub open spec fn complete(&self) -> bool {
        forall|q: int, a: int|
            0 <= q < self.spec_size() && 0 <= a < self.symbols().len() ==> (#[trigger] self.spec_edge(
                q,
                self.symbols()[a],
            )).is_some()
    }

    /// Edges leave states only, on symbols of the alphabet only, and lead to states.
    pub proof fn lemma_edge_in_range(&self, q: int, sym: char)
        requires
            self.wf(),
        ensures
            self.spec_edge(q, sym) matches Some((_, t)) ==> 0 <= q < self.spec_size()
                && self.symbols().contains(sym) && 0 <= t < self.spec_size(),
            crate::alphabet::strictly_increasing(self.symbols()),
    {
        if 0 <= q < self.colors@.len() {
            if let Some(a) = position_of(self.alphabet@, sym) {
                assert(0 <= a < self.alphabet@.len());
                assert(self.edges@[q]@[a] matches Some((_, t)) ==> t < self.colors@.len());
            }
        }
    }

    /// The run on a word stays among the states.
    pub proof fn lemma_reached_in_range(&self, q: int, w: Seq<char>)
        requires
            self.wf(),
        ensures
            self.reached(q, w) matches Some(t) ==> 0 <= t < self.spec_size() && 0 <= q
                < self.spec_size(),
        decreases w.len(),
    {
        if w.len() > 0 {
            self.lemma_edge_in_range(q, w[0]);
            if let Some((_, t)) = self.spec_edge(q, w[0]) {
                self.lemma_reached_in_range(t, w.skip(1));
            }
        }
    }

    /// Reading one more symbol leads from the state reached to its successor.
    pub proof fn lemma_reached_push(&self, q: int, w: Seq<char>, sym: char)
        requires
            self.wf(),
        ensures
            self.reached(q, w.push(sym)) == match self.reached(q, w) {
                Some(t) => self.spec_successor(t, sym),
                None => None,
            },
        decreases w.len(),
    {
        let full = w.push(sym);
        if w.len() == 0 {
            assert(full[0] == sym);
            assert(full.skip(1).len() == 0);
            self.lemma_edge_in_range(q, sym);
            if let Some((_, t)) = self.spec_edge(q, sym) {
                assert(self.reached(t, full.skip(1)) == Some(t));
            }
        } else {
            assert(full[0] == w[0]);
            assert(full.skip(1) =~= w.skip(1).push(sym));
            if let Some((_, t)) = self.spec_edge(q, w[0]) {
                self.lemma_reached_push(t, w.skip(1), sym);
            }
        }
    }

    /// Reading one word after another leads where the second leads from where
    /// the first leads.
    pub proof fn lemma_reached_concat(&self, q: int, v: Seq<char>, w: Seq<char>)
        requires
            self.wf(),
        ensures
            self.reached(q, v + w) == match self.reached(q, v) {
                Some(t) => self.reached(t, w),
                None => None,
            },
        decreases w.len(),
    {
        if w.len() == 0 {
            assert(v + w =~= v);
            self.lemma_reached_in_range(q, v);
        } else {
            let shorter = w.drop_last();
            assert(v + w =~= (v + shorter).push(w.last()));
            assert(w =~= shorter.push(w.last()));
            self.lemma_reached_concat(q, v, shorter);
            self.lemma_reached_push(q, v + shorter, w.last());
            if let Some(t) = self.reached(q, v) {
                self.lemma_reached_push(t, shorter, w.last());
            }
        }
    }

    /// The number of states is a number of the machine.
    pub proof fn lemma_size_fits(&self)
        ensures
            self.spec_size() <= usize::MAX,
    {
        assert(self.colors@.len() == self.colors.len());
    }

    /// Systems with the same states and the same successors reach the same
    /// states.
    pub proof fn lemma_same_successors_same_reached<Q2, C2>(
        &self,
        other: &DTS<Q2, C2>,
        q: int,
        w: Seq<char>,
    )
        requires
            self.spec_size() == other.spec_size(),
            forall|s: int, sym: char| #[trigger]
                self.spec_successor(s, sym) == other.spec_successor(s, sym),
        ensures
            self.reached(q, w) == other.reached(q, w),
        decreases w.len(),
    {
        if w.len() > 0 {
            assert(self.spec_successor(q, w[0]) == other.spec_successor(q, w[0]));
            if let Some((_, t)) = self.spec_edge(q, w[0]) {
                self.lemma_same_successors_same_reached(other, t, w.skip(1));
            }
        }
    }

    /// The transition system with the given alphabet and no state.
    pub fn for_alphabet(alphabet: CharAlphabet) -> (ts: Self)
        requires
            alphabet.wf(),
        ensures
            ts.wf(),
            ts.spec_size() == 0,
            ts.symbols() == alphabet@,
            forall|q: int, sym: char| (#[trigger] ts.spec_edge(q, sym)).is_none(),
    {
        DTS { alphabet, colors: Vec::new(), edges: Vec::new() }
    }

    /// The alphabet.
    pub fn alphabet(&self) -> (alphabet: &CharAlphabet)
        requires
            self.wf(),
        ensures
            alphabet@ == self.symbols(),
            alphabet.wf(),
    {
        &self.alphabet
    }

    /// The number of states.
    pub fn size(&self) -> (n: usize)
        ensures
            n == self.spec_size(),
    {
        self.colors.len()
    }

    /// The number of symbols.
    pub fn num_symbols(&self) -> (k: usize)
        ensures
            k == self.symbols().len(),
    {
        self.alphabet.size()
    }

    /// The symbol at position `a` of the alphabet.
    pub fn symbol(&self, a: usize) -> (sym: char)
        requires
            a < self.symbols().len(),
        ensures
            sym == self.symbols()[a as int],
    {
        self.alphabet.symbol(a)
    }

    /// Whether `q` is a state.
    pub fn contains_state_index(&self, q: StateIndex) -> (b: bool)
        ensures
            b == (q < self.spec_size()),
    {
        q < self.colors.len()
    }

    /// The color of state `q`, or `None` if there is no such state.
    pub fn state_color(&self, q: StateIndex) -> (color: Option<&Q>)
        ensures
            match color {
                Some(c) => q < self.spec_size() && *c == self.spec_state_color(q as int),
                None => q >= self.spec_size(),
            },
    {
        if q < self.colors.len() {
            Some(&self.colors[q])
        } else {
            None
        }
    }

    /// Adds a state with the given color and returns its index. No edge touches
    /// the new state.
    pub fn add_state(&mut self, color: Q) -> (q: StateIndex)
        requires
            old(self).wf(),
        ensures
            final(self).wf(),
            q == old(self).spec_size(),
            final(self).spec_size() == old(self).spec_size() + 1,
            final(self).symbols() == old(self).symbols(),
            final(self).spec_state_color(q as int) == color,
            forall|p: int|
                0 <= p < old(self).spec_size() ==> final(self).spec_state_color(p) == old(
                    self,
                ).spec_state_color(p),
            forall|p: int, sym: char|
                p != q ==> #[trigger] final(self).spec_edge(p, sym) == old(self).spec_edge(p, sym),
            forall|sym: char| #[trigger] final(self).spec_edge(q as int, sym).is_none(),
    {
        let q = self.colors.len();
        let mut row: Vec<Option<(C, usize)>> = Vec::new();
        let mut a: usize = 0;
        let k = self.alphabet.size();
        while a < k
            invariant
                a <= k,
                row@.len() == a,
                forall|b: int| 0 <= b < a ==> (#[trigger] row@[b]).is_none(),
            decreases k - a,
        {
            row.push(None);
            a += 1;
        }
        self.colors.push(color);
        self.edges.push(row);
        proof {
            assert forall|p: int, a: int|
                0 <= p < self.edges@.len() && 0 <= a < self.alphabet@.len() implies (
            #[trigger] self.edges@[p]@[a] matches Some((_, t)) ==> t < self.colors@.len()) by {
                if p < q {
                    assert(self.edges@[p] == old(self).edges@[p]);
                }
            }
            assert forall|p: int, sym: char| p != q implies #[trigger] self.spec_edge(p, sym)
                == old(self).spec_edge(p, sym) by {
                if 0 <= p < q {
                    assert(self.edges@[p] == old(self).edges@[p]);
                }
            }
        }
        q
    }
}

impl<Q, C: Copy> DTS<Q, C> {
    /// The edge that leaves `q` on the symbol at position `a` of the alphabet.
    pub fn edge_at(&self, q: StateIndex, a: usize) -> (e: Option<(C, StateIndex)>)
        requires
            self.wf(),
            q < self.spec_size(),
            a < self.symbols().len(),
        ensures
            match e {
                Some((c, t)) => self.spec_edge(q as int, self.symbols()[a as int]) == Some(
                    (c, t as int),
                ) && t < self.spec_size(),
                None => self.spec_edge(q as int, self.symbols()[a as int]).is_none(),
            },
    {
        proof {
            lemma_position_unique(self.alphabet@, a as int);
        }
        let row = &self.edges[q];
        assert(row@.len() == self.alphabet@.len());
        let e = row[a];
        assert(e == self.edges@[q as int]@[a as int]);
        e
    }

    /// The edge that leaves `q` on `sym`: its color and its target. `None` if `q`
    /// is no state, `sym` no symbol, or no such edge exists.
    pub fn edge(&self, q: StateIndex, sym: char) -> (e: Option<(C, StateIndex)>)
        requires
            self.wf(),
        ensures
            match e {
                Some((c, t)) => self.spec_edge(q as int, sym) == Some((c, t as int)) && t
                    < self.spec_size() && q < self.spec_size(),
                None => self.spec_edge(q as int, sym).is_none(),
            },
    {
        if q >= self.colors.len() {
            return None;
        }
        match self.alphabet.index_of(sym) {
            Some(a) => self.edge_at(q, a),
            None => None,
        }
    }

    /// The target of the edge that leaves `q` on `sym`.
    pub fn successor_index(&self, q: StateIndex, sym: char) -> (t: Option<StateIndex>)
        requires
            self.wf(),
        ensures
            match t {
                Some(t) => self.spec_successor(q as int, sym) == Some(t as int) && t
                    < self.spec_size(),
                None => self.spec_successor(q as int, sym).is_none(),
            },
    {
        match self.edge(q, sym) {
            Some((_, t)) => Some(t),
            None => None,
        }
    }

    /// Adds the edge from `q` on `sym` to `p` with the given color. If an edge
    /// leaves `q` on `sym` already, that edge is returned and nothing changes.
    pub fn add_edge(&mut self, q: StateIndex, sym: char, color: C, p: StateIndex) -> (overlap:
        Option<(C, StateIndex)>)
        requires
            old(self).wf(),
            q < old(self).spec_size(),
            p < old(self).spec_size(),
            old(self).symbols().contains(sym),
        ensures
            final(self).wf(),
            final(self).spec_size() == old(self).spec_size(),
            final(self).symbols() == old(self).symbols(),
            forall|s: int| final(self).spec_state_color(s) == old(self).spec_state_color(s),
            match overlap {
                Some((c, t)) => old(self).spec_edge(q as int, sym) == Some((c, t as int))
                    && forall|s: int, x: char| #[trigger]
                    final(self).spec_edge(s, x) == old(self).spec_edge(s, x),
                None => old(self).spec_edge(q as int, sym).is_none() && final(self).spec_edge(
                    q as int,
                    sym,
                ) == Some((color, p as int)) && forall|s: int, x: char|
                    (s != q || x != sym) ==> #[trigger] final(self).spec_edge(s, x) == old(
                        self,
                    ).spec_edge(s, x),
            },
    {
        let a = match self.alphabet.index_of(sym) {
            Some(a) => a,
            None => {
                proof {
                    assert(false);
                }
                0
            },
        };
        let existing = self.edge_at(q, a);
        if existing.is_some() {
            return existing;
        }
        let ghost before = *self;
        self.edges[q][a] = Some((color, p));
        proof {
            assert(self.edges@ == before.edges@.update(
                q as int,
                self.edges@[q as int],
            ));
            assert(self.edges@[q as int]@ == before.edges@[q as int]@.update(
                a as int,
                Some((color, p)),
            ));
            assert forall|s: int, x: char| (s != q || x != sym) implies #[trigger] self.spec_edge(
                s,
                x,
            ) == before.spec_edge(s, x) by {
                if 0 <= s < self.colors@.len() {
                    if let Some(b) = position_of(self.alphabet@, x) {
                        if s == q {
                            assert(b != a);
                        }
                    }
                }
            }
        }
        None
    }

    /// Looks for a state and a symbol on which no edge leaves the state.
    pub fn find_missing_edge(&self) -> (missing: Option<(StateIndex, char)>)
        requires
            self.wf(),
        ensures
            match missing {
                Some((q, sym)) => q < self.spec_size() && self.symbols().contains(sym)
                    && self.spec_edge(q as int, sym).is_none() && !self.complete(),
                None => self.complete(),
            },
    {
        let n = self.size();
        let k = self.num_symbols();
        let mut q: usize = 0;
        while q < n
            invariant
                self.wf(),
                n == self.spec_size(),
                k == self.symbols().len(),
                q <= n,
                forall|s: int, a: int|
                    0 <= s < q && 0 <= a < k ==> (#[trigger] self.spec_edge(
                        s,
                        self.symbols()[a],
                    )).is_some(),
            decreases n - q,
        {
            let mut a: usize = 0;
            while a < k
                invariant
                    self.wf(),
                    n == self.spec_size(),
                    k == self.symbols().len(),
                    q < n,
                    a <= k,
                    forall|b: int|
                        0 <= b < a ==> (#[trigger] self.spec_edge(
                            q as int,
                            self.symbols()[b],
                        )).is_some(),
                decreases k - a,
            {
                if self.edge_at(q, a).is_none() {
                    let sym = self.symbol(a);
                    assert(self.spec_edge(q as int, self.symbols()[a as int]).is_none());
                    return Some((q, sym));
                }
                a += 1;
            }
            q += 1;
        }
        None
    }

    /// Whether from every state an edge leaves on every symbol.
    pub fn is_complete(&self) -> (b: bool)
        requires
            self.wf(),
        ensures
            b == self.complete(),
    {
        self.find_missing_edge().is_none()
    }

    /// Runs the system on `word` from `q` and returns the state in which the run
    /// ends, or `None` if the run leaves the system.
    pub fn reached_state_index_from(&self, q: StateIndex, word: &str) -> (r: Option<StateIndex>)
        requires
            self.wf(),
        ensures
            match r {
                Some(t) => self.reached(q as int, word@) == Some(t as int) && t < self.spec_size(),
                None => self.reached(q as int, word@).is_none(),
            },
    {
        if q >= self.size() {
            return None;
        }
        let len = word.unicode_len();
        let mut cur = q;
        let mut i: usize = 0;
        assert(word@.skip(0) == word@);
        while i < len
            invariant
                self.wf(),
                len == word@.len(),
                i <= len,
                cur < self.spec_size(),
                self.reached(q as int, word@) == self.reached(cur as int, word@.skip(i as int)),
            decreases len - i,
        {
            let sym = word.get_char(i);
            proof {
                assert(word@.skip(i as int)[0] == sym);
                assert(word@.skip(i as int).skip(1) == word@.skip(i + 1));
            }
            match self.edge(cur, sym) {
                Some((_, t)) => {
                    cur = t;
                },
                None => {
                    return None;
                },
            }
            i += 1;
        }
        Some(cur)
    }
}

impl<Q, C: Copy> DTS<Q, C> {
    /// The transition system with the same states and edges, in which state `q`
    /// has the color that `f` gives for the color of `q`, and every edge the
    /// color that `g` gives for its color.
    pub fn map_colors<Q2, C2, F: Fn(&Q) -> Q2, G: Fn(C) -> C2>(&self, f: &F, g: &G) -> (mapped: DTS<
        Q2,
        C2,
    >)
        requires
            self.wf(),
            forall|q: int|
                0 <= q < self.spec_size() ==> call_requires(
                    f,
                    (&#[trigger] self.spec_state_color(q),),
                ),
            forall|c: C| #[trigger] call_requires(g, (c,)),
        ensures
            mapped.wf(),
            mapped.spec_size() == self.spec_size(),
            mapped.symbols() == self.symbols(),
            forall|q: int|
                0 <= q < self.spec_size() ==> call_ensures(
                    f,
                    (&self.spec_state_color(q),),
                    #[trigger] mapped.spec_state_color(q),
                ),
            forall|q: int, sym: char|
                match (self.spec_edge(q, sym), #[trigger] mapped.spec_edge(q, sym)) {
                    (None, None) => true,
                    (Some((c, t)), Some((c2, t2))) => t == t2 && call_ensures(g, (c,), c2),
                    _ => false,
                },
    {
        let n = self.colors.len();
        let k = self.alphabet.size();
        let mut colors: Vec<Q2> = Vec::new();
        let mut edges: Vec<Vec<Option<(C2, usize)>>> = Vec::new();
        let mut q: usize = 0;
        while q < n
            invariant
                self.wf(),
                n == self.colors@.len(),
                k == self.alphabet@.len(),
                q <= n,
                colors@.len() == q,
                edges@.len() == q,
                forall|s: int|
                    0 <= s < self.spec_size() ==> call_requires(
                        f,
                        (&#[trigger] self.spec_state_color(s),),
                    ),
                forall|c: C| #[trigger] call_requires(g, (c,)),
                forall|s: int|
                    0 <= s < q ==> call_ensures(f, (&self.colors@[s],), #[trigger] colors@[s]),
                forall|s: int| 0 <= s < q ==> (#[trigger] edges@[s])@.len() == k,
                forall|s: int, a: int|
                    0 <= s < q && 0 <= a < k ==> match (
                        self.edges@[s]@[a],
                        #[trigger] edges@[s]@[a],
                    ) {
                        (None, None) => true,
                        (Some((c, t)), Some((c2, t2))) => t == t2 && call_ensures(g, (c,), c2),
                        _ => false,
                    },
            decreases n - q,
        {
            assert(self.colors@[q as int] == self.spec_state_color(q as int));
            let color = f(&self.colors[q]);
            let mut row: Vec<Option<(C2, usize)>> = Vec::new();
            let old_row = &self.edges[q];
            let mut a: usize = 0;
            while a < k
                invariant
                    self.wf(),
                    q < n,
                    n == self.colors@.len(),
                    k == self.alphabet@.len(),
                    old_row@ == self.edges@[q as int]@,
                    old_row@.len() == k,
                    a <= k,
                    row@.len() == a,
                    forall|c: C| #[trigger] call_requires(g, (c,)),
                    forall|b: int|
                        0 <= b < a ==> match (old_row@[b], #[trigger] row@[b]) {
                            (None, None) => true,
                            (Some((c, t)), Some((c2, t2))) => t == t2 && call_ensures(g, (c,), c2),
                            _ => false,
                        },
                decreases k - a,
            {
                let entry = match old_row[a] {
                    Some((c, t)) => Some((g(c), t)),
                    None => None,
                };
                row.push(entry);
                a += 1;
            }
            colors.push(color);
            edges.push(row);
            q += 1;
        }
        let mapped = DTS { alphabet: self.alphabet.clone(), colors, edges };
        proof {
            assert forall|s: int, a: int|
                0 <= s < mapped.edges@.len() && 0 <= a < mapped.alphabet@.len() implies (
            #[trigger] mapped.edges@[s]@[a] matches Some((_, t)) ==> t < mapped.colors@.len()) by {
                assert(self.edges@[s]@[a] matches Some((_, t)) ==> t < self.colors@.len());
            }
        }
        mapped
    }
}

impl<Q: Copy, C: Copy> DTS<Q, C> {
    /// The system that holds the states of `self` and, after them, the states
    /// of `other`, each with its color and its edges.
    pub fn disjoint_union(&self, other: &DTS<Q, C>) -> (both: DTS<Q, C>)
        requires
            self.wf(),
            other.wf(),
            self.symbols() == other.symbols(),
        ensures
            both.wf(),
            both.symbols() == self.symbols(),
            both.spec_size() == self.spec_size() + other.spec_size(),
            forall|q: int|
                0 <= q < self.spec_size() ==> #[trigger] both.spec_state_color(q)
                    == self.spec_state_color(q),
            forall|q: int|
                0 <= q < other.spec_size() ==> #[trigger] both.spec_state_color(
                    self.spec_size() + q,
                ) == other.spec_state_color(q),
            forall|q: int, sym: char|
                0 <= q < self.spec_size() ==> #[trigger] both.spec_edge(q, sym) == self.spec_edge(
                    q,
                    sym,
                ),
            forall|q: int, sym: char|
                0 <= q < other.spec_size() ==> #[trigger] both.spec_edge(self.spec_size() + q, sym)
                    == match other.spec_edge(q, sym) {
                    Some((c, t)) => Some((c, self.spec_size() + t)),
                    None => None,
                },
    {
        let n1 = self.colors.len();
        let n2 = other.colors.len();
        let k = self.alphabet.size();
        let mut colors: Vec<Q> = Vec::new();
        let mut edges: Vec<Vec<Option<(C, usize)>>> = Vec::new();
        let mut q: usize = 0;
        while q < n1
            invariant
                self.wf(),
                n1 == self.colors@.len(),
                k == self.alphabet@.len(),
                q <= n1,
                colors@.len() == q,
                edges@.len() == q,
                forall|s: int| 0 <= s < q ==> colors@[s] == self.colors@[s],
                forall|s: int| 0 <= s < q ==> (#[trigger] edges@[s])@ == self.edges@[s]@,
            decreases n1 - q,
        {
            colors.push(self.colors[q]);
            let old_row = &self.edges[q];
            let mut row: Vec<Option<(C, usize)>> = Vec::new();
            let mut a: usize = 0;
            while a < old_row.len()
                invariant
                    a <= old_row@.len(),
                    row@ == old_row@.take(a as int),
                decreases old_row@.len() - a,
            {
                row.push(old_row[a]);
                assert(old_row@.take(a + 1) == old_row@.take(a as int).push(old_row@[a as int]));
                a += 1;
            }
            assert(old_row@.take(old_row@.len() as int) == old_row@);
            edges.push(row);
            q += 1;
        }
        let mut q: usize = 0;
        while q < n2
            invariant
                n1 == self.colors@.len(),
                n2 == other.colors@.len(),
                q <= n2,
                colors@.len() == n1 + q,
                forall|s: int| 0 <= s < n1 ==> colors@[s] == self.colors@[s],
                forall|s: int| 0 <= s < q ==> colors@[n1 + s] == other.colors@[s],
            decreases n2 - q,
        {
            colors.push(other.colors[q]);
            q += 1;
        }
        let total = colors.len();
        let mut q: usize = 0;
        while q < n2
            invariant
                self.wf(),
                other.wf(),
                self.alphabet@ == other.alphabet@,
                n1 == self.colors@.len(),
                n2 == other.colors@.len(),
                total == n1 + n2,
                k == self.alphabet@.len(),
                q <= n2,
                edges@.len() == n1 + q,
                forall|s: int| 0 <= s < n1 ==> (#[trigger] edges@[s])@ == self.edges@[s]@,
                forall|s: int| 0 <= s < q ==> (#[trigger] edges@[n1 + s])@.len() == k,
                forall|s: int, a: int|
                    0 <= s < q && 0 <= a < k ==> #[trigger] edges@[n1 + s]@[a]
                        == match other.edges@[s]@[a] {
                        Some((c, t)) => Some((c, (n1 + t) as usize)),
                        None => None,
                    },
            decreases n2 - q,
        {
            let ghost before_edges = edges@;
            let old_row = &other.edges[q];
            assert(old_row@.len() == k);
            let mut row: Vec<Option<(C, usize)>> = Vec::new();
            let mut a: usize = 0;
            while a < k
                invariant
                    other.wf(),
                    total == n1 + n2,
                    n2 == other.colors@.len(),
                    q < n2,
                    k == other.alphabet@.len(),
                    old_row@ == other.edges@[q as int]@,
                    old_row@.len() == k,
                    a <= k,
                    row@.len() == a,
                    forall|b: int|
                        0 <= b < a ==> #[trigger] row@[b] == match old_row@[b] {
                            Some((c, t)) => Some((c, (n1 + t) as usize)),
                            None => None,
                        },
                decreases k - a,
            {
                let entry = match old_row[a] {
                    Some((c, t)) => {
                        assert(other.edges@[q as int]@[a as int] matches Some((_, t2)) ==> t2
                            < other.colors@.len());
                        Some((c, n1 + t))
                    },
                    None => None,
                };
                row.push(entry);
                a += 1;
            }
            edges.push(row);
            proof {
                assert forall|s: int| 0 <= s < n1 implies (#[trigger] edges@[s])@ == self.edges@[s]@ by {
                    assert(edges@[s] == before_edges[s]);
                }
                assert forall|s: int, a: int|
                    0 <= s < q + 1 && 0 <= a < k implies #[trigger] edges@[n1 + s]@[a]
                    == match other.edges@[s]@[a] {
                    Some((c, t)) => Some((c, (n1 + t) as usize)),
                    None => None,
                } by {
                    if s < q {
                        assert(edges@[n1 + s] == before_edges[n1 + s]);
                    }
                }
                assert forall|s: int| 0 <= s < q + 1 implies (#[trigger] edges@[n1 + s])@.len() == k by {
                    if s < q {
                        assert(edges@[n1 + s] == before_edges[n1 + s]);
                    }
                }
            }
            q += 1;
        }
        let both = DTS { alphabet: self.alphabet.clone(), colors, edges };
        proof {
            assert forall|s: int| 0 <= s < both.edges@.len() implies (#[trigger] both.edges@[s])@.len()
                == both.alphabet@.len() by {
                if s < n1 {
                    assert(both.edges@[s]@ == self.edges@[s]@);
                } else {
                    assert(both.edges@[n1 + (s - n1)]@.len() == k);
                }
            }
            assert forall|s: int, a: int|
                0 <= s < both.edges@.len() && 0 <= a < both.alphabet@.len() implies (
            #[trigger] both.edges@[s]@[a] matches Some((_, t)) ==> t < both.colors@.len()) by {
                if s < n1 {
                    assert(both.edges@[s]@ == self.edges@[s]@);
                    assert(self.edges@[s]@[a] matches Some((_, t)) ==> t < self.colors@.len());
                } else {
                    assert(both.edges@[n1 + (s - n1)]@[a] == match other.edges@[s - n1]@[a] {
                        Some((c, t)) => Some((c, (n1 + t) as usize)),
                        None => None,
                    });
                    assert(other.edges@[s - n1]@[a] matches Some((_, t)) ==> t < other.colors@.len());
                }
            }
            assert forall|s: int, sym: char| 0 <= s < self.spec_size() implies #[trigger] both.spec_edge(
                s,
                sym,
            ) == self.spec_edge(s, sym) by {
                assert(both.edges@[s]@ == self.edges@[s]@);
            }
            assert forall|s: int, sym: char| 0 <= s < other.spec_size() implies #[trigger] both.spec_edge(
                self.spec_size() + s,
                sym,
            ) == match other.spec_edge(s, sym) {
                Some((c, t)) => Some((c, self.spec_size() + t)),
                None => None,
            } by {
                if let Some(a) = position_of(other.alphabet@, sym) {
                    assert(both.edges@[n1 + s]@[a] == match other.edges@[s]@[a] {
                        Some((c, t)) => Some((c, (n1 + t) as usize)),
                        None => None,
                    });
                    assert(other.edges@[s]@[a] matches Some((_, t)) ==> t < other.colors@.len());
                }
            }
            assert forall|s: int| 0 <= s < other.spec_size() implies #[trigger] both.spec_state_color(
                self.spec_size() + s,
            ) == other.spec_state_color(s) by {
                assert(both.colors@[n1 + s] == other.colors@[s]);
            }
        }
        both
    }
}

impl<Q: Copy, C: Copy> Clone for DTS<Q, C> {
    fn clone(&self) -> (copy: Self)
        ensures
            self.wf() ==> copy.wf(),
            copy.symbols() == self.symbols(),
            copy.spec_size() == self.spec_size(),
            forall|q: int|
                0 <= q < self.spec_size() ==> #[trigger] copy.spec_state_color(q)
                    == self.spec_state_color(q),
            self.wf() ==> forall|q: int, sym: char| #[trigger]
                copy.spec_edge(q, sym) == self.spec_edge(q, sym),
    {
        let mut colors: Vec<Q> = Vec::new();
        let mut edges: Vec<Vec<Option<(C, usize)>>> = Vec::new();
        let mut q: usize = 0;
        while q < self.colors.len()
            invariant
                q <= self.colors@.len(),
                colors@ == self.colors@.take(q as int),
            decreases self.colors@.len() - q,
        {
            colors.push(self.colors[q]);
            assert(self.colors@.take(q + 1) == self.colors@.take(q as int).push(
                self.colors@[q as int],
            ));
            q += 1;
        }
        assert(self.colors@.take(self.colors@.len() as int) == self.colors@);
        let mut q: usize = 0;
        while q < self.edges.len()
            invariant
                q <= self.edges@.len(),
                edges@.len() == q,
                forall|s: int| 0 <= s < q ==> (#[trigger] edges@[s])@ == self.edges@[s]@,
            decreases self.edges@.len() - q,
        {
            let old_row = &self.edges[q];
            let mut row: Vec<Option<(C, usize)>> = Vec::new();
            let mut a: usize = 0;
            while a < old_row.len()
                invariant
                    a <= old_row@.len(),
                    row@ == old_row@.take(a as int),
                decreases old_row@.len() - a,
            {
                row.push(old_row[a]);
                assert(old_row@.take(a + 1) == old_row@.take(a as int).push(old_row@[a as int]));
                a += 1;
            }
            assert(old_row@.take(old_row@.len() as int) == old_row@);
            edges.push(row);
            q += 1;
        }
        let copy = DTS { alphabet: self.alphabet.clone(), colors, edges };
        proof {
            if self.wf() {
                assert forall|s: int| 0 <= s < copy.edges@.len() implies (#[trigger] copy.edges@[s])@.len()
                    == copy.alphabet@.len() by {
                    assert(copy.edges@[s]@ == self.edges@[s]@);
                }
                assert forall|s: int, a: int|
                    0 <= s < copy.edges@.len() && 0 <= a < copy.alphabet@.len() implies (
                #[trigger] copy.edges@[s]@[a] matches Some((_, t)) ==> t < copy.colors@.len()) by {
                    assert(copy.edges@[s]@ == self.edges@[s]@);
                    assert(self.edges@[s]@[a] matches Some((_, t)) ==> t < self.colors@.len());
                }
                assert forall|s: int, sym: char| #[trigger]
                    copy.spec_edge(s, sym) == self.spec_edge(s, sym) by {
                    if 0 <= s < self.colors@.len() {
                        assert(copy.edges@[s]@ == self.edges@[s]@);
                    }
                }
            }
        }
        copy
    }
}

impl<Q, C: Copy> DTS<Q, C> {
    /// The system with the same states and edges in which state `q` has the
    /// color `colors[q]`.
    pub fn recolor<Q2>(&self, colors: Vec<Q2>) -> (recolored: DTS<Q2, C>)
        requires
            self.wf(),
            colors@.len() == self.spec_size(),
        ensures
            recolored.wf(),
            recolored.spec_size() == self.spec_size(),
            recolored.symbols() == self.symbols(),
            forall|q: int|
                0 <= q < self.spec_size() ==> #[trigger] recolored.spec_state_color(q) == colors@[q],
            forall|q: int, sym: char| #[trigger]
                recolored.spec_edge(q, sym) == self.spec_edge(q, sym),
    {
        let mut edges: Vec<Vec<Option<(C, usize)>>> = Vec::new();
        let mut q: usize = 0;
        while q < self.edges.len()
            invariant
                q <= self.edges@.len(),
                edges@.len() == q,
                forall|s: int| 0 <= s < q ==> (#[trigger] edges@[s])@ == self.edges@[s]@,
            decreases self.edges@.len() - q,
        {
            let old_row = &self.edges[q];
            let mut row: Vec<Option<(C, usize)>> = Vec::new();
            let mut a: usize = 0;
            while a < old_row.len()
                invariant
                    a <= old_row@.len(),
                    row@ == old_row@.take(a as int),
                decreases old_row@.len() - a,
            {
                row.push(old_row[a]);
                assert(old_row@.take(a + 1) == old_row@.take(a as int).push(old_row@[a as int]));
                a += 1;
            }
            assert(old_row@.take(old_row@.len() as int) == old_row@);
            edges.push(row);
            q += 1;
        }
        let recolored = DTS { alphabet: self.alphabet.clone(), colors, edges };
        proof {
            assert forall|s: int| 0 <= s < recolored.edges@.len() implies (
            #[trigger] recolored.edges@[s])@.len() == recolored.alphabet@.len() by {
                assert(recolored.edges@[s]@ == self.edges@[s]@);
            }
            assert forall|s: int, a: int|
                0 <= s < recolored.edges@.len() && 0 <= a < recolored.alphabet@.len() implies (
            #[trigger] recolored.edges@[s]@[a] matches Some((_, t)) ==> t
                < recolored.colors@.len()) by {
                assert(recolored.edges@[s]@ == self.edges@[s]@);
                assert(self.edges@[s]@[a] matches Some((_, t)) ==> t < self.colors@.len());
            }
            assert forall|s: int, sym: char| #[trigger]
                recolored.spec_edge(s, sym) == self.spec_edge(s, sym) by {
                if 0 <= s < self.colors@.len() {
                    assert(recolored.edges@[s]@ == self.edges@[s]@);
                }
            }
        }
        recolored
    }
}

} // verus!
