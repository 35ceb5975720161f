//! Searching a transition system for a word that leads to a marked state.
use crate::ts::{StateIndex, DTS};
use vstd::prelude::*;

verus! {

/// Copies a word.
fn copy_word(word: &Vec<char>) -> (copy: Vec<char>)
    ensures
        copy@ == word@,
{
    let mut copy: Vec<char> = Vec::new();
    let mut i: usize = 0;
    while i < word.len()
        invariant
            i <= word@.len(),
            copy@ == word@.take(i as int),
        decreases word@.len() - i,
    {
        copy.push(word[i]);
        assert(word@.take(i + 1) == word@.take(i as int).push(word@[i as int]));
        i += 1;
    }
    assert(word@.take(word@.len() as int) == word@);
    copy
}

/// A list of different numbers below `n` has at most `n` entries.
pub proof fn lemma_distinct_below(list: Seq<StateIndex>, n: nat)
    requires
        list.no_duplicates(),
        forall|i: int| 0 <= i < list.len() ==> #[trigger] list[i] < n,
    ensures
        list.len() <= n,
{
    let numbers = Seq::new(list.len(), |i: int| list[i] as int);
    assert(numbers.no_duplicates());
    numbers.unique_seq_to_set();
    let range = vstd::set_lib::set_int_range(0, n as int);
    vstd::set_lib::lemma_int_range(0, n as int);
    assert(numbers.to_set().subset_of(range)) by {
        assert forall|x: int| numbers.to_set().contains(x) implies range.contains(x) by {
            let i = choose|i: int| 0 <= i < numbers.len() && numbers[i] == x;
            assert(list[i] < n);
        }
    }
    vstd::set_lib::lemma_len_subset(numbers.to_set(), range);
}

/// The states listed hold the start and are closed under edges, so they hold
/// every state that a word reaches from the start.
proof fn lemma_closed_holds_reached<Q, C>(
    ts: &DTS<Q, C>,
    found: Seq<bool>,
    q: int,
    w: Seq<char>,
)
    requires
        ts.wf(),
        found.len() == ts.spec_size(),
        0 <= q < ts.spec_size(),
        found[q],
        forall|s: int, sym: char|
            0 <= s < ts.spec_size() && found[s] ==> (#[trigger] ts.spec_edge(s, sym) matches Some(
                (_, t),
            ) ==> found[t]),
    ensures
        ts.reached(q, w) matches Some(t) ==> found[t],
    decreases w.len(),
{
    if w.len() > 0 {
        ts.lemma_edge_in_range(q, w[0]);
        if let Some((_, t)) = ts.spec_edge(q, w[0]) {
            lemma_closed_holds_reached(ts, found, t, w.skip(1));
        }
    }
}

impl<Q, C: Copy> DTS<Q, C> {
    /// Searches, breadth first, for a word that leads from `start` to a state
    /// that `marked` marks. Returns such a word if there is one, and `None` if
    /// no word leads from `start` to a marked state.
    pub fn find_word(&self, start: StateIndex, marked: &Vec<bool>) -> (word: Option<Vec<char>>)
        requires
            self.wf(),
            start < self.spec_size(),
            marked@.len() == self.spec_size(),
        ensures
            match word {
                Some(w) => self.reached(start as int, w@) matches Some(t) && 0 <= t < marked@.len()
                    && marked@[t],
                None => forall|w: Seq<char>|
                    (#[trigger] self.reached(start as int, w) matches Some(t) ==> 0 <= t
                        < marked@.len() && !marked@[t]),
            },
    {
        let n = self.size();
        let k = self.num_symbols();
        if marked[start] {
            let empty: Vec<char> = Vec::new();
            assert(self.reached(start as int, empty@) == Some(start as int));
            return Some(empty);
        }
        let mut paths: Vec<Option<Vec<char>>> = Vec::new();
        let mut q: usize = 0;
        while q < n
            invariant
                q <= n,
                paths@.len() == q,
                forall|s: int| 0 <= s < q ==> (#[trigger] paths@[s]).is_none(),
            decreases n - q,
        {
            paths.push(None);
            q += 1;
        }
        let mut order: Vec<StateIndex> = Vec::new();
        order.push(start);
        paths[start] = Some(Vec::new());
        let mut i: usize = 0;
        proof {
            assert(self.reached(start as int, Seq::<char>::empty()) == Some(start as int));
            assert(paths@[start as int].unwrap()@ =~= Seq::<char>::empty());
            assert(order@[0] == start);
            assert forall|s: int| 0 <= s < n && (#[trigger] paths@[s]).is_some() implies order@.contains(
                s as usize,
            ) by {
                assert(s == start);
            }
        }
        while i < order.len()
            invariant
                self.wf(),
                n == self.spec_size(),
                k == self.symbols().len(),
                marked@.len() == n,
                start < n,
                paths@.len() == n,
                i <= order@.len(),
                order@.no_duplicates(),
                forall|j: int| 0 <= j < order@.len() ==> #[trigger] order@[j] < n,
                forall|j: int|
                    0 <= j < order@.len() ==> (#[trigger] paths@[order@[j] as int]).is_some(),
                forall|s: int|
                    0 <= s < n && (#[trigger] paths@[s]).is_some() ==> order@.contains(s as usize),
                forall|s: int|
                    0 <= s < n && (#[trigger] paths@[s]).is_some() ==> !marked@[s] && self.reached(
                        start as int,
                        paths@[s].unwrap()@,
                    ) == Some(s),
                paths@[start as int].is_some(),
                forall|j: int, sym: char|
                    0 <= j < i ==> (#[trigger] self.spec_edge(order@[j] as int, sym) matches Some(
                        (_, t),
                    ) ==> paths@[t].is_some()),
            decreases n - i,
        {
            proof {
                lemma_distinct_below(order@, n as nat);
            }
            let q = order[i];
            let mut a: usize = 0;
            while a < k
                invariant
                    self.wf(),
                    n == self.spec_size(),
                    k == self.symbols().len(),
                    marked@.len() == n,
                    start < n,
                    paths@.len() == n,
                    i < order@.len(),
                    q == order@[i as int],
                    q < n,
                    a <= k,
                    order@.no_duplicates(),
                    forall|j: int| 0 <= j < order@.len() ==> #[trigger] order@[j] < n,
                    forall|j: int|
                        0 <= j < order@.len() ==> (#[trigger] paths@[order@[j] as int]).is_some(),
                    forall|s: int|
                        0 <= s < n && (#[trigger] paths@[s]).is_some() ==> order@.contains(
                            s as usize,
                        ),
                    forall|s: int|
                        0 <= s < n && (#[trigger] paths@[s]).is_some() ==> !marked@[s]
                            && self.reached(start as int, paths@[s].unwrap()@) == Some(s),
                    paths@[start as int].is_some(),
                    forall|j: int, sym: char|
                        0 <= j < i ==> (#[trigger] self.spec_edge(order@[j] as int, sym) matches Some(
                            (_, t),
                        ) ==> paths@[t].is_some()),
                    forall|b: int|
                        0 <= b < a ==> (#[trigger] self.spec_edge(
                            q as int,
                            self.symbols()[b],
                        ) matches Some((_, t)) ==> paths@[t].is_some()),
                decreases k - a,
            {
                let sym = self.symbol(a);
                match self.edge_at(q, a) {
                    Some((_, t)) => {
                        if paths[t].is_none() {
                            let mut path = match &paths[q] {
                                Some(p) => copy_word(p),
                                None => vstd::pervasive::unreached(),
                            };
                            let ghost prefix = path@;
                            path.push(sym);
                            proof {
                                self.lemma_reached_push(start as int, prefix, sym);
                                assert(self.reached(start as int, path@) == Some(t as int));
                            }
                            if marked[t] {
                                return Some(path);
                            }
                            let ghost before_paths = paths@;
                            let ghost before_order = order@;
                            paths[t] = Some(path);
                            order.push(t);
                            proof {
                                assert forall|j: int| 0 <= j < order@.len() implies (
                                #[trigger] paths@[order@[j] as int]).is_some() by {
                                    if j < before_order.len() {
                                        assert(before_paths[before_order[j] as int].is_some());
                                    }
                                }
                                assert forall|s: int|
                                    0 <= s < n && (#[trigger] paths@[s]).is_some() implies order@.contains(
                                    s as usize,
                                ) by {
                                    if s == t {
                                        assert(order@[order@.len() - 1] == t);
                                    } else {
                                        assert(before_paths[s].is_some());
                                        let j = choose|j: int|
                                            0 <= j < before_order.len() && before_order[j]
                                                == s as usize;
                                        assert(order@[j] == s as usize);
                                    }
                                }
                                assert(order@.no_duplicates()) by {
                                    assert forall|x: int, y: int|
                                        0 <= x < order@.len() && 0 <= y < order@.len() && x
                                            != y implies order@[x] != order@[y] by {
                                        if x == order@.len() - 1 {
                                            assert(before_paths[before_order[y] as int].is_some());
                                        } else if y == order@.len() - 1 {
                                            assert(before_paths[before_order[x] as int].is_some());
                                        }
                                    }
                                }
                            }
                        }
                    },
                    None => {},
                }
                a += 1;
            }
            proof {
                assert forall|sym: char| #[trigger]
                    self.spec_edge(q as int, sym) matches Some((_, t)) ==> paths@[t].is_some() by {
                    self.lemma_edge_in_range(q as int, sym);
                    if self.symbols().contains(sym) {
                        let b = self.symbols().index_of(sym);
                        assert(self.symbols()[b] == sym);
                    }
                }
            }
            i += 1;
        }
        proof {
            let found = Seq::new(n as nat, |s: int| paths@[s].is_some());
            assert forall|s: int, sym: char|
                0 <= s < self.spec_size() && found[s] implies (#[trigger] self.spec_edge(
                s,
                sym,
            ) matches Some((_, t)) ==> found[t]) by {
                self.lemma_edge_in_range(s, sym);
                assert(order@.contains(s as usize));
                let j = choose|j: int| 0 <= j < order@.len() && order@[j] == s as usize;
                assert(self.spec_edge(order@[j] as int, sym) matches Some((_, t)) ==> paths@[t].is_some());
            }
            assert forall|w: Seq<char>|
                (#[trigger] self.reached(start as int, w) matches Some(t) ==> 0 <= t < marked@.len()
                    && !marked@[t]) by {
                lemma_closed_holds_reached(self, found, start as int, w);
                self.lemma_reached_in_range(start as int, w);
            }
        }
        None
    }
}

} // verus!
