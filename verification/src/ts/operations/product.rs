//! The product of two deterministic transition systems, restricted to the
//! pairs of states that can be reached from a pair of initial states.
use crate::precise::finite::{lemma_distinct_lists_bounded, lists_of_length};
use crate::ts::{StateIndex, DTS};
use vstd::prelude::*;

verus! {

/// The edge that leaves the pair `(p, q)` on `sym` in the product: both
/// systems take an edge, and the pair of the colors and the pair of the
/// targets come out.
pub open spec fn product_edge<Q1, C1, Q2, C2>(
    left: &DTS<Q1, C1>,
    right: &DTS<Q2, C2>,
    p: int,
    q: int,
    sym: char,
) -> Option<((C1, C2), (int, int))> {
    match (left.spec_edge(p, sym), right.spec_edge(q, sym)) {
        (Some((c1, t1)), Some((c2, t2))) => Some(((c1, c2), (t1, t2))),
        _ => None,
    }
}

/// In `ts`, state `i` has the edge on `sym` that the `i`-th pair has in the
/// product, led to the position of the pair of the targets.
pub open spec fn product_edge_recorded<Q1, C1, Q2, C2>(
    left: &DTS<Q1, C1>,
    right: &DTS<Q2, C2>,
    pairs: Seq<(StateIndex, StateIndex)>,
    ts: &DTS<(Q1, Q2), (C1, C2)>,
    i: int,
    sym: char,
) -> bool {
    match product_edge(left, right, pairs[i].0 as int, pairs[i].1 as int, sym) {
        Some((c, (t1, t2))) => ts.spec_edge(i, sym) matches Some((d, j)) && d == c && 0 <= j
            < pairs.len() && pairs[j].0 == t1 && pairs[j].1 == t2,
        None => ts.spec_edge(i, sym).is_none(),
    }
}

/// The pair at position `j` was found as the target of an edge that leaves a
/// pair at an earlier position.
pub open spec fn pair_found_from_earlier<Q1, C1, Q2, C2>(
    left: &DTS<Q1, C1>,
    right: &DTS<Q2, C2>,
    pairs: Seq<(StateIndex, StateIndex)>,
    j: int,
) -> bool {
    exists|i: int, a: int|
        0 <= i < j && 0 <= a < left.symbols().len() && #[trigger] pair_leads_to(
            left,
            right,
            pairs,
            i,
            a,
            j,
        )
}

/// The edge that leaves the pair at position `i` on the symbol at position `a`
/// leads to the pair at position `j`.
pub open spec fn pair_leads_to<Q1, C1, Q2, C2>(
    left: &DTS<Q1, C1>,
    right: &DTS<Q2, C2>,
    pairs: Seq<(StateIndex, StateIndex)>,
    i: int,
    a: int,
    j: int,
) -> bool {
    match product_edge(left, right, pairs[i].0 as int, pairs[i].1 as int, left.symbols()[a]) {
        Some((_, (t1, t2))) => pairs[j].0 == t1 && pairs[j].1 == t2,
        None => false,
    }
}

/// The list `pairs` and the system `ts` are the product of `left` and `right`
/// as far as it can be reached from the first pair: the list holds no pair
/// twice and with every pair the targets of its edges, and `ts` has one state
/// for every position of the list, with the pair of the colors for its color,
/// and the edges of the pairs listed.
pub open spec fn is_product<Q1, C1, Q2, C2>(
    left: &DTS<Q1, C1>,
    right: &DTS<Q2, C2>,
    pairs: Seq<(StateIndex, StateIndex)>,
    ts: &DTS<(Q1, Q2), (C1, C2)>,
) -> bool {
    &&& ts.wf()
    &&& ts.symbols() == left.symbols()
    &&& ts.spec_size() == pairs.len()
    &&& pairs.len() > 0
    &&& pairs.no_duplicates()
    &&& forall|i: int|
        0 <= i < pairs.len() ==> (#[trigger] pairs[i]).0 < left.spec_size() && pairs[i].1
            < right.spec_size()
    &&& forall|i: int|
        0 <= i < pairs.len() ==> #[trigger] ts.spec_state_color(i) == (
            left.spec_state_color(pairs[i].0 as int),
            right.spec_state_color(pairs[i].1 as int),
        )
    &&& forall|i: int, sym: char|
        0 <= i < pairs.len() ==> #[trigger] product_edge_recorded(left, right, pairs, ts, i, sym)
    &&& forall|j: int|
        0 < j < pairs.len() ==> #[trigger] pair_found_from_earlier(left, right, pairs, j)
}

/// The product reaches from the position of a pair the position of the pair of
/// the states that the two systems reach, and reaches nothing where one of
/// them reaches nothing.
pub proof fn lemma_product_reached<Q1, C1, Q2, C2>(
    left: &DTS<Q1, C1>,
    right: &DTS<Q2, C2>,
    pairs: Seq<(StateIndex, StateIndex)>,
    ts: &DTS<(Q1, Q2), (C1, C2)>,
    i: int,
    w: Seq<char>,
)
    requires
        left.wf(),
        right.wf(),
        is_product(left, right, pairs, ts),
        0 <= i < pairs.len(),
    ensures
        match (left.reached(pairs[i].0 as int, w), right.reached(pairs[i].1 as int, w)) {
            (Some(a), Some(b)) => ts.reached(i, w) matches Some(j) && 0 <= j < pairs.len()
                && pairs[j].0 == a && pairs[j].1 == b,
            _ => ts.reached(i, w).is_none(),
        },
    decreases w.len(),
{
    if w.len() > 0 {
        assert(product_edge_recorded(left, right, pairs, ts, i, w[0]));
        left.lemma_edge_in_range(pairs[i].0 as int, w[0]);
        right.lemma_edge_in_range(pairs[i].1 as int, w[0]);
        match product_edge(left, right, pairs[i].0 as int, pairs[i].1 as int, w[0]) {
            Some((c, (t1, t2))) => {
                let (d, j) = ts.spec_edge(i, w[0]).unwrap();
                lemma_product_reached(left, right, pairs, ts, j, w.skip(1));
            },
            None => {
                if let Some((_, t1)) = left.spec_edge(pairs[i].0 as int, w[0]) {
                    left.lemma_reached_in_range(t1, w.skip(1));
                }
            },
        }
    }
}

/// The position of `pair` in `pairs`.
fn position(pairs: &Vec<(StateIndex, StateIndex)>, pair: (StateIndex, StateIndex)) -> (found: Option<
    usize,
>)
    ensures
        match found {
            Some(j) => j < pairs@.len() && pairs@[j as int] == pair,
            None => forall|j: int| 0 <= j < pairs@.len() ==> pairs@[j] != pair,
        },
{
    let mut j: usize = 0;
    while j < pairs.len()
        invariant
            j <= pairs@.len(),
            forall|i: int| 0 <= i < j ==> pairs@[i] != pair,
        decreases pairs@.len() - j,
    {
        if pairs[j].0 == pair.0 && pairs[j].1 == pair.1 {
            return Some(j);
        }
        j += 1;
    }
    None
}

/// A list of different pairs is at most as long as there are lists of two
/// machine numbers.
proof fn lemma_distinct_pairs_bounded(pairs: Seq<(StateIndex, StateIndex)>)
    requires
        pairs.no_duplicates(),
    ensures
        pairs.len() <= lists_of_length(2).len(),
{
    let lists = Seq::new(pairs.len(), |i: int| seq![pairs[i].0, pairs[i].1]);
    assert forall|i: int, j: int| 0 <= i < lists.len() && 0 <= j < lists.len() && i != j implies lists[i]
        != lists[j] by {
        if lists[i] == lists[j] {
            assert(lists[i][0] == lists[j][0]);
            assert(lists[i][1] == lists[j][1]);
        }
    }
    lemma_distinct_lists_bounded(lists, 2);
}

/// Builds the product of `left` and `right` as far as it can be reached from
/// the pair `(l0, r0)`. Returns the pairs that can be reached, in the order in
/// which they are found, and the system whose states are their positions.
pub fn product<Q1: Copy, C1: Copy, Q2: Copy, C2: Copy>(
    left: &DTS<Q1, C1>,
    l0: StateIndex,
    right: &DTS<Q2, C2>,
    r0: StateIndex,
) -> (r: (Vec<(StateIndex, StateIndex)>, DTS<(Q1, Q2), (C1, C2)>))
    requires
        left.wf(),
        right.wf(),
        left.symbols() == right.symbols(),
        l0 < left.spec_size(),
        r0 < right.spec_size(),
    ensures
        is_product(left, right, r.0@, &r.1),
        r.0@[0] == (l0, r0),
{
    let k = left.num_symbols();
    let mut ts: DTS<(Q1, Q2), (C1, C2)> = DTS::for_alphabet(left.alphabet().clone());
    let mut pairs: Vec<(StateIndex, StateIndex)> = Vec::new();
    pairs.push((l0, r0));
    ts.add_state((*left.state_color(l0).unwrap(), *right.state_color(r0).unwrap()));
    let ghost bound = lists_of_length(2).len() as int;
    proof {
        lemma_distinct_pairs_bounded(pairs@);
    }
    let mut i: usize = 0;
    while i < pairs.len()
        invariant
            left.wf(),
            right.wf(),
            left.symbols() == right.symbols(),
            k == left.symbols().len(),
            bound == lists_of_length(2).len(),
            ts.wf(),
            ts.symbols() == left.symbols(),
            ts.spec_size() == pairs@.len(),
            pairs@.len() > 0,
            pairs@.len() <= bound,
            i <= pairs@.len(),
            pairs@[0] == (l0, r0),
            pairs@.no_duplicates(),
            forall|j: int|
                0 <= j < pairs@.len() ==> (#[trigger] pairs@[j]).0 < left.spec_size() && pairs@[j].1
                    < right.spec_size(),
            forall|j: int|
                0 <= j < pairs@.len() ==> #[trigger] ts.spec_state_color(j) == (
                    left.spec_state_color(pairs@[j].0 as int),
                    right.spec_state_color(pairs@[j].1 as int),
                ),
            forall|j: int, sym: char|
                0 <= j < i ==> #[trigger] product_edge_recorded(left, right, pairs@, &ts, j, sym),
            forall|j: int, sym: char| i <= j ==> (#[trigger] ts.spec_edge(j, sym)).is_none(),
            forall|j: int|
                0 < j < pairs@.len() ==> #[trigger] pair_found_from_earlier(left, right, pairs@, j),
        decreases 2 * bound - pairs@.len() - i,
    {
        let (p, q) = pairs[i];
        let ghost len0 = pairs@.len();
        let mut a: usize = 0;
        while a < k
            invariant
                left.wf(),
                right.wf(),
                left.symbols() == right.symbols(),
                k == left.symbols().len(),
                bound == lists_of_length(2).len(),
                ts.wf(),
                ts.symbols() == left.symbols(),
                ts.spec_size() == pairs@.len(),
                pairs@.len() >= len0,
                pairs@.len() <= bound,
                i < pairs@.len(),
                a <= k,
                pairs@[i as int] == (p, q),
                pairs@[0] == (l0, r0),
                pairs@.no_duplicates(),
                forall|j: int|
                    0 <= j < pairs@.len() ==> (#[trigger] pairs@[j]).0 < left.spec_size()
                        && pairs@[j].1 < right.spec_size(),
                forall|j: int|
                    0 <= j < pairs@.len() ==> #[trigger] ts.spec_state_color(j) == (
                        left.spec_state_color(pairs@[j].0 as int),
                        right.spec_state_color(pairs@[j].1 as int),
                    ),
                forall|j: int, sym: char|
                    0 <= j < i ==> #[trigger] product_edge_recorded(left, right, pairs@, &ts, j, sym),
                forall|b: int|
                    0 <= b < a ==> #[trigger] product_edge_recorded(
                        left,
                        right,
                        pairs@,
                        &ts,
                        i as int,
                        left.symbols()[b],
                    ),
                forall|b: int|
                    a <= b < k ==> (#[trigger] ts.spec_edge(i as int, left.symbols()[b])).is_none(),
                forall|x: char|
                    !left.symbols().contains(x) ==> (#[trigger] ts.spec_edge(i as int, x)).is_none(),
                forall|j: int, sym: char| i < j ==> (#[trigger] ts.spec_edge(j, sym)).is_none(),
                forall|j: int|
                    0 < j < pairs@.len() ==> #[trigger] pair_found_from_earlier(
                        left,
                        right,
                        pairs@,
                        j,
                    ),
            decreases k - a,
        {
            let sym = left.symbol(a);
            let ghost before = pairs@;
            let ghost ts0 = ts;
            proof {
                left.lemma_edge_in_range(p as int, sym);
                assert(left.symbols().contains(sym));
                assert forall|b: int| 0 <= b < k && b != a implies left.symbols()[b] != sym by {
                    if b < a {
                        assert((left.symbols()[b] as int) < (left.symbols()[a as int] as int));
                    } else {
                        assert((left.symbols()[a as int] as int) < (left.symbols()[b] as int));
                    }
                }
            }
            match (left.edge_at(p, a), right.edge_at(q, a)) {
                (Some((c1, t1)), Some((c2, t2))) => {
                    let j = match position(&pairs, (t1, t2)) {
                        Some(j) => j,
                        None => {
                            pairs.push((t1, t2));
                            ts.add_state(
                                (*left.state_color(t1).unwrap(), *right.state_color(t2).unwrap()),
                            );
                            proof {
                                let after = pairs@;
                                assert(after == before.push((t1, t2)));
                                lemma_distinct_pairs_bounded(after);
                                assert(after[i as int] == (p, q));
                                assert(product_edge(
                                    left,
                                    right,
                                    after[i as int].0 as int,
                                    after[i as int].1 as int,
                                    left.symbols()[a as int],
                                ) == Some(((c1, c2), (t1 as int, t2 as int))));
                                assert(pair_leads_to(
                                    left,
                                    right,
                                    after,
                                    i as int,
                                    a as int,
                                    after.len() - 1,
                                ));
                                assert(pair_found_from_earlier(left, right, after, after.len() - 1));
                                assert forall|j: int| 0 < j < after.len() implies #[trigger] pair_found_from_earlier(
                                    left,
                                    right,
                                    after,
                                    j,
                                ) by {
                                    if j < before.len() {
                                        assert(pair_found_from_earlier(left, right, before, j));
                                        let (i0, a0) = choose|i0: int, a0: int|
                                            0 <= i0 < j && 0 <= a0 < left.symbols().len()
                                                && #[trigger] pair_leads_to(
                                                left,
                                                right,
                                                before,
                                                i0,
                                                a0,
                                                j,
                                            );
                                        assert(after[i0] == before[i0]);
                                        assert(after[j] == before[j]);
                                        assert(pair_leads_to(left, right, after, i0, a0, j));
                                    }
                                }
                                assert forall|j: int, x: char|
                                    0 <= j < i implies #[trigger] product_edge_recorded(
                                    left,
                                    right,
                                    after,
                                    &ts,
                                    j,
                                    x,
                                ) by {
                                    assert(product_edge_recorded(left, right, before, &ts0, j, x));
                                }
                                assert forall|b: int| 0 <= b < a implies #[trigger] product_edge_recorded(
                                    left,
                                    right,
                                    after,
                                    &ts,
                                    i as int,
                                    left.symbols()[b],
                                ) by {
                                    assert(product_edge_recorded(
                                        left,
                                        right,
                                        before,
                                        &ts0,
                                        i as int,
                                        left.symbols()[b],
                                    ));
                                }
                            }
                            pairs.len() - 1
                        },
                    };
                    let ghost mid = pairs@;
                    let ghost ts1 = ts;
                    let overlap = ts.add_edge(i, sym, (c1, c2), j);
                    proof {
                        assert(overlap.is_none());
                        assert(product_edge_recorded(left, right, mid, &ts, i as int, sym));
                        assert forall|j: int, x: char|
                            0 <= j < i implies #[trigger] product_edge_recorded(
                            left,
                            right,
                            mid,
                            &ts,
                            j,
                            x,
                        ) by {
                            assert(product_edge_recorded(left, right, mid, &ts1, j, x));
                        }
                        assert forall|b: int| 0 <= b < a + 1 implies #[trigger] product_edge_recorded(
                            left,
                            right,
                            mid,
                            &ts,
                            i as int,
                            left.symbols()[b],
                        ) by {
                            if b < a {
                                assert(product_edge_recorded(
                                    left,
                                    right,
                                    mid,
                                    &ts1,
                                    i as int,
                                    left.symbols()[b],
                                ));
                            }
                        }
                    }
                },
                _ => {
                    proof {
                        assert(product_edge(left, right, p as int, q as int, sym).is_none());
                        assert(product_edge_recorded(left, right, pairs@, &ts, i as int, sym));
                    }
                },
            }
            a += 1;
        }
        proof {
            assert forall|sym: char| #[trigger]
                product_edge_recorded(left, right, pairs@, &ts, i as int, sym) by {
                left.lemma_edge_in_range(p as int, sym);
                if left.symbols().contains(sym) {
                    let b = left.symbols().index_of(sym);
                    assert(product_edge_recorded(
                        left,
                        right,
                        pairs@,
                        &ts,
                        i as int,
                        left.symbols()[b],
                    ));
                }
            }
        }
        i += 1;
    }
    (pairs, ts)
}

/// Every pair that the product lists can be reached: a word leads from the
/// first pair to it.
pub proof fn lemma_product_listed_reachable<Q1, C1, Q2, C2>(
    left: &DTS<Q1, C1>,
    right: &DTS<Q2, C2>,
    pairs: Seq<(StateIndex, StateIndex)>,
    ts: &DTS<(Q1, Q2), (C1, C2)>,
    j: int,
) -> (w: Seq<char>)
    requires
        left.wf(),
        right.wf(),
        is_product(left, right, pairs, ts),
        0 <= j < pairs.len(),
    ensures
        ts.reached(0, w) == Some(j),
        left.reached(pairs[0].0 as int, w) == Some(pairs[j].0 as int),
        right.reached(pairs[0].1 as int, w) == Some(pairs[j].1 as int),
    decreases j,
{
    if j == 0 {
        Seq::<char>::empty()
    } else {
        assert(pair_found_from_earlier(left, right, pairs, j));
        let (i, a) = choose|i: int, a: int|
            0 <= i < j && 0 <= a < left.symbols().len() && #[trigger] pair_leads_to(
                left,
                right,
                pairs,
                i,
                a,
                j,
            );
        let v = lemma_product_listed_reachable(left, right, pairs, ts, i);
        let sym = left.symbols()[a];
        left.lemma_reached_push(pairs[0].0 as int, v, sym);
        right.lemma_reached_push(pairs[0].1 as int, v, sym);
        ts.lemma_reached_push(0, v, sym);
        assert(product_edge_recorded(left, right, pairs, ts, i, sym));
        let (d, l) = ts.spec_edge(i, sym).unwrap();
        assert(pairs[l] == pairs[j]);
        v.push(sym)
    }
}

} // verus!
