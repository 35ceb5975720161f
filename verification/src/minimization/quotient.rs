//! The quotient of a transition system by a partition of its states.
use crate::color::Color;
use crate::error::ConstructionError;
use crate::minimization::bisimulation::mealy_output;
use crate::minimization::partition::Partition;
use crate::minimization::partition_refinement::edges_agree;
use crate::ts::DTS;
use vstd::prelude::*;

verus! {

/// The least state of block `b`: the state that stands for the block.
pub open spec fn representative(partition: &Partition, b: int) -> int {
    partition.spec_block(b)[0] as int
}

/// States of one block agree on every edge.
pub open spec fn agreeing<Q, C>(ts: &DTS<Q, C>, partition: &Partition, colored: bool) -> bool {
    forall|p: int, q: int, sym: char|
        0 <= p < ts.spec_size() && 0 <= q < ts.spec_size() && partition.same_class(p, q)
            ==> #[trigger] edges_agree(ts, partition, colored, p, q, sym)
}

/// The edge that leaves block `b` on `sym` in the quotient: the edge of the
/// state that stands for `b`, led into the block of its target.
pub open spec fn quotient_edge<Q, C>(ts: &DTS<Q, C>, partition: &Partition, b: int, sym: char) -> Option<
    (C, int),
> {
    match ts.spec_edge(representative(partition, b), sym) {
        Some((c, t)) => Some((c, partition.spec_class_of(t))),
        None => None,
    }
}

/// The colors of the states of block `b`, in the order of the states.
pub open spec fn block_colors<Q, C>(ts: &DTS<Q, C>, partition: &Partition, b: int) -> Seq<Q> {
    Seq::new(
        partition.spec_block(b).len(),
        |i: int| ts.spec_state_color(partition.spec_block(b)[i] as int),
    )
}

/// `qt` is the quotient of `ts` by `partition`: its states are the blocks, the
/// color of a block lists the colors of its states, and its edges are those of
/// the states that stand for the blocks.
pub open spec fn is_quotient<Q, C>(ts: &DTS<Q, C>, partition: &Partition, qt: &DTS<Vec<Q>, C>) -> bool {
    &&& qt.wf()
    &&& qt.spec_size() == partition.num_blocks()
    &&& qt.symbols() == ts.symbols()
    &&& forall|b: int|
        0 <= b < partition.num_blocks() ==> (#[trigger] qt.spec_state_color(b))@ == block_colors(
            ts,
            partition,
            b,
        )
    &&& forall|b: int, sym: char|
        0 <= b < partition.num_blocks() ==> #[trigger] qt.spec_edge(b, sym) == quotient_edge(
            ts,
            partition,
            b,
            sym,
        )
}

/// Where the states of every block agree up to color, the quotient leads from
/// the block of a state into the block of the successor of the state.
pub proof fn lemma_quotient_successor<Q, C>(
    ts: &DTS<Q, C>,
    partition: &Partition,
    qt: &DTS<Vec<Q>, C>,
    q: int,
    sym: char,
)
    requires
        ts.wf(),
        partition.wf(),
        partition.num_states() == ts.spec_size(),
        agreeing(ts, partition, false),
        is_quotient(ts, partition, qt),
        0 <= q < ts.spec_size(),
    ensures
        qt.spec_successor(partition.spec_class_of(q), sym) == match ts.spec_successor(q, sym) {
            Some(t) => Some(partition.spec_class_of(t)),
            None => None,
        },
{
    partition.lemma_wf();
    let b = partition.spec_class_of(q);
    let rep = representative(partition, b);
    assert(partition.spec_class_of(rep) == b);
    assert(edges_agree(ts, partition, false, rep, q, sym));
    assert(qt.spec_edge(b, sym) == quotient_edge(ts, partition, b, sym));
}

/// The quotient reaches from the block of a state the block of the state that
/// the system reaches.
pub proof fn lemma_quotient_reached<Q, C>(
    ts: &DTS<Q, C>,
    partition: &Partition,
    qt: &DTS<Vec<Q>, C>,
    q: int,
    w: Seq<char>,
)
    requires
        ts.wf(),
        partition.wf(),
        partition.num_states() == ts.spec_size(),
        agreeing(ts, partition, false),
        is_quotient(ts, partition, qt),
        0 <= q < ts.spec_size(),
    ensures
        qt.reached(partition.spec_class_of(q), w) == match ts.reached(q, w) {
            Some(t) => Some(partition.spec_class_of(t)),
            None => None,
        },
    decreases w.len(),
{
    partition.lemma_wf();
    if w.len() > 0 {
        lemma_quotient_successor(ts, partition, qt, q, w[0]);
        ts.lemma_edge_in_range(q, w[0]);
        if let Some((_, t)) = ts.spec_edge(q, w[0]) {
            lemma_quotient_reached(ts, partition, qt, t, w.skip(1));
        }
    }
}

/// The quotient outputs from the block of a state what the system outputs from
/// the state.
pub proof fn lemma_quotient_mealy_output<Q, C>(
    ts: &DTS<Q, C>,
    partition: &Partition,
    qt: &DTS<Vec<Q>, C>,
    q: int,
    w: Seq<char>,
)
    requires
        ts.wf(),
        partition.wf(),
        partition.num_states() == ts.spec_size(),
        agreeing(ts, partition, true),
        is_quotient(ts, partition, qt),
        0 <= q < ts.spec_size(),
    ensures
        mealy_output(qt, partition.spec_class_of(q), w) == mealy_output(ts, q, w),
    decreases w.len(),
{
    if w.len() > 0 {
        lemma_quotient_edge(ts, partition, qt, q, w[0]);
        ts.lemma_edge_in_range(q, w[0]);
        if let Some((_, t)) = ts.spec_edge(q, w[0]) {
            if w.len() > 1 {
                lemma_quotient_mealy_output(ts, partition, qt, t, w.skip(1));
            }
        }
    }
}

/// Where the states of every block agree, the quotient takes from the block of
/// a state the edge that the state takes, led into the block of its target.
pub proof fn lemma_quotient_edge<Q, C>(
    ts: &DTS<Q, C>,
    partition: &Partition,
    qt: &DTS<Vec<Q>, C>,
    q: int,
    sym: char,
)
    requires
        ts.wf(),
        partition.wf(),
        partition.num_states() == ts.spec_size(),
        agreeing(ts, partition, true),
        is_quotient(ts, partition, qt),
        0 <= q < ts.spec_size(),
    ensures
        qt.spec_edge(partition.spec_class_of(q), sym) == match ts.spec_edge(q, sym) {
            Some((c, t)) => Some((c, partition.spec_class_of(t))),
            None => None,
        },
{
    partition.lemma_wf();
    let b = partition.spec_class_of(q);
    let rep = representative(partition, b);
    assert(partition.spec_class_of(rep) == b);
    assert(edges_agree(ts, partition, true, rep, q, sym));
    assert(qt.spec_edge(b, sym) == quotient_edge(ts, partition, b, sym));
}

/// Whether the edges that leave `p` and `q` on the symbol at position `a` agree.
fn edges_agree_at<Q, C: Color>(
    ts: &DTS<Q, C>,
    partition: &Partition,
    colored: bool,
    p: usize,
    q: usize,
    a: usize,
) -> (agree: bool)
    requires
        ts.wf(),
        partition.wf(),
        partition.num_states() == ts.spec_size(),
        p < ts.spec_size(),
        q < ts.spec_size(),
        a < ts.symbols().len(),
    ensures
        agree == edges_agree(ts, partition, colored, p as int, q as int, ts.symbols()[a as int]),
{
    match (ts.edge_at(p, a), ts.edge_at(q, a)) {
        (None, None) => true,
        (Some((c1, t1)), Some((c2, t2))) => {
            let same_color = !colored || c1.same(&c2);
            let same_block = partition.in_same_class(t1, t2);
            same_color && same_block
        },
        _ => false,
    }
}

/// Looks for a state that disagrees with the state that stands for its block.
fn find_conflict<Q, C: Color>(ts: &DTS<Q, C>, partition: &Partition, colored: bool) -> (conflict:
    Option<ConstructionError>)
    requires
        ts.wf(),
        partition.wf(),
        partition.num_states() == ts.spec_size(),
    ensures
        match conflict {
            None => agreeing(ts, partition, colored),
            Some(e) => e matches ConstructionError::QuotientColorConflict { block, state, symbol }
                && block < partition.num_blocks() && state < ts.spec_size()
                && partition.spec_class_of(state as int) == block && !edges_agree(
                ts,
                partition,
                colored,
                representative(partition, block as int),
                state as int,
                symbol,
            ),
        },
{
    let nb = partition.size();
    let k = ts.num_symbols();
    proof {
        partition.lemma_wf();
    }
    let mut b: usize = 0;
    while b < nb
        invariant
            ts.wf(),
            partition.wf(),
            partition.num_states() == ts.spec_size(),
            nb == partition.num_blocks(),
            k == ts.symbols().len(),
            b <= nb,
            forall|c: int, i: int, a: int|
                0 <= c < b && 0 <= i < partition.spec_block(c).len() && 0 <= a < k
                    ==> #[trigger] edges_agree(
                    ts,
                    partition,
                    colored,
                    representative(partition, c),
                    partition.spec_block(c)[i] as int,
                    ts.symbols()[a],
                ),
        decreases nb - b,
    {
        let block = partition.block(b);
        let rep = partition.representative(b);
        let mut i: usize = 0;
        while i < block.len()
            invariant
                ts.wf(),
                partition.wf(),
                partition.num_states() == ts.spec_size(),
                nb == partition.num_blocks(),
                k == ts.symbols().len(),
                b < nb,
                block@ == partition.spec_block(b as int),
                rep == representative(partition, b as int),
                rep < ts.spec_size(),
                i <= block@.len(),
                forall|j: int, a: int|
                    0 <= j < i && 0 <= a < k ==> #[trigger] edges_agree(
                        ts,
                        partition,
                        colored,
                        rep as int,
                        block@[j] as int,
                        ts.symbols()[a],
                    ),
            decreases block@.len() - i,
        {
            let s = block[i];
            proof {
                partition.lemma_wf();
                assert(partition.spec_block(b as int)[i as int] < partition.num_states());
            }
            let mut a: usize = 0;
            while a < k
                invariant
                    ts.wf(),
                    partition.wf(),
                    partition.num_states() == ts.spec_size(),
                    k == ts.symbols().len(),
                    b < partition.num_blocks(),
                    rep == representative(partition, b as int),
                    rep < ts.spec_size(),
                    s < ts.spec_size(),
                    partition.spec_class_of(s as int) == b,
                    a <= k,
                    forall|c: int|
                        0 <= c < a ==> #[trigger] edges_agree(
                            ts,
                            partition,
                            colored,
                            rep as int,
                            s as int,
                            ts.symbols()[c],
                        ),
                decreases k - a,
            {
                if !edges_agree_at(ts, partition, colored, rep, s, a) {
                    let symbol = ts.symbol(a);
                    return Some(
                        ConstructionError::QuotientColorConflict { block: b, state: s, symbol },
                    );
                }
                a += 1;
            }
            i += 1;
        }
        b += 1;
    }
    proof {
        partition.lemma_wf();
        assert forall|p: int, q: int, sym: char|
            0 <= p < ts.spec_size() && 0 <= q < ts.spec_size() && partition.same_class(p, q)
            implies #[trigger] edges_agree(ts, partition, colored, p, q, sym) by {
            let c = partition.spec_class_of(p);
            let rep = representative(partition, c);
            ts.lemma_edge_in_range(p, sym);
            ts.lemma_edge_in_range(q, sym);
            ts.lemma_edge_in_range(rep, sym);
            if ts.symbols().contains(sym) {
                let a = ts.symbols().index_of(sym);
                assert(partition.spec_block(c).contains(p as usize));
                assert(partition.spec_block(c).contains(q as usize));
                let i = partition.spec_block(c).index_of(p as usize);
                let j = partition.spec_block(c).index_of(q as usize);
                assert(edges_agree(
                    ts,
                    partition,
                    colored,
                    rep,
                    partition.spec_block(c)[i] as int,
                    ts.symbols()[a],
                ));
                assert(edges_agree(
                    ts,
                    partition,
                    colored,
                    rep,
                    partition.spec_block(c)[j] as int,
                    ts.symbols()[a],
                ));
            }
        }
    }
    None
}

/// The colors of the states of block `b`, in the order of the states.
fn collect_colors<Q: Copy, C>(ts: &DTS<Q, C>, partition: &Partition, b: usize) -> (colors: Vec<Q>)
    requires
        ts.wf(),
        partition.wf(),
        partition.num_states() == ts.spec_size(),
        b < partition.num_blocks(),
    ensures
        colors@ == block_colors(ts, partition, b as int),
{
    let block = partition.block(b);
    let mut colors: Vec<Q> = Vec::new();
    let mut i: usize = 0;
    while i < block.len()
        invariant
            ts.wf(),
            partition.wf(),
            partition.num_states() == ts.spec_size(),
            b < partition.num_blocks(),
            block@ == partition.spec_block(b as int),
            i <= block@.len(),
            colors@.len() == i,
            forall|j: int| 0 <= j < i ==> colors@[j] == ts.spec_state_color(block@[j] as int),
        decreases block@.len() - i,
    {
        proof {
            partition.lemma_wf();
            assert(partition.spec_block(b as int)[i as int] < partition.num_states());
        }
        let color = *ts.state_color(block[i]).unwrap();
        colors.push(color);
        i += 1;
    }
    assert(colors@ =~= block_colors(ts, partition, b as int));
    colors
}

/// Builds the quotient of `ts` by `partition`: one state for every block, with
/// the colors of the states of the block for its color, and with the edges of
/// the least state of the block, led into the blocks of their targets.
///
/// The states of a block have to agree on their edges: on each symbol they all
/// lack an edge, or their edges lead into one block and, where `colored` holds,
/// have one color. If they do not, no quotient is built, and the error names a
/// state that disagrees with the least state of its block, and the symbol.
pub fn quotient<Q: Copy, C: Color>(ts: &DTS<Q, C>, partition: &Partition, colored: bool) -> (r: Result<
    DTS<Vec<Q>, C>,
    ConstructionError,
>)
    requires
        ts.wf(),
        partition.wf(),
        partition.num_states() == ts.spec_size(),
    ensures
        match r {
            Ok(qt) => agreeing(ts, partition, colored) && is_quotient(ts, partition, &qt),
            Err(e) => !agreeing(ts, partition, colored) && (e matches ConstructionError::QuotientColorConflict {
                block,
                state,
                symbol,
            } && block < partition.num_blocks() && state < ts.spec_size()
                && partition.spec_class_of(state as int) == block && !edges_agree(
                ts,
                partition,
                colored,
                representative(partition, block as int),
                state as int,
                symbol,
            )),
        },
{
    proof {
        partition.lemma_wf();
    }
    match find_conflict(ts, partition, colored) {
        Some(e) => {
            proof {
                if let ConstructionError::QuotientColorConflict { block, state, symbol } = e {
                    let rep = representative(partition, block as int);
                    assert(partition.spec_block(block as int)[0] < partition.num_states());
                    assert(partition.same_class(rep, state as int));
                }
            }
            return Err(e);
        },
        None => {},
    }
    let nb = partition.size();
    let k = ts.num_symbols();
    let mut qt: DTS<Vec<Q>, C> = DTS::for_alphabet(ts.alphabet().clone());
    let mut b: usize = 0;
    while b < nb
        invariant
            ts.wf(),
            partition.wf(),
            partition.num_states() == ts.spec_size(),
            nb == partition.num_blocks(),
            b <= nb,
            qt.wf(),
            qt.spec_size() == b,
            qt.symbols() == ts.symbols(),
            forall|c: int|
                0 <= c < b ==> (#[trigger] qt.spec_state_color(c))@ == block_colors(ts, partition, c),
            forall|c: int, sym: char| (#[trigger] qt.spec_edge(c, sym)).is_none(),
        decreases nb - b,
    {
        let colors = collect_colors(ts, partition, b);
        qt.add_state(colors);
        b += 1;
    }
    let mut b: usize = 0;
    while b < nb
        invariant
            ts.wf(),
            partition.wf(),
            partition.num_states() == ts.spec_size(),
            nb == partition.num_blocks(),
            k == ts.symbols().len(),
            b <= nb,
            qt.wf(),
            qt.spec_size() == nb,
            qt.symbols() == ts.symbols(),
            forall|c: int|
                0 <= c < nb ==> (#[trigger] qt.spec_state_color(c))@ == block_colors(ts, partition, c),
            forall|c: int, sym: char|
                0 <= c < b ==> #[trigger] qt.spec_edge(c, sym) == quotient_edge(ts, partition, c, sym),
            forall|c: int, sym: char| b <= c ==> (#[trigger] qt.spec_edge(c, sym)).is_none(),
        decreases nb - b,
    {
        let rep = partition.representative(b);
        let mut a: usize = 0;
        while a < k
            invariant
                ts.wf(),
                partition.wf(),
                partition.num_states() == ts.spec_size(),
                nb == partition.num_blocks(),
                k == ts.symbols().len(),
                b < nb,
                a <= k,
                rep == representative(partition, b as int),
                rep < ts.spec_size(),
                qt.wf(),
                qt.spec_size() == nb,
                qt.symbols() == ts.symbols(),
                forall|c: int|
                    0 <= c < nb ==> (#[trigger] qt.spec_state_color(c))@ == block_colors(
                        ts,
                        partition,
                        c,
                    ),
                forall|c: int, sym: char|
                    0 <= c < b ==> #[trigger] qt.spec_edge(c, sym) == quotient_edge(
                        ts,
                        partition,
                        c,
                        sym,
                    ),
                forall|c: int, sym: char| b < c ==> (#[trigger] qt.spec_edge(c, sym)).is_none(),
                forall|i: int|
                    0 <= i < a ==> #[trigger] qt.spec_edge(b as int, ts.symbols()[i]) == quotient_edge(
                        ts,
                        partition,
                        b as int,
                        ts.symbols()[i],
                    ),
                forall|i: int|
                    a <= i < k ==> (#[trigger] qt.spec_edge(b as int, ts.symbols()[i])).is_none(),
            decreases k - a,
        {
            let sym = ts.symbol(a);
            let ghost before = qt;
            proof {
                ts.lemma_edge_in_range(rep as int, sym);
                assert(ts.symbols().contains(sym));
            }
            match ts.edge_at(rep, a) {
                Some((c, t)) => {
                    let target = partition.class_of(t).unwrap();
                    let overlap = qt.add_edge(b, sym, c, target);
                    assert(overlap.is_none());
                },
                None => {},
            }
            proof {
                assert forall|i: int| 0 <= i < k && i != a implies qt.spec_edge(
                    b as int,
                    #[trigger] ts.symbols()[i],
                ) == before.spec_edge(b as int, ts.symbols()[i]) by {
                    if i < a {
                        assert((ts.symbols()[i] as int) < (ts.symbols()[a as int] as int));
                    } else {
                        assert((ts.symbols()[a as int] as int) < (ts.symbols()[i] as int));
                    }
                }
            }
            a += 1;
        }
        proof {
            assert forall|sym: char| #[trigger]
                qt.spec_edge(b as int, sym) == quotient_edge(ts, partition, b as int, sym) by {
                qt.lemma_edge_in_range(b as int, sym);
                ts.lemma_edge_in_range(rep as int, sym);
                if ts.symbols().contains(sym) {
                    let i = ts.symbols().index_of(sym);
                    assert(ts.symbols()[i] == sym);
                }
            }
        }
        b += 1;
    }
    Ok(qt)
}

} // verus!
