//! The invariants of partition refinement and the proofs that splitting keeps them.
use crate::alphabet::position_of;
use crate::minimization::bisimulation::{label, lemma_trace_step, trace, trace_equivalent};
use crate::ts::DTS;
use vstd::prelude::*;
use vstd::set_lib::{lemma_int_range, lemma_len_subset, lemma_map_size_bound, set_int_range};

verus! {

/// `cls` gives each of the `n` states a class below `count`.
pub open spec fn valid_classes(cls: Seq<usize>, n: nat, count: nat) -> bool {
    &&& cls.len() == n
    &&& forall|q: int| 0 <= q < n ==> #[trigger] cls[q] < count
}

/// Some state belongs to class `b`.
pub open spec fn has_member(cls: Seq<usize>, b: usize) -> bool {
    exists|q: int| 0 <= q < cls.len() && #[trigger] cls[q] == b
}

/// Every class below `count` has a member.
pub open spec fn nonempty_classes(cls: Seq<usize>, count: nat) -> bool {
    forall|b: usize| b < count ==> #[trigger] has_member(cls, b)
}

/// States that `cls` puts together, `init` puts together too.
pub open spec fn refines(cls: Seq<usize>, init: Seq<usize>) -> bool {
    &&& cls.len() == init.len()
    &&& forall|p: int, q: int|
        0 <= p < cls.len() && 0 <= q < cls.len() && #[trigger] cls[p] == #[trigger] cls[q]
            ==> init[p] == init[q]
}

/// The edges that leave `p` and `q` on `sym` agree: both are missing, or they
/// have the same (kept or forgotten) color and lead into the same class.
pub open spec fn labels_agree<Q, C>(
    ts: &DTS<Q, C>,
    colored: bool,
    cls: Seq<usize>,
    p: int,
    q: int,
    sym: char,
) -> bool {
    match (label(ts, colored, p, sym), label(ts, colored, q, sym)) {
        (None, None) => true,
        (Some((c1, t1)), Some((c2, t2))) => c1 == c2 && cls[t1] == cls[t2],
        _ => false,
    }
}

/// States of one class have agreeing edges on every symbol.
pub open spec fn stable<Q, C>(ts: &DTS<Q, C>, colored: bool, cls: Seq<usize>) -> bool {
    forall|p: int, q: int, sym: char|
        0 <= p < cls.len() && 0 <= q < cls.len() && cls[p] == cls[q] ==> #[trigger] labels_agree(
            ts,
            colored,
            cls,
            p,
            q,
            sym,
        )
}

/// States of different classes are told apart by some word.
pub open spec fn separated<Q, C>(
    ts: &DTS<Q, C>,
    colored: bool,
    init: Seq<usize>,
    cls: Seq<usize>,
) -> bool {
    forall|p: int, q: int|
        0 <= p < cls.len() && 0 <= q < cls.len() && #[trigger] cls[p] != #[trigger] cls[q]
            ==> !trace_equivalent(ts, colored, init, p, q)
}

/// What state `q` shows of its edge on `sym` to one who sees only whether the
/// edge leads into the set `inset`: the color of the edge if it does.
pub open spec fn sig_set<Q, C>(
    ts: &DTS<Q, C>,
    colored: bool,
    inset: Seq<bool>,
    q: int,
    sym: char,
) -> Option<Option<C>> {
    match label(ts, colored, q, sym) {
        Some((c, t)) => if inset[t] {
            Some(c)
        } else {
            None
        },
        None => None,
    }
}

/// As `sig_set`, for the set of the states of class `b`.
pub open spec fn sig_blk<Q, C>(
    ts: &DTS<Q, C>,
    colored: bool,
    cls: Seq<usize>,
    b: usize,
    q: int,
    sym: char,
) -> Option<Option<C>> {
    match label(ts, colored, q, sym) {
        Some((c, t)) => if cls[t] == b {
            Some(c)
        } else {
            None
        },
        None => None,
    }
}

/// Class `b` tells `p` from `q` on `sym`.
pub open spec fn dist_blk<Q, C>(
    ts: &DTS<Q, C>,
    colored: bool,
    cls: Seq<usize>,
    b: usize,
    p: int,
    q: int,
    sym: char,
) -> bool {
    sig_blk(ts, colored, cls, b, p, sym) != sig_blk(ts, colored, cls, b, q, sym)
}

/// The splitter at work: the set of states that was taken from the worklist, and
/// the position of the first symbol on which it has not split yet.
pub struct Splitter {
    pub members: Seq<bool>,
    pub next_symbol: int,
}

/// The pair `p`, `q` is still to be told apart on `sym`: by a class that waits
/// in the worklist, or by the splitter at work on a symbol that is yet to come.
pub open spec fn covered<Q, C>(
    ts: &DTS<Q, C>,
    colored: bool,
    cls: Seq<usize>,
    queue: Seq<usize>,
    cur: Option<Splitter>,
    p: int,
    q: int,
    sym: char,
) -> bool {
    ||| exists|i: int| 0 <= i < queue.len() && #[trigger] dist_blk(ts, colored, cls, queue[i], p, q, sym)
    ||| (cur matches Some(sp) && sig_set(ts, colored, sp.members, p, sym) != sig_set(
        ts,
        colored,
        sp.members,
        q,
        sym,
    ) && (position_of(ts.symbols(), sym) matches Some(a) && a >= sp.next_symbol))
}

/// Whatever class tells two states of one class apart, the worklist or the
/// splitter at work will tell them apart.
pub open spec fn pending<Q, C>(
    ts: &DTS<Q, C>,
    colored: bool,
    cls: Seq<usize>,
    queue: Seq<usize>,
    cur: Option<Splitter>,
) -> bool {
    forall|p: int, q: int, sym: char, s: usize|
        0 <= p < cls.len() && 0 <= q < cls.len() && cls[p] == cls[q] && #[trigger] dist_blk(
            ts,
            colored,
            cls,
            s,
            p,
            q,
            sym,
        ) ==> covered(ts, colored, cls, queue, cur, p, q, sym)
}

/// The set `members` is a union of classes.
pub open spec fn closed_under(cls: Seq<usize>, members: Seq<bool>) -> bool {
    &&& members.len() == cls.len()
    &&& forall|p: int, q: int|
        0 <= p < cls.len() && 0 <= q < cls.len() && #[trigger] cls[p] == #[trigger] cls[q]
            ==> members[p] == members[q]
}

/// `cls2` is `cls` with every class cut in two along the set `x`.
pub open spec fn split_of(cls: Seq<usize>, cls2: Seq<usize>, x: Seq<bool>) -> bool {
    &&& cls2.len() == cls.len()
    &&& x.len() == cls.len()
    &&& forall|p: int, q: int|
        0 <= p < cls.len() && 0 <= q < cls.len() ==> ((#[trigger] cls2[p] == #[trigger] cls2[q])
            <==> (cls[p] == cls[q] && x[p] == x[q]))
}

/// The worklist after a split: nothing has left it, both parts of a class that
/// waited in it wait in it, and of any other class that was cut one part does.
pub open spec fn queue_follows(
    cls: Seq<usize>,
    cls2: Seq<usize>,
    queue: Seq<usize>,
    queue2: Seq<usize>,
) -> bool {
    &&& forall|q: int|
        0 <= q < cls.len() && queue.contains(#[trigger] cls[q]) ==> queue2.contains(cls2[q])
    &&& forall|p: int, q: int|
        0 <= p < cls.len() && 0 <= q < cls.len() && cls[p] == cls[q] && #[trigger] cls2[p]
            != #[trigger] cls2[q] ==> queue2.contains(cls2[p]) || queue2.contains(cls2[q])
}

/// In a stable partition that refines the first classification, states of one
/// class are told apart by no word.
pub proof fn lemma_stable_same_trace<Q, C>(
    ts: &DTS<Q, C>,
    colored: bool,
    init: Seq<usize>,
    cls: Seq<usize>,
    p: int,
    q: int,
    w: Seq<char>,
)
    requires
        ts.wf(),
        cls.len() == ts.spec_size(),
        refines(cls, init),
        stable(ts, colored, cls),
        0 <= p < cls.len(),
        0 <= q < cls.len(),
        cls[p] == cls[q],
    ensures
        trace(ts, colored, init, p, w) == trace(ts, colored, init, q, w),
    decreases w.len(),
{
    if w.len() > 0 {
        assert(labels_agree(ts, colored, cls, p, q, w[0]));
        ts.lemma_edge_in_range(p, w[0]);
        ts.lemma_edge_in_range(q, w[0]);
        match (label(ts, colored, p, w[0]), label(ts, colored, q, w[0])) {
            (Some((c1, t1)), Some((c2, t2))) => {
                if w.len() > 1 {
                    lemma_stable_same_trace(ts, colored, init, cls, t1, t2, w.skip(1));
                }
            },
            _ => {},
        }
    }
}

/// Once nothing is left to tell apart, the partition is stable.
pub proof fn lemma_nothing_pending_is_stable<Q, C>(
    ts: &DTS<Q, C>,
    colored: bool,
    cls: Seq<usize>,
    count: nat,
)
    requires
        ts.wf(),
        valid_classes(cls, ts.spec_size(), count),
        pending(ts, colored, cls, Seq::<usize>::empty(), None),
    ensures
        stable(ts, colored, cls),
{
    assert forall|p: int, q: int, sym: char|
        0 <= p < cls.len() && 0 <= q < cls.len() && cls[p] == cls[q] implies #[trigger] labels_agree(
        ts,
        colored,
        cls,
        p,
        q,
        sym,
    ) by {
        ts.lemma_edge_in_range(p, sym);
        ts.lemma_edge_in_range(q, sym);
        if !labels_agree(ts, colored, cls, p, q, sym) {
            let s: usize = match label(ts, colored, p, sym) {
                Some((_, t)) => cls[t],
                None => match label(ts, colored, q, sym) {
                    Some((_, t)) => cls[t],
                    None => 0,
                },
            };
            assert(dist_blk(ts, colored, cls, s, p, q, sym));
            assert(covered(ts, colored, cls, Seq::<usize>::empty(), None, p, q, sym));
        }
    }
}

/// A class of the worklist that told `p` from `q` before a split has a part in
/// the worklist that tells them apart after it.
proof fn lemma_queued_still_tells<Q, C>(
    ts: &DTS<Q, C>,
    colored: bool,
    cls: Seq<usize>,
    cls2: Seq<usize>,
    x: Seq<bool>,
    queue: Seq<usize>,
    queue2: Seq<usize>,
    i: int,
    p: int,
    q: int,
    sym: char,
)
    requires
        ts.wf(),
        cls.len() == ts.spec_size(),
        split_of(cls, cls2, x),
        queue_follows(cls, cls2, queue, queue2),
        0 <= i < queue.len(),
        sig_blk(ts, colored, cls, queue[i], p, sym).is_some(),
        dist_blk(ts, colored, cls, queue[i], p, q, sym),
    ensures
        exists|j: int| 0 <= j < queue2.len() && #[trigger] dist_blk(ts, colored, cls2, queue2[j], p, q, sym),
{
    ts.lemma_edge_in_range(p, sym);
    ts.lemma_edge_in_range(q, sym);
    let (c, t) = label(ts, colored, p, sym).unwrap();
    assert(cls[t] == queue[i]);
    assert(queue.contains(cls[t]));
    let w2 = cls2[t];
    assert(queue2.contains(w2));
    let j = choose|j: int| 0 <= j < queue2.len() && queue2[j] == w2;
    assert(sig_blk(ts, colored, cls2, w2, p, sym) == Some(c));
    if sig_blk(ts, colored, cls2, w2, q, sym) == Some(c) {
        let (c2, t2) = label(ts, colored, q, sym).unwrap();
        assert(cls2[t2] == cls2[t]);
        assert(cls[t2] == cls[t]);
        assert(false);
    }
    assert(dist_blk(ts, colored, cls2, queue2[j], p, q, sym));
}

/// After a split, a pair of one class that some class tells apart by an edge of
/// `p` is still covered.
proof fn lemma_split_covered<Q, C>(
    ts: &DTS<Q, C>,
    colored: bool,
    cls: Seq<usize>,
    cls2: Seq<usize>,
    x: Seq<bool>,
    queue: Seq<usize>,
    queue2: Seq<usize>,
    cur: Option<Splitter>,
    p: int,
    q: int,
    sym: char,
    s2: usize,
)
    requires
        ts.wf(),
        cls.len() == ts.spec_size(),
        split_of(cls, cls2, x),
        queue_follows(cls, cls2, queue, queue2),
        pending(ts, colored, cls, queue, cur),
        0 <= p < cls.len(),
        0 <= q < cls.len(),
        cls2[p] == cls2[q],
        sig_blk(ts, colored, cls2, s2, p, sym).is_some(),
        dist_blk(ts, colored, cls2, s2, p, q, sym),
    ensures
        covered(ts, colored, cls2, queue2, cur, p, q, sym),
        covered(ts, colored, cls2, queue2, cur, q, p, sym),
{
    ts.lemma_edge_in_range(p, sym);
    ts.lemma_edge_in_range(q, sym);
    let (c, tp) = label(ts, colored, p, sym).unwrap();
    assert(cls2[tp] == s2);
    let s = cls[tp];
    assert(cls[p] == cls[q]);
    let mut told: bool = false;
    if queue2.contains(s2) {
        let j = choose|j: int| 0 <= j < queue2.len() && queue2[j] == s2;
        assert(dist_blk(ts, colored, cls2, queue2[j], p, q, sym));
        assert(dist_blk(ts, colored, cls2, queue2[j], q, p, sym));
        told = true;
    } else if sig_blk(ts, colored, cls, s, q, sym) == Some(c) {
        let (c2, tq) = label(ts, colored, q, sym).unwrap();
        assert(cls[tq] == cls[tp]);
        assert(cls2[tq] != cls2[tp]);
        assert(queue2.contains(cls2[tp]) || queue2.contains(cls2[tq]));
        let a = cls2[tq];
        let j = choose|j: int| 0 <= j < queue2.len() && queue2[j] == a;
        assert(sig_blk(ts, colored, cls2, a, q, sym) == Some(c));
        assert(sig_blk(ts, colored, cls2, a, p, sym).is_none());
        assert(dist_blk(ts, colored, cls2, queue2[j], p, q, sym));
        assert(dist_blk(ts, colored, cls2, queue2[j], q, p, sym));
        told = true;
    }
    if !told {
        assert(sig_blk(ts, colored, cls, s, p, sym) == Some(c));
        assert(dist_blk(ts, colored, cls, s, p, q, sym));
        assert(covered(ts, colored, cls, queue, cur, p, q, sym));
        if exists|i: int| 0 <= i < queue.len() && #[trigger] dist_blk(ts, colored, cls, queue[i], p, q, sym) {
            let i = choose|i: int| 0 <= i < queue.len() && #[trigger] dist_blk(ts, colored, cls, queue[i], p, q, sym);
            if sig_blk(ts, colored, cls, queue[i], p, sym).is_some() {
                lemma_queued_still_tells(ts, colored, cls, cls2, x, queue, queue2, i, p, q, sym);
                let j = choose|j: int| 0 <= j < queue2.len() && #[trigger] dist_blk(ts, colored, cls2, queue2[j], p, q, sym);
                assert(dist_blk(ts, colored, cls2, queue2[j], q, p, sym));
            } else {
                assert(dist_blk(ts, colored, cls, queue[i], q, p, sym));
                lemma_queued_still_tells(ts, colored, cls, cls2, x, queue, queue2, i, q, p, sym);
                let j = choose|j: int| 0 <= j < queue2.len() && #[trigger] dist_blk(ts, colored, cls2, queue2[j], q, p, sym);
                assert(dist_blk(ts, colored, cls2, queue2[j], p, q, sym));
            }
        }
    }
}

/// Splitting keeps the promise that whatever can be told apart will be.
pub proof fn lemma_split_pending<Q, C>(
    ts: &DTS<Q, C>,
    colored: bool,
    cls: Seq<usize>,
    cls2: Seq<usize>,
    x: Seq<bool>,
    queue: Seq<usize>,
    queue2: Seq<usize>,
    cur: Option<Splitter>,
)
    requires
        ts.wf(),
        cls.len() == ts.spec_size(),
        split_of(cls, cls2, x),
        queue_follows(cls, cls2, queue, queue2),
        pending(ts, colored, cls, queue, cur),
    ensures
        pending(ts, colored, cls2, queue2, cur),
{
    assert forall|p: int, q: int, sym: char, s: usize|
        0 <= p < cls2.len() && 0 <= q < cls2.len() && cls2[p] == cls2[q] && #[trigger] dist_blk(
            ts,
            colored,
            cls2,
            s,
            p,
            q,
            sym,
        ) implies covered(ts, colored, cls2, queue2, cur, p, q, sym) by {
        if sig_blk(ts, colored, cls2, s, p, sym).is_some() {
            lemma_split_covered(ts, colored, cls, cls2, x, queue, queue2, cur, p, q, sym, s);
        } else {
            assert(dist_blk(ts, colored, cls2, s, q, p, sym));
            lemma_split_covered(ts, colored, cls, cls2, x, queue, queue2, cur, q, p, sym, s);
        }
    }
}

/// Splitting along what a union of classes shows keeps apart only states that a
/// word tells apart.
pub proof fn lemma_split_separated<Q, C>(
    ts: &DTS<Q, C>,
    colored: bool,
    init: Seq<usize>,
    cls: Seq<usize>,
    cls2: Seq<usize>,
    x: Seq<bool>,
    members: Seq<bool>,
    sym: char,
    v: Option<C>,
)
    requires
        ts.wf(),
        cls.len() == ts.spec_size(),
        init.len() == cls.len(),
        split_of(cls, cls2, x),
        closed_under(cls, members),
        separated(ts, colored, init, cls),
        forall|q: int|
            0 <= q < cls.len() ==> #[trigger] x[q] == (sig_set(ts, colored, members, q, sym)
                == Some(v)),
    ensures
        separated(ts, colored, init, cls2),
{
    assert forall|p: int, q: int|
        0 <= p < cls2.len() && 0 <= q < cls2.len() && #[trigger] cls2[p] != #[trigger] cls2[q]
        implies !trace_equivalent(ts, colored, init, p, q) by {
        if cls[p] != cls[q] {
        } else if x[p] {
            lemma_told_apart(ts, colored, init, cls, members, sym, v, p, q);
        } else {
            assert(x[q]);
            lemma_told_apart(ts, colored, init, cls, members, sym, v, q, p);
            let w = choose|w: Seq<char>| #[trigger]
                trace(ts, colored, init, q, w) != trace(ts, colored, init, p, w);
            assert(trace(ts, colored, init, p, w) != trace(ts, colored, init, q, w));
        }
    }
}

/// If `p` shows `v` to a union of classes on `sym` and `q` does not, a word tells
/// `p` from `q`.
proof fn lemma_told_apart<Q, C>(
    ts: &DTS<Q, C>,
    colored: bool,
    init: Seq<usize>,
    cls: Seq<usize>,
    members: Seq<bool>,
    sym: char,
    v: Option<C>,
    p: int,
    q: int,
)
    requires
        ts.wf(),
        cls.len() == ts.spec_size(),
        init.len() == cls.len(),
        closed_under(cls, members),
        separated(ts, colored, init, cls),
        0 <= p < cls.len(),
        0 <= q < cls.len(),
        sig_set(ts, colored, members, p, sym) == Some(v),
        sig_set(ts, colored, members, q, sym) != Some(v),
    ensures
        !trace_equivalent(ts, colored, init, p, q),
{
    ts.lemma_edge_in_range(p, sym);
    ts.lemma_edge_in_range(q, sym);
    let (c, tp) = label(ts, colored, p, sym).unwrap();
    let one = seq![sym];
    lemma_trace_step(ts, colored, init, p, sym, Seq::<char>::empty());
    lemma_trace_step(ts, colored, init, q, sym, Seq::<char>::empty());
    assert(one + Seq::<char>::empty() =~= one);
    match label(ts, colored, q, sym) {
        None => {
            assert(trace(ts, colored, init, p, one) != trace(ts, colored, init, q, one));
        },
        Some((c2, tq)) => {
            if c2 != c {
                assert(trace(ts, colored, init, p, one) != trace(ts, colored, init, q, one));
            } else {
                assert(!members[tq]);
                assert(cls[tp] != cls[tq]);
                assert(!trace_equivalent(ts, colored, init, tp, tq));
                let w = choose|w: Seq<char>| #[trigger]
                    trace(ts, colored, init, tp, w) != trace(ts, colored, init, tq, w);
                lemma_trace_step(ts, colored, init, p, sym, w);
                lemma_trace_step(ts, colored, init, q, sym, w);
                let full = one + w;
                assert(trace(ts, colored, init, p, full) != trace(ts, colored, init, q, full));
            }
        },
    }
}

/// A split keeps a partition finer than the first classification.
pub proof fn lemma_split_refines(cls: Seq<usize>, cls2: Seq<usize>, x: Seq<bool>, init: Seq<usize>)
    requires
        refines(cls, init),
        split_of(cls, cls2, x),
    ensures
        refines(cls2, init),
{
    assert forall|p: int, q: int|
        0 <= p < cls2.len() && 0 <= q < cls2.len() && #[trigger] cls2[p] == #[trigger] cls2[q]
        implies init[p] == init[q] by {
        assert(cls[p] == cls[q]);
    }
}

/// A union of classes is a union of classes after a split.
pub proof fn lemma_split_closed(cls: Seq<usize>, cls2: Seq<usize>, x: Seq<bool>, members: Seq<bool>)
    requires
        closed_under(cls, members),
        split_of(cls, cls2, x),
    ensures
        closed_under(cls2, members),
{
    assert forall|p: int, q: int|
        0 <= p < cls2.len() && 0 <= q < cls2.len() && #[trigger] cls2[p] == #[trigger] cls2[q]
        implies members[p] == members[q] by {
        assert(cls[p] == cls[q]);
    }
}

/// In every class either all states show `v` or none does.
pub open spec fn uniform_for<C>(
    cls: Seq<usize>,
    sigs: Seq<Option<Option<C>>>,
    v: Option<Option<C>>,
) -> bool {
    forall|p: int, q: int|
        0 <= p < cls.len() && 0 <= q < cls.len() && #[trigger] cls[p] == #[trigger] cls[q] ==> (
        sigs[p] == v) == (sigs[q] == v)
}

/// What was uniform before a split is uniform after it.
pub proof fn lemma_split_uniform<C>(
    cls: Seq<usize>,
    cls2: Seq<usize>,
    x: Seq<bool>,
    sigs: Seq<Option<Option<C>>>,
    v: Option<Option<C>>,
)
    requires
        uniform_for(cls, sigs, v),
        split_of(cls, cls2, x),
    ensures
        uniform_for(cls2, sigs, v),
{
    assert forall|p: int, q: int|
        0 <= p < cls2.len() && 0 <= q < cls2.len() && #[trigger] cls2[p] == #[trigger] cls2[q]
        implies (sigs[p] == v) == (sigs[q] == v) by {
        assert(cls[p] == cls[q]);
    }
}

/// At the start every class waits in the worklist, so whatever can be told apart
/// will be.
pub proof fn lemma_pending_at_start<Q, C>(
    ts: &DTS<Q, C>,
    colored: bool,
    cls: Seq<usize>,
    queue: Seq<usize>,
)
    requires
        ts.wf(),
        valid_classes(cls, ts.spec_size(), queue.len()),
        forall|i: int| 0 <= i < queue.len() ==> queue[i] == i,
    ensures
        pending(ts, colored, cls, queue, None),
{
    assert forall|p: int, q: int, sym: char, s: usize|
        0 <= p < cls.len() && 0 <= q < cls.len() && cls[p] == cls[q] && #[trigger] dist_blk(
            ts,
            colored,
            cls,
            s,
            p,
            q,
            sym,
        ) implies covered(ts, colored, cls, queue, None, p, q, sym) by {
        ts.lemma_edge_in_range(p, sym);
        ts.lemma_edge_in_range(q, sym);
        assert(s < queue.len());
        assert(queue[s as int] == s);
        assert(dist_blk(ts, colored, cls, queue[s as int], p, q, sym));
    }
}

/// The first classification keeps apart only states that the empty word tells
/// apart.
pub proof fn lemma_separated_at_start<Q, C>(ts: &DTS<Q, C>, colored: bool, init: Seq<usize>)
    ensures
        separated(ts, colored, init, init),
{
    assert forall|p: int, q: int|
        0 <= p < init.len() && 0 <= q < init.len() && #[trigger] init[p] != #[trigger] init[q]
        implies !trace_equivalent(ts, colored, init, p, q) by {
        let w = Seq::<char>::empty();
        assert(trace(ts, colored, init, p, w) != trace(ts, colored, init, q, w));
    }
}

/// Taking a class from the worklist and making it the splitter at work leaves
/// every pair covered.
pub proof fn lemma_pending_taken<Q, C>(
    ts: &DTS<Q, C>,
    colored: bool,
    cls: Seq<usize>,
    queue: Seq<usize>,
    rest: Seq<usize>,
    b: usize,
    members: Seq<bool>,
)
    requires
        ts.wf(),
        cls.len() == ts.spec_size(),
        pending(ts, colored, cls, queue, None),
        forall|w: usize| queue.contains(w) && w != b ==> rest.contains(w),
        members.len() == cls.len(),
        forall|q: int| 0 <= q < cls.len() ==> members[q] == (cls[q] == b),
    ensures
        pending(ts, colored, cls, rest, Some(Splitter { members, next_symbol: 0 })),
{
    let cur = Some(Splitter { members, next_symbol: 0 });
    assert forall|p: int, q: int, sym: char, s: usize|
        0 <= p < cls.len() && 0 <= q < cls.len() && cls[p] == cls[q] && #[trigger] dist_blk(
            ts,
            colored,
            cls,
            s,
            p,
            q,
            sym,
        ) implies covered(ts, colored, cls, rest, cur, p, q, sym) by {
        ts.lemma_edge_in_range(p, sym);
        ts.lemma_edge_in_range(q, sym);
        assert(covered(ts, colored, cls, queue, None, p, q, sym));
        let i = choose|i: int| 0 <= i < queue.len() && #[trigger] dist_blk(ts, colored, cls, queue[i], p, q, sym);
        let w = queue[i];
        if w != b {
            assert(queue.contains(w));
            assert(rest.contains(w));
            let j = choose|j: int| 0 <= j < rest.len() && rest[j] == w;
            assert(dist_blk(ts, colored, cls, rest[j], p, q, sym));
        } else {
            assert(sig_set(ts, colored, members, p, sym) == sig_blk(ts, colored, cls, b, p, sym));
            assert(sig_set(ts, colored, members, q, sym) == sig_blk(ts, colored, cls, b, q, sym));
            assert(ts.symbols().contains(sym));
        }
    }
}

/// Once no class is cut by what the splitter at work shows on a symbol, the
/// splitter is done with that symbol.
pub proof fn lemma_pending_advance<Q, C>(
    ts: &DTS<Q, C>,
    colored: bool,
    cls: Seq<usize>,
    queue: Seq<usize>,
    members: Seq<bool>,
    a: int,
)
    requires
        ts.wf(),
        cls.len() == ts.spec_size(),
        0 <= a < ts.symbols().len(),
        pending(ts, colored, cls, queue, Some(Splitter { members, next_symbol: a })),
        forall|p: int, q: int|
            0 <= p < cls.len() && 0 <= q < cls.len() && #[trigger] cls[p] == #[trigger] cls[q]
                ==> sig_set(ts, colored, members, p, ts.symbols()[a]) == sig_set(
                ts,
                colored,
                members,
                q,
                ts.symbols()[a],
            ),
    ensures
        pending(ts, colored, cls, queue, Some(Splitter { members, next_symbol: a + 1 })),
{
    let cur = Some(Splitter { members, next_symbol: a });
    let cur2 = Some(Splitter { members, next_symbol: a + 1 });
    assert forall|p: int, q: int, sym: char, s: usize|
        0 <= p < cls.len() && 0 <= q < cls.len() && cls[p] == cls[q] && #[trigger] dist_blk(
            ts,
            colored,
            cls,
            s,
            p,
            q,
            sym,
        ) implies covered(ts, colored, cls, queue, cur2, p, q, sym) by {
        assert(covered(ts, colored, cls, queue, cur, p, q, sym));
        if position_of(ts.symbols(), sym) == Some(a) {
            assert(ts.symbols()[a] == sym);
        }
    }
}

/// A splitter that is done with every symbol has nothing left to tell apart.
pub proof fn lemma_pending_done<Q, C>(
    ts: &DTS<Q, C>,
    colored: bool,
    cls: Seq<usize>,
    queue: Seq<usize>,
    members: Seq<bool>,
)
    requires
        pending(
            ts,
            colored,
            cls,
            queue,
            Some(Splitter { members, next_symbol: ts.symbols().len() as int }),
        ),
    ensures
        pending(ts, colored, cls, queue, None),
{
    let cur = Some(Splitter { members, next_symbol: ts.symbols().len() as int });
    assert forall|p: int, q: int, sym: char, s: usize|
        0 <= p < cls.len() && 0 <= q < cls.len() && cls[p] == cls[q] && #[trigger] dist_blk(
            ts,
            colored,
            cls,
            s,
            p,
            q,
            sym,
        ) implies covered(ts, colored, cls, queue, None, p, q, sym) by {
        assert(covered(ts, colored, cls, queue, cur, p, q, sym));
    }
}

/// There are at most as many classes with a member as there are states.
pub proof fn lemma_count_bounded(cls: Seq<usize>, count: nat)
    requires
        valid_classes(cls, cls.len(), count),
        nonempty_classes(cls, count),
        count <= usize::MAX,
    ensures
        count <= cls.len(),
{
    let states = set_int_range(0, cls.len() as int);
    let f = |q: int| cls[q] as int;
    let image = states.map(f);
    lemma_int_range(0, cls.len() as int);
    lemma_map_size_bound(states, image, f);
    let ids = set_int_range(0, count as int);
    lemma_int_range(0, count as int);
    assert forall|b: int| ids.contains(b) implies image.contains(b) by {
        assert(has_member(cls, b as usize));
        let q = choose|q: int| 0 <= q < cls.len() && #[trigger] cls[q] == b as usize;
        assert(states.contains(q));
        assert(f(q) == b);
    }
    lemma_len_subset(ids, image);
}

} // verus!
