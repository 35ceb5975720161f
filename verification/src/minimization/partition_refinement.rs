//! Partition refinement for deterministic machines. There are two variants, one
//! for machines with colors on their edges and one for machines with colors on
//! their states. Both split a partition of the states by the classes of a
//! worklist until no class can be split any further.
use crate::automaton::{Automaton, MealyMachine, MealySemantics, MooreMachine, MooreSemantics};
use crate::color::{Color, Void};
use crate::minimization::bisimulation::{
    lemma_trace_is_mealy_output, lemma_trace_is_reached, mealy_bisimilar, mealy_output,
    moore_bisimilar, moore_output, trace, trace_equivalent,
};
use crate::minimization::refine::{
    closed_under, has_member, lemma_count_bounded, lemma_nothing_pending_is_stable,
    lemma_pending_advance, lemma_pending_at_start, lemma_pending_done, lemma_pending_taken,
    lemma_separated_at_start, lemma_split_closed, lemma_split_pending, lemma_split_refines,
    lemma_split_separated, lemma_split_uniform, lemma_stable_same_trace, nonempty_classes,
    pending, queue_follows, refines, separated, sig_set, split_of, stable, uniform_for,
    valid_classes, Splitter,
};
use crate::minimization::partition::{lemma_same_relation_same_blocks, Partition};
use crate::minimization::quotient::{
    agreeing, block_colors, is_quotient, lemma_quotient_mealy_output, lemma_quotient_reached,
    quotient, quotient_edge, representative,
};
use crate::ts::DTS;
use vstd::prelude::*;

verus! {

/// Some state before `q` belongs to class `y` and lies in `x`.
spec fn has_in_before(cls: Seq<usize>, x: Seq<bool>, y: usize, q: int) -> bool {
    exists|s: int| 0 <= s < q && #[trigger] cls[s] == y && x[s]
}

/// Some state before `q` belongs to class `y` and lies outside `x`.
spec fn has_out_before(cls: Seq<usize>, x: Seq<bool>, y: usize, q: int) -> bool {
    exists|s: int| 0 <= s < q && #[trigger] cls[s] == y && !x[s]
}

/// Whether `b` waits in the worklist.
fn queue_contains(queue: &Vec<usize>, b: usize) -> (r: bool)
    ensures
        r == queue@.contains(b),
{
    let mut i: usize = 0;
    while i < queue.len()
        invariant
            i <= queue.len(),
            forall|j: int| 0 <= j < i ==> queue@[j] != b,
        decreases queue.len() - i,
    {
        if queue[i] == b {
            return true;
        }
        i += 1;
    }
    false
}

/// Counts, for every class, its members in `x`, and notes whether it has a
/// member outside `x`.
fn count_parts(cls: &Vec<usize>, count: usize, x: &Vec<bool>) -> (r: (Vec<usize>, Vec<bool>))
    requires
        valid_classes(cls@, cls@.len(), count as nat),
        x@.len() == cls@.len(),
    ensures
        r.0@.len() == count,
        r.1@.len() == count,
        forall|y: usize|
            y < count ==> (r.0@[y as int] > 0) == #[trigger] has_in_before(
                cls@,
                x@,
                y,
                cls@.len() as int,
            ),
        forall|y: usize|
            y < count ==> r.1@[y as int] == #[trigger] has_out_before(
                cls@,
                x@,
                y,
                cls@.len() as int,
            ),
{
    let mut cnt_in: Vec<usize> = Vec::new();
    let mut has_out: Vec<bool> = Vec::new();
    let mut y: usize = 0;
    while y < count
        invariant
            y <= count,
            cnt_in@.len() == y,
            has_out@.len() == y,
            forall|z: int| 0 <= z < y ==> cnt_in@[z] == 0,
            forall|z: int| 0 <= z < y ==> !has_out@[z],
        decreases count - y,
    {
        cnt_in.push(0);
        has_out.push(false);
        y += 1;
    }
    let n = cls.len();
    let mut q: usize = 0;
    while q < n
        invariant
            n == cls@.len(),
            x@.len() == n,
            valid_classes(cls@, n as nat, count as nat),
            q <= n,
            cnt_in@.len() == count,
            has_out@.len() == count,
            forall|z: int| 0 <= z < count ==> #[trigger] cnt_in@[z] <= q,
            forall|z: usize|
                z < count ==> (cnt_in@[z as int] > 0) == #[trigger] has_in_before(
                    cls@,
                    x@,
                    z,
                    q as int,
                ),
            forall|z: usize|
                z < count ==> has_out@[z as int] == #[trigger] has_out_before(
                    cls@,
                    x@,
                    z,
                    q as int,
                ),
        decreases n - q,
    {
        let y = cls[q];
        let ghost cnt0 = cnt_in@;
        let ghost out0 = has_out@;
        if x[q] {
            let c = cnt_in[y];
            cnt_in[y] = c + 1;
        } else {
            has_out[y] = true;
        }
        proof {
            assert forall|z: usize| z < count implies (cnt_in@[z as int] > 0)
                == #[trigger] has_in_before(cls@, x@, z, q + 1) by {
                if has_in_before(cls@, x@, z, q + 1) {
                    let s = choose|s: int| 0 <= s < q + 1 && #[trigger] cls@[s] == z && x@[s];
                    if s < q {
                        assert(has_in_before(cls@, x@, z, q as int));
                    }
                }
                if has_in_before(cls@, x@, z, q as int) {
                    let s = choose|s: int| 0 <= s < q && #[trigger] cls@[s] == z && x@[s];
                    assert(0 <= s < q + 1 && cls@[s] == z && x@[s]);
                }
                if z == y && x@[q as int] {
                    assert(cls@[q as int] == z);
                }
            }
            assert forall|z: usize| z < count implies has_out@[z as int]
                == #[trigger] has_out_before(cls@, x@, z, q + 1) by {
                if has_out_before(cls@, x@, z, q + 1) {
                    let s = choose|s: int| 0 <= s < q + 1 && #[trigger] cls@[s] == z && !x@[s];
                    if s < q {
                        assert(has_out_before(cls@, x@, z, q as int));
                    }
                }
                if has_out_before(cls@, x@, z, q as int) {
                    let s = choose|s: int| 0 <= s < q && #[trigger] cls@[s] == z && !x@[s];
                    assert(0 <= s < q + 1 && cls@[s] == z && !x@[s]);
                }
                if z == y && !x@[q as int] {
                    assert(cls@[q as int] == z);
                }
            }
        }
        q += 1;
    }
    (cnt_in, has_out)
}

/// Class `y` has members on both sides of `x`.
spec fn cut(cls: Seq<usize>, x: Seq<bool>, y: usize) -> bool {
    has_in_before(cls, x, y, cls.len() as int) && has_out_before(cls, x, y, cls.len() as int)
}

/// Class `b` is the new class of a class before `y` that was cut.
spec fn fresh_from(cls: Seq<usize>, x: Seq<bool>, ids: Seq<usize>, y: usize, b: usize) -> bool {
    exists|z: usize| z < y && cut(cls, x, z) && #[trigger] ids[z as int] == b
}

/// The class of state `q` after the split along `x`: a state outside `x` whose
/// class is cut moves to the new class of its class.
spec fn moved(cls: Seq<usize>, x: Seq<bool>, new_id: Seq<usize>, q: int) -> usize {
    if !x[q] && new_id[cls[q] as int] != cls[q] {
        new_id[cls[q] as int]
    } else {
        cls[q]
    }
}

/// Cuts every class along `x`. Of a class with members on both sides, those in
/// `x` keep the class and the others get a new one; a class that waits in the
/// worklist has both parts wait there, and of any other class the smaller part
/// joins the worklist.
fn split_along(cls: &mut Vec<usize>, sizes: &mut Vec<usize>, queue: &mut Vec<usize>, x: &Vec<bool>)
    requires
        valid_classes(old(cls)@, old(cls)@.len(), old(sizes)@.len()),
        nonempty_classes(old(cls)@, old(sizes)@.len()),
        x@.len() == old(cls)@.len(),
    ensures
        valid_classes(final(cls)@, old(cls)@.len(), final(sizes)@.len()),
        nonempty_classes(final(cls)@, final(sizes)@.len()),
        split_of(old(cls)@, final(cls)@, x@),
        queue_follows(old(cls)@, final(cls)@, old(queue)@, final(queue)@),
        final(sizes)@.len() >= old(sizes)@.len(),
        final(queue)@.len() - old(queue)@.len() == final(sizes)@.len() - old(sizes)@.len(),
{
    let ghost cls0 = cls@;
    let ghost queue0 = queue@;
    let n = cls.len();
    let count0 = sizes.len();
    let (cnt_in, has_out) = count_parts(cls, count0, x);
    let mut new_id: Vec<usize> = Vec::new();
    let mut y: usize = 0;
    while y < count0
        invariant
            y <= count0,
            cls@ == cls0,
            cnt_in@.len() == count0,
            has_out@.len() == count0,
            forall|z: usize|
                z < count0 ==> (cnt_in@[z as int] > 0) == #[trigger] has_in_before(
                    cls0,
                    x@,
                    z,
                    cls0.len() as int,
                ),
            forall|z: usize|
                z < count0 ==> has_out@[z as int] == #[trigger] has_out_before(
                    cls0,
                    x@,
                    z,
                    cls0.len() as int,
                ),
            new_id@.len() == y,
            sizes@.len() >= count0,
            queue@.len() >= queue0.len(),
            queue@.len() - queue0.len() == sizes@.len() - count0,
            forall|i: int| 0 <= i < queue0.len() ==> queue@[i] == queue0[i],
            forall|z: usize|
                z < y ==> if cut(cls0, x@, z) {
                    count0 <= #[trigger] new_id@[z as int] < sizes@.len()
                } else {
                    new_id@[z as int] == z
                },
            forall|z1: usize, z2: usize|
                z1 < z2 < y && cut(cls0, x@, z1) && cut(cls0, x@, z2) ==> #[trigger] new_id@[z1 as int]
                    != #[trigger] new_id@[z2 as int],
            forall|z: usize|
                z < y && cut(cls0, x@, z) ==> (queue0.contains(z) ==> queue@.contains(
                    #[trigger] new_id@[z as int],
                )) && (queue@.contains(z) || queue@.contains(new_id@[z as int])),
            forall|b: usize|
                count0 <= b < sizes@.len() ==> #[trigger] fresh_from(cls0, x@, new_id@, y, b),
        decreases count0 - y,
    {
        let ghost queue1 = queue@;
        let ghost ids1 = new_id@;
        assert((cnt_in@[y as int] > 0) == has_in_before(cls0, x@, y, cls0.len() as int));
        assert(has_out@[y as int] == has_out_before(cls0, x@, y, cls0.len() as int));
        if cnt_in[y] > 0 && has_out[y] {
            let inside = cnt_in[y];
            let whole = sizes[y];
            let outside = if whole >= inside {
                whole - inside
            } else {
                0
            };
            let fresh = sizes.len();
            sizes[y] = inside;
            sizes.push(outside);
            new_id.push(fresh);
            let waits = queue_contains(queue, y);
            if waits || inside > outside {
                queue.push(fresh);
            } else {
                queue.push(y);
            }
            proof {
                let pushed = queue@[queue@.len() - 1];
                assert(queue@ == queue1.push(pushed));
                assert forall|w: usize| queue1.contains(w) implies queue@.contains(w) by {
                    let i = choose|i: int| 0 <= i < queue1.len() && queue1[i] == w;
                    assert(queue@[i] == w);
                }
                assert(queue@.contains(pushed));
                if queue0.contains(y) {
                    let i = choose|i: int| 0 <= i < queue0.len() && queue0[i] == y;
                    assert(queue1[i] == y);
                    assert(queue1.contains(y));
                }
            }
        } else {
            new_id.push(y);
        }
        proof {
            assert forall|z: usize| z < y implies new_id@[z as int] == ids1[z as int] by {}
            assert forall|b: usize| count0 <= b < sizes@.len() implies #[trigger] fresh_from(
                cls0,
                x@,
                new_id@,
                (y + 1) as usize,
                b,
            ) by {
                if b == new_id@[y as int] && cut(cls0, x@, y) {
                    assert(y < y + 1 && cut(cls0, x@, y) && new_id@[y as int] == b);
                } else {
                    assert(fresh_from(cls0, x@, ids1, y, b));
                    let z = choose|z: usize| z < y && cut(cls0, x@, z) && #[trigger] ids1[z as int] == b;
                    assert(new_id@[z as int] == b);
                }
            }
        }
        y += 1;
    }
    let mut q: usize = 0;
    while q < n
        invariant
            q <= n,
            n == cls0.len(),
            cls@.len() == n,
            x@.len() == n,
            new_id@.len() == count0,
            valid_classes(cls0, n as nat, count0 as nat),
            forall|s: int| 0 <= s < q ==> #[trigger] cls@[s] == moved(cls0, x@, new_id@, s),
            forall|s: int| q <= s < n ==> #[trigger] cls@[s] == cls0[s],
        decreases n - q,
    {
        let c = cls[q];
        assert(c == cls0[q as int]);
        if !x[q] && new_id[c] != c {
            cls[q] = new_id[c];
        }
        q += 1;
    }
    proof {
        let cls2 = cls@;
        let ids = new_id@;
        assert forall|s: int| 0 <= s < n implies #[trigger] cls2[s] < sizes@.len() by {
            assert(cls2[s] == moved(cls0, x@, ids, s));
            let z = cls0[s];
            assert(z < count0);
            if cut(cls0, x@, z) {
                assert(count0 <= ids[z as int] < sizes@.len());
            } else {
                assert(ids[z as int] == z);
            }
        }
        assert forall|p: int, q: int| 0 <= p < n && 0 <= q < n implies ((#[trigger] cls2[p]
            == #[trigger] cls2[q]) <==> (cls0[p] == cls0[q] && x@[p] == x@[q])) by {
            assert(cls2[p] == moved(cls0, x@, ids, p));
            assert(cls2[q] == moved(cls0, x@, ids, q));
            let zp = cls0[p];
            let zq = cls0[q];
            assert(zp < count0 && zq < count0);
            assert(cut(cls0, x@, zp) || ids[zp as int] == zp);
            assert(cut(cls0, x@, zq) || ids[zq as int] == zq);
            assert(cut(cls0, x@, zp) ==> count0 <= ids[zp as int]);
            assert(cut(cls0, x@, zq) ==> count0 <= ids[zq as int]);
            if zp == zq && x@[p] != x@[q] {
                if x@[p] {
                    assert(has_in_before(cls0, x@, zp, n as int));
                    assert(has_out_before(cls0, x@, zp, n as int));
                } else {
                    assert(has_out_before(cls0, x@, zp, n as int));
                    assert(has_in_before(cls0, x@, zp, n as int));
                }
                assert(cut(cls0, x@, zp));
            }
            if zp != zq && cut(cls0, x@, zp) && cut(cls0, x@, zq) {
                if zp < zq {
                    assert(ids[zp as int] != ids[zq as int]);
                } else {
                    assert(ids[zq as int] != ids[zp as int]);
                }
            }
        }
        assert forall|b: usize| b < sizes@.len() implies #[trigger] has_member(cls2, b) by {
            if b < count0 {
                assert(has_member(cls0, b));
                if cut(cls0, x@, b) {
                    let s = choose|s: int| 0 <= s < n && #[trigger] cls0[s] == b && x@[s];
                    assert(cls2[s] == moved(cls0, x@, ids, s));
                    assert(cls2[s] == b);
                } else {
                    let s = choose|s: int| 0 <= s < n && #[trigger] cls0[s] == b;
                    assert(cls2[s] == moved(cls0, x@, ids, s));
                    assert(ids[b as int] == b);
                    assert(cls2[s] == b);
                }
            } else {
                assert(fresh_from(cls0, x@, ids, count0, b));
                let z = choose|z: usize| z < count0 && cut(cls0, x@, z) && #[trigger] ids[z as int] == b;
                let s = choose|s: int| 0 <= s < n && #[trigger] cls0[s] == z && !x@[s];
                assert(cls2[s] == moved(cls0, x@, ids, s));
                assert(cls2[s] == b);
            }
        }
        assert forall|s: int| 0 <= s < n && queue0.contains(#[trigger] cls0[s]) implies queue@.contains(
            cls2[s],
        ) by {
            assert(cls2[s] == moved(cls0, x@, ids, s));
            let z = cls0[s];
            assert(z < count0);
            if cls2[s] == z {
                let i = choose|i: int| 0 <= i < queue0.len() && queue0[i] == z;
                assert(queue@[i] == z);
            } else {
                assert(cut(cls0, x@, z) || ids[z as int] == z);
                assert(queue@.contains(ids[z as int]));
            }
        }
        assert forall|p: int, q: int|
            0 <= p < n && 0 <= q < n && cls0[p] == cls0[q] && #[trigger] cls2[p]
                != #[trigger] cls2[q] implies queue@.contains(cls2[p]) || queue@.contains(
            cls2[q],
        ) by {
            assert(cls2[p] == moved(cls0, x@, ids, p));
            assert(cls2[q] == moved(cls0, x@, ids, q));
            let z = cls0[p];
            assert(z < count0);
            assert(cut(cls0, x@, z) || ids[z as int] == z);
            assert(queue@.contains(z) || queue@.contains(ids[z as int]));
        }
    }
}

/// The order in which the classes of the worklist are taken from it.
#[derive(Clone, Copy, Debug, PartialEq, Eq, Structural)]
pub enum WorklistOrder {
    /// The class that joined the worklist last is taken first.
    NewestFirst,
    /// The class that joined the worklist first is taken first.
    OldestFirst,
}

/// Takes one class from the worklist.
fn take_from_worklist(queue: &mut Vec<usize>, order: WorklistOrder) -> (b: usize)
    requires
        old(queue)@.len() > 0,
    ensures
        final(queue)@.len() == old(queue)@.len() - 1,
        forall|w: usize| old(queue)@.contains(w) && w != b ==> final(queue)@.contains(w),
{
    let ghost queue0 = queue@;
    match order {
        WorklistOrder::NewestFirst => {
            let b = queue.pop().unwrap();
            proof {
                assert forall|w: usize| queue0.contains(w) && w != b implies queue@.contains(w) by {
                    let i = choose|i: int| 0 <= i < queue0.len() && queue0[i] == w;
                    assert(queue@[i] == w);
                }
            }
            b
        },
        WorklistOrder::OldestFirst => {
            let b = queue.remove(0);
            proof {
                assert forall|w: usize| queue0.contains(w) && w != b implies queue@.contains(w) by {
                    let i = choose|i: int| 0 <= i < queue0.len() && queue0[i] == w;
                    assert(queue@[i - 1] == w);
                }
            }
            b
        },
    }
}

/// Marks the states of class `b`.
fn snapshot(cls: &Vec<usize>, b: usize) -> (members: Vec<bool>)
    ensures
        members@.len() == cls@.len(),
        forall|q: int| 0 <= q < cls@.len() ==> members@[q] == (cls@[q] == b),
{
    let mut members: Vec<bool> = Vec::new();
    let mut q: usize = 0;
    while q < cls.len()
        invariant
            q <= cls.len(),
            members@.len() == q,
            forall|s: int| 0 <= s < q ==> members@[s] == (cls@[s] == b),
        decreases cls.len() - q,
    {
        members.push(cls[q] == b);
        q += 1;
    }
    members
}

/// What every state shows of its edge on the symbol at position `a` to the
/// marked set.
fn signatures<Q, C: Color>(ts: &DTS<Q, C>, colored: bool, members: &Vec<bool>, a: usize) -> (sigs:
    Vec<Option<Option<C>>>)
    requires
        ts.wf(),
        members@.len() == ts.spec_size(),
        a < ts.symbols().len(),
    ensures
        sigs@.len() == ts.spec_size(),
        forall|q: int|
            0 <= q < ts.spec_size() ==> #[trigger] sigs@[q] == sig_set(
                ts,
                colored,
                members@,
                q,
                ts.symbols()[a as int],
            ),
{
    let n = ts.size();
    let mut sigs: Vec<Option<Option<C>>> = Vec::new();
    let mut q: usize = 0;
    while q < n
        invariant
            ts.wf(),
            n == ts.spec_size(),
            members@.len() == n,
            a < ts.symbols().len(),
            q <= n,
            sigs@.len() == q,
            forall|s: int|
                0 <= s < q ==> #[trigger] sigs@[s] == sig_set(
                    ts,
                    colored,
                    members@,
                    s,
                    ts.symbols()[a as int],
                ),
        decreases n - q,
    {
        let sig = match ts.edge_at(q, a) {
            Some((c, t)) => if members[t] {
                if colored {
                    Some(Some(c))
                } else {
                    Some(None)
                }
            } else {
                None
            },
            None => None,
        };
        sigs.push(sig);
        q += 1;
    }
    sigs
}

/// Whether two states show the same.
fn same_signature<C: Color>(u: &Option<Option<C>>, v: &Option<Option<C>>) -> (r: bool)
    ensures
        r == (*u == *v),
{
    match (u, v) {
        (None, None) => true,
        (Some(None), Some(None)) => true,
        (Some(Some(c)), Some(Some(d))) => c.same(d),
        _ => false,
    }
}

/// Marks the states that show `v`.
fn showing<C: Color>(sigs: &Vec<Option<Option<C>>>, v: &Option<Option<C>>) -> (x: Vec<bool>)
    ensures
        x@.len() == sigs@.len(),
        forall|q: int| 0 <= q < sigs@.len() ==> x@[q] == (sigs@[q] == *v),
{
    let mut x: Vec<bool> = Vec::new();
    let mut q: usize = 0;
    while q < sigs.len()
        invariant
            q <= sigs.len(),
            x@.len() == q,
            forall|s: int| 0 <= s < q ==> x@[s] == (sigs@[s] == *v),
        decreases sigs.len() - q,
    {
        x.push(same_signature(&sigs[q], v));
        q += 1;
    }
    x
}

/// Whether one of the states in `reps` shows what state `r` shows.
fn shown_before<C: Color>(sigs: &Vec<Option<Option<C>>>, reps: &Vec<usize>, r: usize) -> (found:
    bool)
    requires
        r < sigs@.len(),
        forall|i: int| 0 <= i < reps@.len() ==> reps@[i] < sigs@.len(),
    ensures
        found == exists|i: int| 0 <= i < reps@.len() && sigs@[#[trigger] reps@[i] as int] == sigs@[r as int],
{
    let mut i: usize = 0;
    while i < reps.len()
        invariant
            i <= reps.len(),
            r < sigs@.len(),
            forall|j: int| 0 <= j < reps@.len() ==> reps@[j] < sigs@.len(),
            forall|j: int| 0 <= j < i ==> sigs@[#[trigger] reps@[j] as int] != sigs@[r as int],
        decreases reps.len() - i,
    {
        if same_signature(&sigs[reps[i]], &sigs[r]) {
            return true;
        }
        i += 1;
    }
    false
}

/// Refines the classification `init` of the states of `ts` until states of one
/// class agree on every symbol: their edges have the same color (where `colored`
/// holds) and lead into the same class. The result is the coarsest such
/// refinement: it puts two states together exactly if no word tells them apart.
pub fn refine<Q, C: Color>(
    ts: &DTS<Q, C>,
    colored: bool,
    init: Vec<usize>,
    init_count: usize,
    order: WorklistOrder,
) -> (r: (Vec<usize>, usize))
    requires
        ts.wf(),
        valid_classes(init@, ts.spec_size(), init_count as nat),
        nonempty_classes(init@, init_count as nat),
    ensures
        valid_classes(r.0@, ts.spec_size(), r.1 as nat),
        nonempty_classes(r.0@, r.1 as nat),
        forall|p: int, q: int|
            0 <= p < ts.spec_size() && 0 <= q < ts.spec_size() ==> ((#[trigger] r.0@[p]
                == #[trigger] r.0@[q]) <==> trace_equivalent(ts, colored, init@, p, q)),
{
    let ghost init0 = init@;
    let n = ts.size();
    let k = ts.num_symbols();
    let mut cls = init;
    let mut sizes: Vec<usize> = Vec::new();
    let mut queue: Vec<usize> = Vec::new();
    let mut b: usize = 0;
    while b < init_count
        invariant
            b <= init_count,
            sizes@.len() == b,
            queue@.len() == b,
            forall|i: int| 0 <= i < b ==> queue@[i] == i,
        decreases init_count - b,
    {
        sizes.push(0);
        queue.push(b);
        b += 1;
    }
    let mut q: usize = 0;
    while q < n
        invariant
            q <= n,
            n == cls@.len(),
            valid_classes(cls@, n as nat, init_count as nat),
            sizes@.len() == init_count,
        decreases n - q,
    {
        let c = cls[q];
        if sizes[c] < n {
            sizes[c] = sizes[c] + 1;
        }
        q += 1;
    }
    proof {
        lemma_pending_at_start(ts, colored, cls@, queue@);
        lemma_separated_at_start(ts, colored, init0);
    }
    while queue.len() > 0
        invariant
            ts.wf(),
            n == ts.spec_size(),
            k == ts.symbols().len(),
            init0.len() == n,
            valid_classes(cls@, n as nat, sizes@.len()),
            nonempty_classes(cls@, sizes@.len()),
            refines(cls@, init0),
            separated(ts, colored, init0, cls@),
            pending(ts, colored, cls@, queue@, None),
        decreases 2 * (n - sizes@.len()) + queue@.len(),
    {
        let count_before = sizes.len();
        proof {
            lemma_count_bounded(cls@, count_before as nat);
        }
        let ghost queue0 = queue@;
        let ghost count0 = sizes@.len();
        let b = take_from_worklist(&mut queue, order);
        let members = snapshot(&cls, b);
        let ghost queue1 = queue@;
        proof {
            lemma_pending_taken(ts, colored, cls@, queue0, queue1, b, members@);
        }
        let mut a: usize = 0;
        while a < k
            invariant
                ts.wf(),
                n == ts.spec_size(),
                k == ts.symbols().len(),
                init0.len() == n,
                a <= k,
                members@.len() == n,
                valid_classes(cls@, n as nat, sizes@.len()),
                nonempty_classes(cls@, sizes@.len()),
                refines(cls@, init0),
                separated(ts, colored, init0, cls@),
                closed_under(cls@, members@),
                pending(
                    ts,
                    colored,
                    cls@,
                    queue@,
                    Some(Splitter { members: members@, next_symbol: a as int }),
                ),
                sizes@.len() >= count0,
                queue@.len() - queue1.len() == sizes@.len() - count0,
            decreases k - a,
        {
            let sigs = signatures(ts, colored, &members, a);
            let ghost sym = ts.symbols()[a as int];
            let ghost cur = Some(Splitter { members: members@, next_symbol: a as int });
            let mut reps: Vec<usize> = Vec::new();
            let mut r: usize = 0;
            while r < n
                invariant
                    ts.wf(),
                    n == ts.spec_size(),
                    init0.len() == n,
                    a < ts.symbols().len(),
                    sym == ts.symbols()[a as int],
                    cur == Some(Splitter { members: members@, next_symbol: a as int }),
                    r <= n,
                    members@.len() == n,
                    sigs@.len() == n,
                    forall|s: int|
                        0 <= s < n ==> #[trigger] sigs@[s] == sig_set(
                            ts,
                            colored,
                            members@,
                            s,
                            sym,
                        ),
                    valid_classes(cls@, n as nat, sizes@.len()),
                    nonempty_classes(cls@, sizes@.len()),
                    refines(cls@, init0),
                    separated(ts, colored, init0, cls@),
                    closed_under(cls@, members@),
                    pending(ts, colored, cls@, queue@, cur),
                    sizes@.len() >= count0,
                    queue@.len() - queue1.len() == sizes@.len() - count0,
                    forall|i: int| 0 <= i < reps@.len() ==> #[trigger] reps@[i] < r,
                    forall|s: int|
                        0 <= s < r && (#[trigger] sigs@[s]).is_some() ==> uniform_for(
                            cls@,
                            sigs@,
                            sigs@[s],
                        ),
                decreases n - r,
            {
                if sigs[r].is_some() {
                    if shown_before(&sigs, &reps, r) {
                        proof {
                            let i = choose|i: int|
                                0 <= i < reps@.len() && sigs@[#[trigger] reps@[i] as int]
                                    == sigs@[r as int];
                            assert(reps@[i] < r);
                            assert(uniform_for(cls@, sigs@, sigs@[reps@[i] as int]));
                        }
                    } else {
                        let x = showing(&sigs, &sigs[r]);
                        let ghost cls1 = cls@;
                        let ghost queue2 = queue@;
                        split_along(&mut cls, &mut sizes, &mut queue, &x);
                        reps.push(r);
                        proof {
                            let v = sigs@[r as int].unwrap();
                            assert(sigs@[r as int] == Some(v));
                            lemma_split_pending(ts, colored, cls1, cls@, x@, queue2, queue@, cur);
                            lemma_split_separated(
                                ts,
                                colored,
                                init0,
                                cls1,
                                cls@,
                                x@,
                                members@,
                                sym,
                                v,
                            );
                            lemma_split_refines(cls1, cls@, x@, init0);
                            lemma_split_closed(cls1, cls@, x@, members@);
                            assert forall|s: int|
                                0 <= s < r && (#[trigger] sigs@[s]).is_some() implies uniform_for(
                                cls@,
                                sigs@,
                                sigs@[s],
                            ) by {
                                lemma_split_uniform(cls1, cls@, x@, sigs@, sigs@[s]);
                            }
                            assert(uniform_for(cls@, sigs@, sigs@[r as int]));
                        }
                    }
                }
                r += 1;
            }
            proof {
                assert forall|p: int, q: int|
                    0 <= p < n && 0 <= q < n && #[trigger] cls@[p] == #[trigger] cls@[q]
                    implies sig_set(ts, colored, members@, p, sym) == sig_set(
                    ts,
                    colored,
                    members@,
                    q,
                    sym,
                ) by {
                    assert(sigs@[p] == sig_set(ts, colored, members@, p, sym));
                    assert(sigs@[q] == sig_set(ts, colored, members@, q, sym));
                    if sigs@[p].is_some() {
                        assert(uniform_for(cls@, sigs@, sigs@[p]));
                    } else if sigs@[q].is_some() {
                        assert(uniform_for(cls@, sigs@, sigs@[q]));
                    }
                }
                lemma_pending_advance(ts, colored, cls@, queue@, members@, a as int);
            }
            a += 1;
        }
        let count_after = sizes.len();
        proof {
            lemma_pending_done(ts, colored, cls@, queue@, members@);
            lemma_count_bounded(cls@, count_after as nat);
        }
    }
    proof {
        assert(queue@ =~= Seq::<usize>::empty());
        lemma_nothing_pending_is_stable(ts, colored, cls@, sizes@.len());
        assert forall|p: int, q: int| 0 <= p < n && 0 <= q < n implies ((#[trigger] cls@[p]
            == #[trigger] cls@[q]) <==> trace_equivalent(ts, colored, init0, p, q)) by {
            if cls@[p] == cls@[q] {
                assert forall|w: Seq<char>| #[trigger]
                    trace(ts, colored, init0, p, w) == trace(ts, colored, init0, q, w) by {
                    lemma_stable_same_trace(ts, colored, init0, cls@, p, q, w);
                }
            }
        }
    }
    let count = sizes.len();
    (cls, count)
}

/// The edges that leave `p` and `q` on `sym` agree: both are missing, or they
/// lead into the same block and, where `colored` holds, have the same color.
pub open spec fn edges_agree<Q, C>(
    ts: &DTS<Q, C>,
    partition: &Partition,
    colored: bool,
    p: int,
    q: int,
    sym: char,
) -> bool {
    match (ts.spec_edge(p, sym), ts.spec_edge(q, sym)) {
        (None, None) => true,
        (Some((c1, t1)), Some((c2, t2))) => (colored ==> c1 == c2) && partition.same_class(t1, t2),
        _ => false,
    }
}

/// States of one block have, on every symbol, edges of the same color into the
/// same block, or no edge at all.
pub open spec fn mealy_stable<Q, C>(ts: &DTS<Q, C>, partition: &Partition) -> bool {
    forall|p: int, q: int, sym: char|
        0 <= p < ts.spec_size() && 0 <= q < ts.spec_size() && partition.same_class(p, q)
            ==> #[trigger] edges_agree(ts, partition, true, p, q, sym)
}

/// States of one block have the same color and, on every symbol, edges into the
/// same block, or no edge at all.
pub open spec fn moore_stable<Q, C>(ts: &DTS<Q, C>, partition: &Partition) -> bool {
    &&& forall|p: int, q: int|
        0 <= p < ts.spec_size() && 0 <= q < ts.spec_size() && #[trigger] partition.same_class(
            p,
            q,
        ) ==> ts.spec_state_color(p) == ts.spec_state_color(q)
    &&& forall|p: int, q: int, sym: char|
        0 <= p < ts.spec_size() && 0 <= q < ts.spec_size() && partition.same_class(p, q)
            ==> #[trigger] edges_agree(ts, partition, false, p, q, sym)
}

/// The blocks of `partition` are the classes of states that no word tells apart
/// by the colors of the edges taken.
pub open spec fn is_mealy_bisimulation<Q, C>(ts: &DTS<Q, C>, partition: &Partition) -> bool {
    &&& partition.wf()
    &&& partition.num_states() == ts.spec_size()
    &&& forall|p: int, q: int|
        0 <= p < ts.spec_size() && 0 <= q < ts.spec_size() ==> (#[trigger] partition.same_class(
            p,
            q,
        ) <==> mealy_bisimilar(ts, p, q))
}

/// The blocks of `partition` are the classes of states that no word tells apart
/// by the colors of the states reached.
pub open spec fn is_moore_bisimulation<Q, C>(ts: &DTS<Q, C>, partition: &Partition) -> bool {
    &&& partition.wf()
    &&& partition.num_states() == ts.spec_size()
    &&& forall|p: int, q: int|
        0 <= p < ts.spec_size() && 0 <= q < ts.spec_size() ==> (#[trigger] partition.same_class(
            p,
            q,
        ) <==> moore_bisimilar(ts, p, q))
}

/// States that no word tells apart stay so after reading a symbol.
pub proof fn lemma_mealy_bisimilar_step<Q, C>(ts: &DTS<Q, C>, p: int, q: int, sym: char)
    requires
        mealy_bisimilar(ts, p, q),
    ensures
        match (ts.spec_edge(p, sym), ts.spec_edge(q, sym)) {
            (None, None) => true,
            (Some((c1, t1)), Some((c2, t2))) => c1 == c2 && mealy_bisimilar(ts, t1, t2),
            _ => false,
        },
{
    let one = seq![sym];
    assert(one[0] == sym && one.len() == 1);
    assert(mealy_output(ts, p, one) == mealy_output(ts, q, one));
    match (ts.spec_edge(p, sym), ts.spec_edge(q, sym)) {
        (Some((c1, t1)), Some((c2, t2))) => {
            assert forall|w: Seq<char>| #[trigger]
                mealy_output(ts, t1, w) == mealy_output(ts, t2, w) by {
                if w.len() > 0 {
                    let full = one + w;
                    assert(full[0] == sym);
                    assert(full.skip(1) =~= w);
                    assert(mealy_output(ts, p, full) == mealy_output(ts, q, full));
                }
            }
        },
        _ => {},
    }
}

/// States that no word tells apart stay so after reading a symbol.
pub proof fn lemma_moore_bisimilar_step<Q, C>(ts: &DTS<Q, C>, p: int, q: int, sym: char)
    requires
        ts.wf(),
        0 <= p < ts.spec_size(),
        0 <= q < ts.spec_size(),
        moore_bisimilar(ts, p, q),
    ensures
        ts.spec_state_color(p) == ts.spec_state_color(q),
        match (ts.spec_edge(p, sym), ts.spec_edge(q, sym)) {
            (None, None) => true,
            (Some((c1, t1)), Some((c2, t2))) => moore_bisimilar(ts, t1, t2),
            _ => false,
        },
{
    let none = Seq::<char>::empty();
    assert(moore_output(ts, p, none) == moore_output(ts, q, none));
    let one = seq![sym];
    assert(one[0] == sym && one.len() == 1);
    assert(one.skip(1).len() == 0);
    assert(moore_output(ts, p, one) == moore_output(ts, q, one));
    ts.lemma_edge_in_range(p, sym);
    ts.lemma_edge_in_range(q, sym);
    if let Some((_, t)) = ts.spec_edge(p, sym) {
        assert(ts.reached(t, one.skip(1)) == Some(t));
        assert(ts.reached(p, one) == Some(t));
    } else {
        assert(ts.reached(p, one).is_none());
    }
    if let Some((_, t)) = ts.spec_edge(q, sym) {
        assert(ts.reached(t, one.skip(1)) == Some(t));
        assert(ts.reached(q, one) == Some(t));
    } else {
        assert(ts.reached(q, one).is_none());
    }
    match (ts.spec_edge(p, sym), ts.spec_edge(q, sym)) {
        (Some((c1, t1)), Some((c2, t2))) => {
            assert forall|w: Seq<char>| #[trigger]
                moore_output(ts, t1, w) == moore_output(ts, t2, w) by {
                let full = one + w;
                assert(full[0] == sym);
                assert(full.skip(1) =~= w);
                assert(moore_output(ts, p, full) == moore_output(ts, q, full));
            }
        },
        _ => {},
    }
}

/// The classes of states that no word tells apart form a stable partition:
/// states of one block take edges of equal color into one block.
pub proof fn lemma_mealy_bisimulation_is_stable<Q, C>(ts: &DTS<Q, C>, partition: &Partition)
    requires
        ts.wf(),
        is_mealy_bisimulation(ts, partition),
    ensures
        mealy_stable(ts, partition),
{
    assert forall|p: int, q: int, sym: char|
        0 <= p < ts.spec_size() && 0 <= q < ts.spec_size() && partition.same_class(p, q)
        implies #[trigger] edges_agree(ts, partition, true, p, q, sym) by {
        lemma_mealy_bisimilar_step(ts, p, q, sym);
        ts.lemma_edge_in_range(p, sym);
        ts.lemma_edge_in_range(q, sym);
    }
}

/// The classes of states that no word tells apart form a stable partition:
/// states of one block have one color and take edges into one block.
pub proof fn lemma_moore_bisimulation_is_stable<Q, C>(ts: &DTS<Q, C>, partition: &Partition)
    requires
        ts.wf(),
        is_moore_bisimulation(ts, partition),
    ensures
        moore_stable(ts, partition),
{
    assert forall|p: int, q: int|
        0 <= p < ts.spec_size() && 0 <= q < ts.spec_size() && #[trigger] partition.same_class(
            p,
            q,
        ) implies ts.spec_state_color(p) == ts.spec_state_color(q) by {
        lemma_moore_bisimilar_step(ts, p, q, 'a');
    }
    assert forall|p: int, q: int, sym: char|
        0 <= p < ts.spec_size() && 0 <= q < ts.spec_size() && partition.same_class(p, q)
        implies #[trigger] edges_agree(ts, partition, false, p, q, sym) by {
        lemma_moore_bisimilar_step(ts, p, q, sym);
        ts.lemma_edge_in_range(p, sym);
        ts.lemma_edge_in_range(q, sym);
    }
}

/// However the worklist is processed, the blocks that come out are the same:
/// any two partitions into the classes of states that no word tells apart have
/// the same set of blocks.
pub proof fn lemma_mealy_bisimulation_unique<Q, C>(
    ts: &DTS<Q, C>,
    left: &Partition,
    right: &Partition,
)
    requires
        is_mealy_bisimulation(ts, left),
        is_mealy_bisimulation(ts, right),
    ensures
        left@ == right@,
        left.num_blocks() == right.num_blocks(),
{
    lemma_same_relation_same_blocks(left, right);
}

/// However the worklist is processed, the blocks that come out are the same:
/// any two partitions into the classes of states that no word tells apart have
/// the same set of blocks.
pub proof fn lemma_moore_bisimulation_unique<Q, C>(
    ts: &DTS<Q, C>,
    left: &Partition,
    right: &Partition,
)
    requires
        is_moore_bisimulation(ts, left),
        is_moore_bisimulation(ts, right),
    ensures
        left@ == right@,
        left.num_blocks() == right.num_blocks(),
{
    lemma_same_relation_same_blocks(left, right);
}

/// Every word tells any two different states apart by the colors of the edges.
pub open spec fn mealy_minimal<Q, C>(ts: &DTS<Q, C>) -> bool {
    forall|p: int, q: int|
        0 <= p < ts.spec_size() && 0 <= q < ts.spec_size() && p != q ==> !#[trigger] mealy_bisimilar(
            ts,
            p,
            q,
        )
}

/// Every word tells any two different states apart by the colors of the states.
pub open spec fn moore_minimal<Q, C>(ts: &DTS<Q, C>) -> bool {
    forall|p: int, q: int|
        0 <= p < ts.spec_size() && 0 <= q < ts.spec_size() && p != q ==> !#[trigger] moore_bisimilar(
            ts,
            p,
            q,
        )
}

/// Every block holds exactly one state.
pub open spec fn discrete(partition: &Partition) -> bool {
    &&& partition.num_blocks() == partition.num_states()
    &&& forall|b: int| 0 <= b < partition.num_blocks() ==> (#[trigger] partition.spec_block(b)).len() == 1
}

/// A partition that puts no two different states together is discrete.
proof fn lemma_injective_is_discrete(partition: &Partition)
    requires
        partition.wf(),
        forall|p: int, q: int|
            0 <= p < partition.num_states() && 0 <= q < partition.num_states()
                && #[trigger] partition.same_class(p, q) ==> p == q,
    ensures
        discrete(partition),
{
    partition.lemma_wf();
    assert forall|b: int| 0 <= b < partition.num_blocks() implies (#[trigger] partition.spec_block(
        b,
    )).len() == 1 by {
        let block = partition.spec_block(b);
        if block.len() > 1 {
            assert(block[0] < block[1]);
            assert(partition.spec_class_of(block[0] as int) == b);
            assert(partition.spec_class_of(block[1] as int) == b);
            assert(partition.same_class(block[0] as int, block[1] as int));
        }
    }
    let n = partition.num_states();
    let states = vstd::set_lib::set_int_range(0, n as int);
    let f = |q: int| partition.spec_class_of(q);
    vstd::set_lib::lemma_int_range(0, n as int);
    assert(vstd::relations::injective_on(f, states)) by {
        assert forall|x1: int, x2: int|
            states.contains(x1) && states.contains(x2) && #[trigger] f(x1) == #[trigger] f(x2)
            implies x1 == x2 by {
            assert(partition.same_class(x1, x2));
        }
    }
    let image = states.map(f);
    vstd::set_lib::lemma_map_size(states, image, f);
    let ids = vstd::set_lib::set_int_range(0, partition.num_blocks() as int);
    vstd::set_lib::lemma_int_range(0, partition.num_blocks() as int);
    assert(image.subset_of(ids)) by {
        assert forall|b: int| image.contains(b) implies ids.contains(b) by {
            let q = choose|q: int| states.contains(q) && b == f(q);
            assert(0 <= partition.spec_class_of(q) < partition.num_blocks());
        }
    }
    vstd::set_lib::lemma_len_subset(image, ids);
}

/// Minimizing what is minimal changes nothing: where any two different states
/// are told apart by some word, every block of the coarsest bisimulation holds
/// exactly one state.
pub proof fn lemma_mealy_minimal_is_discrete<Q, C>(ts: &DTS<Q, C>, partition: &Partition)
    requires
        is_mealy_bisimulation(ts, partition),
        mealy_minimal(ts),
    ensures
        discrete(partition),
{
    assert forall|p: int, q: int|
        0 <= p < partition.num_states() && 0 <= q < partition.num_states()
            && #[trigger] partition.same_class(p, q) implies p == q by {
        if p != q {
            assert(!mealy_bisimilar(ts, p, q));
        }
    }
    lemma_injective_is_discrete(partition);
}

/// Minimizing what is minimal changes nothing: where any two different states
/// are told apart by some word, every block of the coarsest bisimulation holds
/// exactly one state.
pub proof fn lemma_moore_minimal_is_discrete<Q, C>(ts: &DTS<Q, C>, partition: &Partition)
    requires
        is_moore_bisimulation(ts, partition),
        moore_minimal(ts),
    ensures
        discrete(partition),
{
    assert forall|p: int, q: int|
        0 <= p < partition.num_states() && 0 <= q < partition.num_states()
            && #[trigger] partition.same_class(p, q) implies p == q by {
        if p != q {
            assert(!moore_bisimilar(ts, p, q));
        }
    }
    lemma_injective_is_discrete(partition);
}

/// Puts all states into one class.
fn single_class(n: usize) -> (r: (Vec<usize>, usize))
    ensures
        valid_classes(r.0@, n as nat, r.1 as nat),
        nonempty_classes(r.0@, r.1 as nat),
        forall|q: int| 0 <= q < n ==> r.0@[q] == 0,
{
    let mut classes: Vec<usize> = Vec::new();
    let mut q: usize = 0;
    while q < n
        invariant
            q <= n,
            classes@.len() == q,
            forall|s: int| 0 <= s < q ==> classes@[s] == 0,
        decreases n - q,
    {
        classes.push(0);
        q += 1;
    }
    if n == 0 {
        (classes, 0)
    } else {
        assert(classes@[0] == 0);
        assert(has_member(classes@, 0));
        (classes, 1)
    }
}

/// Puts states of the same color into the same class, and no others.
fn color_classes<Q: Color, C>(ts: &DTS<Q, C>) -> (r: (Vec<usize>, usize))
    requires
        ts.wf(),
    ensures
        valid_classes(r.0@, ts.spec_size(), r.1 as nat),
        nonempty_classes(r.0@, r.1 as nat),
        forall|p: int, q: int|
            0 <= p < ts.spec_size() && 0 <= q < ts.spec_size() ==> ((#[trigger] r.0@[p]
                == #[trigger] r.0@[q]) <==> ts.spec_state_color(p) == ts.spec_state_color(q)),
{
    let n = ts.size();
    let mut classes: Vec<usize> = Vec::new();
    let mut reps: Vec<usize> = Vec::new();
    let mut q: usize = 0;
    while q < n
        invariant
            ts.wf(),
            n == ts.spec_size(),
            q <= n,
            classes@.len() == q,
            forall|i: int| 0 <= i < reps@.len() ==> #[trigger] reps@[i] < q && classes@[reps@[i] as int] == i,
            forall|s: int|
                0 <= s < q ==> #[trigger] classes@[s] < reps@.len() && ts.spec_state_color(s)
                    == ts.spec_state_color(reps@[classes@[s] as int] as int),
            forall|i: int, j: int|
                0 <= i < j < reps@.len() ==> ts.spec_state_color(#[trigger] reps@[i] as int)
                    != ts.spec_state_color(#[trigger] reps@[j] as int),
        decreases n - q,
    {
        let color = ts.state_color(q).unwrap();
        let mut i: usize = 0;
        let mut found: Option<usize> = None;
        while i < reps.len()
            invariant_except_break
                found.is_none(),
                forall|j: int|
                    0 <= j < i ==> ts.spec_state_color(#[trigger] reps@[j] as int)
                        != ts.spec_state_color(q as int),
            invariant
                ts.wf(),
                n == ts.spec_size(),
                q < n,
                i <= reps.len(),
                *color == ts.spec_state_color(q as int),
                forall|j: int| 0 <= j < reps@.len() ==> #[trigger] reps@[j] < q,
            ensures
                match found {
                    Some(j) => j < reps@.len() && ts.spec_state_color(reps@[j as int] as int)
                        == ts.spec_state_color(q as int),
                    None => forall|j: int|
                        0 <= j < reps@.len() ==> ts.spec_state_color(#[trigger] reps@[j] as int)
                            != ts.spec_state_color(q as int),
                },
            decreases reps.len() - i,
        {
            let other = ts.state_color(reps[i]).unwrap();
            if color.same(other) {
                found = Some(i);
                break ;
            }
            i += 1;
        }
        let ghost before = classes@;
        match found {
            Some(j) => {
                classes.push(j);
            },
            None => {
                classes.push(reps.len());
                reps.push(q);
            },
        }
        proof {
            assert forall|s: int| 0 <= s < q implies classes@[s] == before[s] by {}
        }
        q += 1;
    }
    proof {
        assert forall|p: int, q: int| 0 <= p < n && 0 <= q < n implies ((#[trigger] classes@[p]
            == #[trigger] classes@[q]) <==> ts.spec_state_color(p) == ts.spec_state_color(q)) by {
            let i = classes@[p] as int;
            let j = classes@[q] as int;
            if i < j {
                assert(ts.spec_state_color(reps@[i] as int) != ts.spec_state_color(reps@[j] as int));
            } else if j < i {
                assert(ts.spec_state_color(reps@[j] as int) != ts.spec_state_color(reps@[i] as int));
            }
        }
        assert forall|b: usize| b < reps@.len() implies #[trigger] has_member(classes@, b) by {
            assert(classes@[reps@[b as int] as int] == b);
        }
    }
    let count = reps.len();
    (classes, count)
}

/// Computes the coarsest bisimulation of a machine with colors on its edges,
/// taking the classes of the worklist in the given order. Two states end in
/// the same block exactly if every word yields the same output from both.
pub fn mealy_greatest_bisimulation_in<Q, C: Color>(mm: &DTS<Q, C>, order: WorklistOrder) -> (partition:
    Partition)
    requires
        mm.wf(),
    ensures
        is_mealy_bisimulation(mm, &partition),
        mealy_stable(mm, &partition),
{
    let n = mm.size();
    let (init, init_count) = single_class(n);
    let ghost init0 = init@;
    let (classes, count) = refine(mm, true, init, init_count, order);
    let ghost cls = classes@;
    let partition = Partition::from_classes(classes, count);
    proof {
        assert forall|p: int, q: int| 0 <= p < n && 0 <= q < n implies (
        #[trigger] partition.same_class(p, q) <==> mealy_bisimilar(mm, p, q)) by {
            assert(partition.spec_class_of(p) == cls[p]);
            assert(partition.spec_class_of(q) == cls[q]);
            assert((cls[p] == cls[q]) <==> trace_equivalent(mm, true, init0, p, q));
            if mealy_bisimilar(mm, p, q) {
                assert forall|w: Seq<char>| #[trigger]
                    trace(mm, true, init0, p, w) == trace(mm, true, init0, q, w) by {
                    if w.len() > 0 {
                        lemma_trace_is_mealy_output(mm, init0, p, w);
                        lemma_trace_is_mealy_output(mm, init0, q, w);
                        assert(mealy_output(mm, p, w) == mealy_output(mm, q, w));
                    }
                }
            }
            if trace_equivalent(mm, true, init0, p, q) {
                assert forall|w: Seq<char>| #[trigger]
                    mealy_output(mm, p, w) == mealy_output(mm, q, w) by {
                    if w.len() > 0 {
                        lemma_trace_is_mealy_output(mm, init0, p, w);
                        lemma_trace_is_mealy_output(mm, init0, q, w);
                        assert(trace(mm, true, init0, p, w) == trace(mm, true, init0, q, w));
                    }
                }
            }
        }
        lemma_mealy_bisimulation_is_stable(mm, &partition);
    }
    partition
}

/// Computes the coarsest bisimulation of a machine with colors on its edges.
/// Two states end in the same block exactly if every word yields the same
/// output from both.
pub fn mealy_greatest_bisimulation<Q, C: Color>(mm: &DTS<Q, C>) -> (partition: Partition)
    requires
        mm.wf(),
    ensures
        is_mealy_bisimulation(mm, &partition),
        mealy_stable(mm, &partition),
{
    mealy_greatest_bisimulation_in(mm, WorklistOrder::NewestFirst)
}

/// Computes the coarsest bisimulation of a machine with colors on its states,
/// taking the classes of the worklist in the given order. Two states end in
/// the same block exactly if every word, the empty one included, leads from
/// both to states of the same color.
pub fn moore_greatest_bisimulation_in<Q: Color, C: Color>(
    mm: &DTS<Q, C>,
    order: WorklistOrder,
) -> (partition: Partition)
    requires
        mm.wf(),
    ensures
        is_moore_bisimulation(mm, &partition),
        moore_stable(mm, &partition),
{
    let n = mm.size();
    let (init, init_count) = color_classes(mm);
    let ghost init0 = init@;
    let (classes, count) = refine(mm, false, init, init_count, order);
    let ghost cls = classes@;
    let partition = Partition::from_classes(classes, count);
    proof {
        assert forall|p: int, q: int| 0 <= p < n && 0 <= q < n implies (
        #[trigger] partition.same_class(p, q) <==> moore_bisimilar(mm, p, q)) by {
            assert(partition.spec_class_of(p) == cls[p]);
            assert(partition.spec_class_of(q) == cls[q]);
            assert((cls[p] == cls[q]) <==> trace_equivalent(mm, false, init0, p, q));
            if moore_bisimilar(mm, p, q) {
                assert forall|w: Seq<char>| #[trigger]
                    trace(mm, false, init0, p, w) == trace(mm, false, init0, q, w) by {
                    lemma_trace_is_reached(mm, init0, p, w);
                    lemma_trace_is_reached(mm, init0, q, w);
                    mm.lemma_reached_in_range(p, w);
                    mm.lemma_reached_in_range(q, w);
                    assert(moore_output(mm, p, w) == moore_output(mm, q, w));
                }
            }
            if trace_equivalent(mm, false, init0, p, q) {
                assert forall|w: Seq<char>| #[trigger]
                    moore_output(mm, p, w) == moore_output(mm, q, w) by {
                    lemma_trace_is_reached(mm, init0, p, w);
                    lemma_trace_is_reached(mm, init0, q, w);
                    mm.lemma_reached_in_range(p, w);
                    mm.lemma_reached_in_range(q, w);
                    assert(trace(mm, false, init0, p, w) == trace(mm, false, init0, q, w));
                }
            }
        }
        lemma_moore_bisimulation_is_stable(mm, &partition);
    }
    partition
}

/// Computes the coarsest bisimulation of a machine with colors on its states.
/// Two states end in the same block exactly if every word, the empty one
/// included, leads from both to states of the same color.
pub fn moore_greatest_bisimulation<Q: Color, C: Color>(mm: &DTS<Q, C>) -> (partition: Partition)
    requires
        mm.wf(),
    ensures
        is_moore_bisimulation(mm, &partition),
        moore_stable(mm, &partition),
{
    moore_greatest_bisimulation_in(mm, WorklistOrder::NewestFirst)
}

/// `minimized` is the quotient of `mm` by its coarsest bisimulation
/// `partition`: its states are the blocks, and it starts in the block of the
/// initial state of `mm`.
pub open spec fn is_mealy_quotient<Z, Q, C, const OMEGA: bool>(
    mm: &Automaton<Z, Q, C, OMEGA>,
    partition: &Partition,
    minimized: &MealyMachine<Vec<Q>, C>,
) -> bool {
    &&& is_mealy_bisimulation(mm.spec_ts(), partition)
    &&& is_quotient(mm.spec_ts(), partition, minimized.spec_ts())
    &&& minimized.spec_initial() == partition.spec_class_of(mm.spec_initial())
}

/// `minimized` is the quotient of `mm` by its coarsest bisimulation
/// `partition`: its states are the blocks, each with the color of its states,
/// its edges are those of the least states of the blocks, and it starts in the
/// block of the initial state of `mm`.
pub open spec fn is_moore_quotient<Z, Q, C, const OMEGA: bool>(
    mm: &Automaton<Z, Q, C, OMEGA>,
    partition: &Partition,
    minimized: &MooreMachine<Q>,
) -> bool {
    &&& is_moore_bisimulation(mm.spec_ts(), partition)
    &&& minimized.spec_ts().wf()
    &&& minimized.spec_ts().spec_size() == partition.num_blocks()
    &&& minimized.spec_ts().symbols() == mm.spec_ts().symbols()
    &&& forall|b: int|
        0 <= b < partition.num_blocks() ==> #[trigger] minimized.spec_ts().spec_state_color(b)
            == mm.spec_ts().spec_state_color(representative(partition, b))
    &&& forall|b: int, sym: char|
        0 <= b < partition.num_blocks() ==> #[trigger] minimized.spec_ts().spec_successor(b, sym)
            == match mm.spec_ts().spec_successor(representative(partition, b), sym) {
            Some(t) => Some(partition.spec_class_of(t)),
            None => None,
        }
    &&& minimized.spec_initial() == partition.spec_class_of(mm.spec_initial())
}

/// The quotient by the coarsest bisimulation is minimal: some word tells any
/// two of its states apart.
pub proof fn lemma_mealy_quotient_minimal<Q, C>(
    ts: &DTS<Q, C>,
    partition: &Partition,
    qt: &DTS<Vec<Q>, C>,
)
    requires
        ts.wf(),
        is_mealy_bisimulation(ts, partition),
        is_quotient(ts, partition, qt),
    ensures
        mealy_minimal(qt),
{
    partition.lemma_wf();
    lemma_mealy_bisimulation_is_stable(ts, partition);
    assert(agreeing(ts, partition, true)) by {
        assert forall|p: int, q: int, sym: char|
            0 <= p < ts.spec_size() && 0 <= q < ts.spec_size() && partition.same_class(p, q)
            implies #[trigger] edges_agree(ts, partition, true, p, q, sym) by {}
    }
    assert forall|b1: int, b2: int|
        0 <= b1 < qt.spec_size() && 0 <= b2 < qt.spec_size() && b1 != b2
        implies !#[trigger] mealy_bisimilar(qt, b1, b2) by {
        let r1 = representative(partition, b1);
        let r2 = representative(partition, b2);
        assert(partition.spec_class_of(r1) == b1);
        assert(partition.spec_class_of(r2) == b2);
        assert(!partition.same_class(r1, r2));
        assert(!mealy_bisimilar(ts, r1, r2));
        let w = choose|w: Seq<char>| #[trigger] mealy_output(ts, r1, w) != mealy_output(ts, r2, w);
        lemma_quotient_mealy_output(ts, partition, qt, r1, w);
        lemma_quotient_mealy_output(ts, partition, qt, r2, w);
        assert(mealy_output(qt, b1, w) != mealy_output(qt, b2, w));
    }
}

/// Partition refinement for deterministic machines with outputs on the edges:
/// returns the quotient of `mm` by its coarsest bisimulation. The result is
/// minimal, and from its initial state it outputs on every word what `mm`
/// outputs. No state is dropped: states that cannot be reached are merged as
/// the others are.
pub fn mealy_partition_refinement<Z, Q: Copy, C: Color, const OMEGA: bool>(
    mm: &Automaton<Z, Q, C, OMEGA>,
) -> (minimized: MealyMachine<Vec<Q>, C>)
    requires
        mm.wf(),
    ensures
        minimized.wf(),
        exists|partition: Partition| is_mealy_quotient(mm, &partition, &minimized),
        mealy_minimal(minimized.spec_ts()),
        forall|w: Seq<char>| #[trigger]
            mealy_output(minimized.spec_ts(), minimized.spec_initial(), w) == mealy_output(
                mm.spec_ts(),
                mm.spec_initial(),
                w,
            ),
        mm.spec_ts().all_reachable(mm.spec_initial()) ==> minimized.spec_ts().all_reachable(
            minimized.spec_initial(),
        ),
{
    let ts = mm.ts();
    let partition = mealy_greatest_bisimulation(ts);
    proof {
        partition.lemma_wf();
        assert forall|p: int, q: int, sym: char|
            0 <= p < ts.spec_size() && 0 <= q < ts.spec_size() && partition.same_class(p, q)
            implies #[trigger] edges_agree(ts, &partition, true, p, q, sym) by {}
    }
    let qt = match quotient(ts, &partition, true) {
        Ok(qt) => qt,
        Err(_) => vstd::pervasive::unreached(),
    };
    let initial = partition.class_of(mm.initial()).unwrap();
    let minimized: MealyMachine<Vec<Q>, C> = Automaton::from_parts_with_acceptance(
        qt,
        initial,
        MealySemantics,
    );
    proof {
        assert(is_mealy_quotient(mm, &partition, &minimized));
        lemma_mealy_quotient_minimal(ts, &partition, minimized.spec_ts());
        assert forall|w: Seq<char>| #[trigger]
            mealy_output(minimized.spec_ts(), minimized.spec_initial(), w) == mealy_output(
                mm.spec_ts(),
                mm.spec_initial(),
                w,
            ) by {
            lemma_quotient_mealy_output(ts, &partition, minimized.spec_ts(), mm.spec_initial(), w);
        }
        if ts.all_reachable(mm.spec_initial()) {
            let qt = minimized.spec_ts();
            assert forall|b: int| 0 <= b < qt.spec_size() implies #[trigger] qt.reachable(
                minimized.spec_initial(),
                b,
            ) by {
                let rep = representative(&partition, b);
                assert(partition.spec_class_of(rep) == b);
                assert(ts.reachable(mm.spec_initial(), rep));
                let w = choose|w: Seq<char>| #[trigger]
                    ts.reached(mm.spec_initial(), w) == Some(rep);
                assert(agreeing(ts, &partition, false)) by {
                    assert forall|p: int, q: int, sym: char|
                        0 <= p < ts.spec_size() && 0 <= q < ts.spec_size() && partition.same_class(
                            p,
                            q,
                        ) implies #[trigger] edges_agree(ts, &partition, false, p, q, sym) by {
                        assert(edges_agree(ts, &partition, true, p, q, sym));
                    }
                }
                lemma_quotient_reached(ts, &partition, qt, mm.spec_initial(), w);
                assert(qt.reached(minimized.spec_initial(), w) == Some(b));
            }
        }
    }
    minimized
}

/// What holds of the quotient by the coarsest bisimulation of a machine with
/// colors on its states: it outputs from the block of a state what the machine
/// outputs from the state, and it is minimal.
pub proof fn lemma_moore_quotient<Z, Q, C, const OMEGA: bool>(
    mm: &Automaton<Z, Q, C, OMEGA>,
    partition: &Partition,
    minimized: &MooreMachine<Q>,
)
    requires
        mm.wf(),
        is_moore_quotient(mm, partition, minimized),
    ensures
        forall|q: int, w: Seq<char>|
            0 <= q < mm.spec_ts().spec_size() ==> #[trigger] moore_output(
                minimized.spec_ts(),
                partition.spec_class_of(q),
                w,
            ) == moore_output(mm.spec_ts(), q, w),
        moore_minimal(minimized.spec_ts()),
{
    let ts = mm.spec_ts();
    let mts = minimized.spec_ts();
    partition.lemma_wf();
    lemma_moore_bisimulation_is_stable(ts, partition);
    assert forall|q: int, w: Seq<char>| 0 <= q < ts.spec_size() implies #[trigger] moore_output(
        mts,
        partition.spec_class_of(q),
        w,
    ) == moore_output(ts, q, w) by {
        lemma_moore_quotient_reached(ts, partition, mts, q, w);
        ts.lemma_reached_in_range(q, w);
        if let Some(t) = ts.reached(q, w) {
            let b = partition.spec_class_of(t);
            let rep = representative(partition, b);
            assert(partition.spec_class_of(rep) == b);
            assert(partition.same_class(rep, t));
        }
    }
    assert forall|b1: int, b2: int|
        0 <= b1 < mts.spec_size() && 0 <= b2 < mts.spec_size() && b1 != b2
        implies !#[trigger] moore_bisimilar(mts, b1, b2) by {
        let r1 = representative(partition, b1);
        let r2 = representative(partition, b2);
        assert(partition.spec_class_of(r1) == b1);
        assert(partition.spec_class_of(r2) == b2);
        assert(!partition.same_class(r1, r2));
        assert(!moore_bisimilar(ts, r1, r2));
        let w = choose|w: Seq<char>| #[trigger] moore_output(ts, r1, w) != moore_output(ts, r2, w);
        assert(moore_output(mts, partition.spec_class_of(r1), w) == moore_output(ts, r1, w));
        assert(moore_output(mts, partition.spec_class_of(r2), w) == moore_output(ts, r2, w));
    }
}

/// A system that leads from the block of a state into the block of its
/// successor reaches from the block of a state the block of the state reached.
proof fn lemma_moore_quotient_reached<Q, C, Q2, C2>(
    ts: &DTS<Q, C>,
    partition: &Partition,
    mts: &DTS<Q2, C2>,
    q: int,
    w: Seq<char>,
)
    requires
        ts.wf(),
        partition.wf(),
        partition.num_states() == ts.spec_size(),
        moore_stable(ts, partition),
        mts.spec_size() == partition.num_blocks(),
        forall|b: int, sym: char|
            0 <= b < partition.num_blocks() ==> #[trigger] mts.spec_successor(b, sym)
                == match ts.spec_successor(representative(partition, b), sym) {
                Some(t) => Some(partition.spec_class_of(t)),
                None => None,
            },
        0 <= q < ts.spec_size(),
    ensures
        mts.reached(partition.spec_class_of(q), w) == match ts.reached(q, w) {
            Some(t) => Some(partition.spec_class_of(t)),
            None => None,
        },
    decreases w.len(),
{
    partition.lemma_wf();
    let b = partition.spec_class_of(q);
    if w.len() > 0 {
        let rep = representative(partition, b);
        assert(partition.spec_class_of(rep) == b);
        assert(edges_agree(ts, partition, false, rep, q, w[0]));
        assert(mts.spec_successor(b, w[0]) == match ts.spec_successor(rep, w[0]) {
            Some(t) => Some(partition.spec_class_of(t)),
            None => None,
        });
        ts.lemma_edge_in_range(q, w[0]);
        if let Some((_, t)) = ts.spec_edge(q, w[0]) {
            lemma_moore_quotient_reached(ts, partition, mts, t, w.skip(1));
        }
    }
}

/// Partition refinement for deterministic machines with outputs on the states:
/// returns the quotient of `mm` by its coarsest bisimulation, without colors on
/// the edges. The result is minimal, and from its initial state it outputs on
/// every word what `mm` outputs. No state is dropped: states that cannot be
/// reached are merged as the others are.
pub fn moore_partition_refinement<Z, Q: Color, C: Color, const OMEGA: bool>(
    mm: &Automaton<Z, Q, C, OMEGA>,
) -> (minimized: MooreMachine<Q>)
    requires
        mm.wf(),
    ensures
        minimized.wf(),
        exists|partition: Partition| is_moore_quotient(mm, &partition, &minimized),
        moore_minimal(minimized.spec_ts()),
        forall|w: Seq<char>| #[trigger]
            moore_output(minimized.spec_ts(), minimized.spec_initial(), w) == moore_output(
                mm.spec_ts(),
                mm.spec_initial(),
                w,
            ),
{
    let ts = mm.ts();
    let partition = moore_greatest_bisimulation(ts);
    proof {
        partition.lemma_wf();
        assert forall|p: int, q: int, sym: char|
            0 <= p < ts.spec_size() && 0 <= q < ts.spec_size() && partition.same_class(p, q)
            implies #[trigger] edges_agree(ts, &partition, false, p, q, sym) by {}
    }
    let qt = match quotient(ts, &partition, false) {
        Ok(qt) => qt,
        Err(_) => vstd::pervasive::unreached(),
    };
    let first = |colors: &Vec<Q>| -> (color: Q)
        requires
            colors@.len() > 0,
        ensures
            color == colors@[0],
        { colors[0] };
    let erase = |color: C| -> (erased: Void)
        ensures
            erased == Void,
        { Void };
    proof {
        assert forall|b: int| 0 <= b < qt.spec_size() implies call_requires(
            first,
            (&#[trigger] qt.spec_state_color(b),),
        ) by {
            assert(qt.spec_state_color(b)@ == block_colors(ts, &partition, b));
        }
    }
    let mapped = qt.map_colors(&first, &erase);
    let initial = partition.class_of(mm.initial()).unwrap();
    let minimized: MooreMachine<Q> = Automaton::from_parts_with_acceptance(
        mapped,
        initial,
        MooreSemantics,
    );
    proof {
        let mts = minimized.spec_ts();
        assert forall|b: int| 0 <= b < partition.num_blocks() implies #[trigger] mts.spec_state_color(
            b,
        ) == ts.spec_state_color(representative(&partition, b)) by {
            assert(qt.spec_state_color(b)@ == block_colors(ts, &partition, b));
            assert(call_ensures(first, (&qt.spec_state_color(b),), mts.spec_state_color(b)));
        }
        assert forall|b: int, sym: char| 0 <= b < partition.num_blocks() implies #[trigger] mts.spec_successor(
            b,
            sym,
        ) == match ts.spec_successor(representative(&partition, b), sym) {
            Some(t) => Some(partition.spec_class_of(t)),
            None => None,
        } by {
            assert(qt.spec_edge(b, sym) == quotient_edge(ts, &partition, b, sym));
            let e = mts.spec_edge(b, sym);
        }
        assert(is_moore_quotient(mm, &partition, &minimized));
        lemma_moore_quotient(mm, &partition, &minimized);
        assert forall|w: Seq<char>| #[trigger]
            moore_output(minimized.spec_ts(), minimized.spec_initial(), w) == moore_output(
                mm.spec_ts(),
                mm.spec_initial(),
                w,
            ) by {
            assert(moore_output(mts, partition.spec_class_of(mm.spec_initial()), w) == moore_output(
                ts,
                mm.spec_initial(),
                w,
            ));
        }
    }
    minimized
}

} // verus!
