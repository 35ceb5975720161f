//! What a machine outputs on a word, and when two states cannot be told apart.
use crate::ts::DTS;
use vstd::prelude::*;

verus! {

/// The output of a machine with colors on its edges, read from state `q` on the
/// word `w`: the color of the last edge of the run. There is none if the word is
/// empty or the run leaves the system.
pub open spec fn mealy_output<Q, C>(ts: &DTS<Q, C>, q: int, w: Seq<char>) -> Option<C>
    decreases w.len(),
{
    if w.len() == 0 {
        None
    } else {
        match ts.spec_edge(q, w[0]) {
            None => None,
            Some((c, t)) => if w.len() == 1 {
                Some(c)
            } else {
                mealy_output(ts, t, w.skip(1))
            },
        }
    }
}

/// The output of a machine with colors on its states, read from state `q` on the
/// word `w`: the color of the state in which the run ends.
pub open spec fn moore_output<Q, C>(ts: &DTS<Q, C>, q: int, w: Seq<char>) -> Option<Q> {
    match ts.reached(q, w) {
        Some(t) => Some(ts.spec_state_color(t)),
        None => None,
    }
}

/// No word tells `p` from `q` by the colors of the edges taken.
pub open spec fn mealy_bisimilar<Q, C>(ts: &DTS<Q, C>, p: int, q: int) -> bool {
    forall|w: Seq<char>| #[trigger] mealy_output(ts, p, w) == mealy_output(ts, q, w)
}

/// No word, the empty one included, tells `p` from `q` by the color of the state
/// reached.
pub open spec fn moore_bisimilar<Q, C>(ts: &DTS<Q, C>, p: int, q: int) -> bool {
    forall|w: Seq<char>| #[trigger] moore_output(ts, p, w) == moore_output(ts, q, w)
}

/// The edge that leaves `q` on `sym`, with its color kept where `colored` holds
/// and forgotten otherwise.
pub open spec fn label<Q, C>(ts: &DTS<Q, C>, colored: bool, q: int, sym: char) -> Option<
    (Option<C>, int),
> {
    match ts.spec_edge(q, sym) {
        Some((c, t)) => Some((if colored { Some(c) } else { None }, t)),
        None => None,
    }
}

/// What is observed when `w` is read from `q`, given a first classification `init`
/// of the states: the (kept or forgotten) color of the last edge together with the
/// first class of the state reached. Nothing is observed where the run leaves the
/// system.
pub open spec fn trace<Q, C>(
    ts: &DTS<Q, C>,
    colored: bool,
    init: Seq<usize>,
    q: int,
    w: Seq<char>,
) -> Option<(Option<C>, usize)>
    decreases w.len(),
{
    if w.len() == 0 {
        Some((None, init[q]))
    } else {
        match label(ts, colored, q, w[0]) {
            None => None,
            Some((c, t)) => if w.len() == 1 {
                Some((c, init[t]))
            } else {
                trace(ts, colored, init, t, w.skip(1))
            },
        }
    }
}

/// No word tells `p` from `q` by what `trace` observes.
pub open spec fn trace_equivalent<Q, C>(
    ts: &DTS<Q, C>,
    colored: bool,
    init: Seq<usize>,
    p: int,
    q: int,
) -> bool {
    forall|w: Seq<char>| #[trigger] trace(ts, colored, init, p, w) == trace(ts, colored, init, q, w)
}

/// With colors kept and a single first class, `trace` observes the output of a
/// machine with colors on its edges.
pub proof fn lemma_trace_is_mealy_output<Q, C>(
    ts: &DTS<Q, C>,
    init: Seq<usize>,
    q: int,
    w: Seq<char>,
)
    requires
        ts.wf(),
        init.len() == ts.spec_size(),
        forall|s: int| 0 <= s < init.len() ==> init[s] == 0,
        0 <= q < ts.spec_size(),
        w.len() > 0,
    ensures
        trace(ts, true, init, q, w) == match mealy_output(ts, q, w) {
            Some(c) => Some((Some(c), 0usize)),
            None => None,
        },
    decreases w.len(),
{
    ts.lemma_edge_in_range(q, w[0]);
    if let Some((c, t)) = ts.spec_edge(q, w[0]) {
        if w.len() > 1 {
            lemma_trace_is_mealy_output(ts, init, t, w.skip(1));
        }
    }
}

/// With colors forgotten, `trace` observes the first class of the state reached.
pub proof fn lemma_trace_is_reached<Q, C>(
    ts: &DTS<Q, C>,
    init: Seq<usize>,
    q: int,
    w: Seq<char>,
)
    requires
        ts.wf(),
        init.len() == ts.spec_size(),
        0 <= q < ts.spec_size(),
    ensures
        trace(ts, false, init, q, w) == match ts.reached(q, w) {
            Some(t) => Some((None::<C>, init[t])),
            None => None,
        },
    decreases w.len(),
{
    if w.len() > 0 {
        ts.lemma_edge_in_range(q, w[0]);
        if let Some((c, t)) = ts.spec_edge(q, w[0]) {
            lemma_trace_is_reached(ts, init, t, w.skip(1));
            if w.len() == 1 {
                assert(w.skip(1).len() == 0);
            }
        }
    }
}

/// Reading `sym` and then `w` from `q` observes what reading `w` observes from
/// the state that `sym` leads to.
pub proof fn lemma_trace_step<Q, C>(
    ts: &DTS<Q, C>,
    colored: bool,
    init: Seq<usize>,
    q: int,
    sym: char,
    w: Seq<char>,
)
    ensures
        trace(ts, colored, init, q, seq![sym] + w) == match label(ts, colored, q, sym) {
            None => None,
            Some((c, t)) => if w.len() == 0 {
                Some((c, init[t]))
            } else {
                trace(ts, colored, init, t, w)
            },
        },
{
    let full = seq![sym] + w;
    assert(full[0] == sym);
    assert(full.skip(1) =~= w);
}

/// Systems with the same edges output the same.
pub proof fn lemma_same_edges_same_output<Q1, Q2, C>(
    left: &DTS<Q1, C>,
    right: &DTS<Q2, C>,
    q: int,
    w: Seq<char>,
)
    requires
        forall|s: int, sym: char| #[trigger] left.spec_edge(s, sym) == right.spec_edge(s, sym),
    ensures
        mealy_output(left, q, w) == mealy_output(right, q, w),
    decreases w.len(),
{
    if w.len() > 0 {
        assert(left.spec_edge(q, w[0]) == right.spec_edge(q, w[0]));
        if let Some((_, t)) = left.spec_edge(q, w[0]) {
            if w.len() > 1 {
                lemma_same_edges_same_output(left, right, t, w.skip(1));
            }
        }
    }
}

} // verus!
