//! The run of a deterministic transition system on an ultimately periodic
//! word, and the colors that it sees infinitely often.
use crate::color::Color;
use crate::ts::reach::lemma_distinct_below;
use crate::ts::{StateIndex, DTS};
use crate::word::{lemma_symbols_repeat, lemma_times_grows, symbol_at, times, ReducedOmegaWord};
use vstd::prelude::*;

verus! {

/// An infinite run: a transition system, the state in which the run starts, and
/// the spoke and the cycle of the word that is read.
pub struct OmegaRun<'a, Q, C> {
    pub ts: &'a DTS<Q, C>,
    pub start: int,
    pub spoke: Seq<char>,
    pub cycle: Seq<char>,
}

impl<'a, Q, C> OmegaRun<'a, Q, C> {
    /// The symbol that is read at position `i`.
    pub open spec fn symbol(&self, i: int) -> char {
        symbol_at(self.spoke, self.cycle, i)
    }

    /// The state of the run after `i` symbols, if the run gets that far.
    pub open spec fn state(&self, i: int) -> Option<int>
        decreases i,
    {
        if i <= 0 {
            if 0 <= self.start < self.ts.spec_size() {
                Some(self.start)
            } else {
                None
            }
        } else {
            match self.state(i - 1) {
                Some(q) => self.ts.spec_successor(q, self.symbol(i - 1)),
                None => None,
            }
        }
    }

    /// The color of the edge that the run takes on the symbol at position `i`.
    pub open spec fn color(&self, i: int) -> Option<C> {
        match self.state(i) {
            Some(q) => self.ts.spec_edge_color(q, self.symbol(i)),
            None => None,
        }
    }

    /// The run never leaves the system.
    pub open spec fn exists_forever(&self) -> bool {
        forall|i: int| 0 <= i ==> (#[trigger] self.state(i)).is_some()
    }

    /// The run sees color `c` at some position from `n` on.
    pub open spec fn seen_from(&self, c: C, n: int) -> bool {
        exists|i: int| n <= i && #[trigger] self.color(i) == Some(c)
    }

    /// The run sees color `c` infinitely often.
    pub open spec fn seen_infinitely_often(&self, c: C) -> bool {
        forall|n: int| 0 <= n ==> #[trigger] self.seen_from(c, n)
    }

    /// The run sees color `c` at some position from `from` up to, but not
    /// including, `to`.
    pub open spec fn seen_between(&self, c: C, from: int, to: int) -> bool {
        exists|i: int| from <= i < to && #[trigger] self.color(i) == Some(c)
    }

    /// A run that gets as far as `i` gets as far as any earlier position, and
    /// stays in the system.
    pub proof fn lemma_prefix(&self, i: int, j: int)
        requires
            self.ts.wf(),
            0 <= j <= i,
            self.state(i).is_some(),
        ensures
            self.state(j) matches Some(q) && 0 <= q < self.ts.spec_size(),
        decreases i - j,
    {
        if j < i {
            self.lemma_prefix(i, j + 1);
            let q = self.state(j).unwrap();
            self.ts.lemma_edge_in_range(q, self.symbol(j));
        } else if i > 0 {
            let q = self.state(i - 1).unwrap();
            self.ts.lemma_edge_in_range(q, self.symbol(i - 1));
        }
    }

    /// A run that has left the system by position `j` has at any later
    /// position.
    pub proof fn lemma_gone(&self, j: int, i: int)
        requires
            0 <= j <= i,
            self.state(j).is_none(),
        ensures
            self.state(i).is_none(),
        decreases i - j,
    {
        if j < i {
            self.lemma_gone(j, i - 1);
        }
    }

    /// A run that is in the same state at `a` and at `a + period`, where the
    /// period is a multiple of the length of the cycle and `a` lies behind the
    /// spoke, repeats itself from `a` on.
    pub proof fn lemma_repeats(&self, a: int, m: nat, i: int)
        requires
            self.cycle.len() > 0,
            a >= self.spoke.len(),
            self.state(a) == self.state(a + times(self.cycle.len() as int, m)),
            i >= a,
        ensures
            self.state(i + times(self.cycle.len() as int, m)) == self.state(i),
            self.color(i + times(self.cycle.len() as int, m)) == self.color(i),
        decreases i - a,
    {
        let period = times(self.cycle.len() as int, m);
        lemma_times_grows(self.cycle.len() as int, m);
        lemma_symbols_repeat(self.spoke, self.cycle, i, m);
        if i > a {
            self.lemma_repeats(a, m, i - 1);
            lemma_symbols_repeat(self.spoke, self.cycle, i - 1, m);
        }
    }

    /// A run that repeats itself from `a` on with a positive period looks from
    /// `i` on as it looks somewhere between `a` and `a + period`.
    pub proof fn lemma_folds_back(&self, a: int, m: nat, i: int) -> (j: int)
        requires
            self.cycle.len() > 0,
            m > 0,
            a >= self.spoke.len(),
            self.state(a) == self.state(a + times(self.cycle.len() as int, m)),
            i >= a,
        ensures
            a <= j < a + times(self.cycle.len() as int, m),
            self.state(j) == self.state(i),
            self.color(j) == self.color(i),
        decreases i - a,
    {
        let period = times(self.cycle.len() as int, m);
        lemma_times_grows(self.cycle.len() as int, m);
        if i < a + period {
            i
        } else {
            self.lemma_repeats(a, m, i - period);
            self.lemma_folds_back(a, m, i - period)
        }
    }

    /// A run that repeats itself from `a` on looks at `i` plus any number of
    /// periods as it looks at `i`.
    pub proof fn lemma_folds_forth(&self, a: int, m: nat, i: int, k: nat)
        requires
            self.cycle.len() > 0,
            a >= self.spoke.len(),
            self.state(a) == self.state(a + times(self.cycle.len() as int, m)),
            i >= a,
        ensures
            self.color(i + times(times(self.cycle.len() as int, m), k)) == self.color(i),
        decreases k,
    {
        let period = times(self.cycle.len() as int, m);
        lemma_times_grows(self.cycle.len() as int, m);
        if k > 0 {
            self.lemma_folds_forth(a, m, i, (k - 1) as nat);
            if m == 0 {
                assert(period == 0);
                lemma_times_zero((k - 1) as nat);
                lemma_times_zero(k);
            } else {
                lemma_times_grows(period, (k - 1) as nat);
                self.lemma_repeats(a, m, i + times(period, (k - 1) as nat));
            }
        }
    }

    /// What holds of a run that is in the same state at `a` and one or more
    /// cycles later: it never leaves the system, and it sees infinitely often
    /// exactly the colors that it sees between the two positions.
    pub proof fn lemma_lasso(&self, a: int, m: nat)
        requires
            self.ts.wf(),
            self.cycle.len() > 0,
            m > 0,
            a >= self.spoke.len(),
            self.state(a).is_some(),
            self.state(a) == self.state(a + times(self.cycle.len() as int, m)),
        ensures
            self.exists_forever(),
            forall|c: C|
                #[trigger] self.seen_infinitely_often(c) <==> self.seen_between(
                    c,
                    a,
                    a + times(self.cycle.len() as int, m),
                ),
    {
        let period = times(self.cycle.len() as int, m);
        lemma_times_grows(self.cycle.len() as int, m);
        assert forall|i: int| 0 <= i implies (#[trigger] self.state(i)).is_some() by {
            if i <= a {
                self.lemma_prefix(a, i);
            } else {
                let j = self.lemma_folds_back(a, m, i);
                self.lemma_prefix(a + period, j);
            }
        }
        assert forall|c: C|
            #[trigger] self.seen_infinitely_often(c) <==> self.seen_between(c, a, a + period) by {
            if self.seen_infinitely_often(c) {
                assert(self.seen_from(c, a));
                let i = choose|i: int| a <= i && #[trigger] self.color(i) == Some(c);
                let j = self.lemma_folds_back(a, m, i);
                assert(self.color(j) == Some(c));
            }
            if self.seen_between(c, a, a + period) {
                let i = choose|i: int| a <= i < a + period && #[trigger] self.color(i) == Some(c);
                assert forall|n: int| 0 <= n implies #[trigger] self.seen_from(c, n) by {
                    self.lemma_folds_forth(a, m, i, n as nat);
                    lemma_times_grows(period, n as nat);
                    let far = i + times(period, n as nat);
                    assert(n <= far && self.color(far) == Some(c));
                }
            }
        }
    }
}

/// Every multiple of zero is zero.
pub proof fn lemma_times_zero(k: nat)
    ensures
        times(0, k) == 0,
    decreases k,
{
    if k > 0 {
        lemma_times_zero((k - 1) as nat);
    }
}

/// The multiple for a sum of factors is the sum of the multiples.
pub proof fn lemma_times_add(len: int, m: nat, k: nat)
    ensures
        times(len, m + k) == times(len, m) + times(len, k),
    decreases k,
{
    if k > 0 {
        lemma_times_add(len, m, (k - 1) as nat);
        assert(m + k - 1 == m + (k - 1) as nat);
    }
}

/// The run of `ts` from `start` on `word`.
pub open spec fn run_of<'a, Q, C>(ts: &'a DTS<Q, C>, start: int, word: &ReducedOmegaWord) -> OmegaRun<
    'a,
    Q,
    C,
> {
    OmegaRun { ts, start, spoke: word.spec_spoke(), cycle: word.spec_cycle() }
}

/// The position of `q` in `states`.
fn position_of_state(states: &Vec<StateIndex>, q: StateIndex) -> (found: Option<usize>)
    ensures
        match found {
            Some(j) => j < states@.len() && states@[j as int] == q,
            None => !states@.contains(q),
        },
{
    let mut j: usize = 0;
    while j < states.len()
        invariant
            j <= states@.len(),
            forall|i: int| 0 <= i < j ==> states@[i] != q,
        decreases states@.len() - j,
    {
        if states[j] == q {
            return Some(j);
        }
        j += 1;
    }
    None
}

/// Whether `colors` holds `c`.
fn holds_color<C: Color>(colors: &Vec<C>, c: &C) -> (found: bool)
    ensures
        found == colors@.contains(*c),
{
    let mut j: usize = 0;
    while j < colors.len()
        invariant
            j <= colors@.len(),
            forall|i: int| 0 <= i < j ==> colors@[i] != *c,
        decreases colors@.len() - j,
    {
        if colors[j].same(c) {
            return true;
        }
        j += 1;
    }
    false
}

/// Runs `ts` from `start` on `word` and returns the colors that the run sees
/// infinitely often, each once, or `None` if the run leaves the system.
pub fn infinity_set<Q, C: Color>(ts: &DTS<Q, C>, start: StateIndex, word: &ReducedOmegaWord) -> (r:
    Option<Vec<C>>)
    requires
        ts.wf(),
        word.wf(),
        start < ts.spec_size(),
    ensures
        match r {
            Some(colors) => run_of(ts, start as int, word).exists_forever() && colors@.no_duplicates()
                && forall|c: C|
                #[trigger] colors@.contains(c) <==> run_of(
                    ts,
                    start as int,
                    word,
                ).seen_infinitely_often(c),
            None => !run_of(ts, start as int, word).exists_forever(),
        },
{
    let ghost run = run_of(ts, start as int, word);
    let n = ts.size();
    let spoke = word.spoke();
    let cycle = word.cycle();
    let s = spoke.len();
    let len = cycle.len();
    let mut cur = start;
    let mut i: usize = 0;
    while i < s
        invariant
            ts.wf(),
            run == run_of(ts, start as int, word),
            spoke@ == run.spoke,
            s == spoke@.len(),
            i <= s,
            cur < ts.spec_size(),
            run.state(i as int) == Some(cur as int),
        decreases s - i,
    {
        let sym = spoke[i];
        assert(run.symbol(i as int) == sym);
        match ts.edge(cur, sym) {
            Some((_, t)) => {
                cur = t;
            },
            None => {
                assert(run.state(i + 1).is_none());
                return None;
            },
        }
        i += 1;
    }
    let mut seen: Vec<StateIndex> = Vec::new();
    let mut found: Option<usize> = None;
    while found.is_none()
        invariant
            ts.wf(),
            run == run_of(ts, start as int, word),
            cycle@ == run.cycle,
            s == run.spoke.len(),
            len == cycle@.len(),
            len > 0,
            n == ts.spec_size(),
            cur < n,
            run.state(s + times(len as int, seen@.len())) == Some(cur as int),
            seen@.no_duplicates(),
            forall|j: int| 0 <= j < seen@.len() ==> #[trigger] seen@[j] < n,
            forall|j: int|
                0 <= j < seen@.len() ==> run.state(s + times(len as int, j as nat)) == Some(
                    #[trigger] seen@[j] as int,
                ),
            match found {
                Some(p) => p < seen@.len() && seen@[p as int] == cur,
                None => true,
            },
        decreases n - seen@.len() + (if found.is_none() { 1int } else { 0int }),
    {
        proof {
            lemma_distinct_below(seen@, n as nat);
        }
        match position_of_state(&seen, cur) {
            Some(p) => {
                found = Some(p);
            },
            None => {
                let ghost base = s + times(len as int, seen@.len());
                let ghost before = seen@;
                seen.push(cur);
                proof {
                    assert forall|j: int| 0 <= j < seen@.len() implies run.state(
                        s + times(len as int, j as nat),
                    ) == Some(#[trigger] seen@[j] as int) by {
                        if j < before.len() {
                            assert(seen@[j] == before[j]);
                        }
                    }
                    lemma_distinct_below(seen@, n as nat);
                    lemma_times_grows(len as int, before.len());
                }
                let mut t: usize = 0;
                while t < len
                    invariant
                        ts.wf(),
                        run == run_of(ts, start as int, word),
                        cycle@ == run.cycle,
                        s == run.spoke.len(),
                        len == cycle@.len(),
                        len > 0,
                        n == ts.spec_size(),
                        base == s + times(len as int, (seen@.len() - 1) as nat),
                        base >= s,
                        seen@.len() >= 1,
                        t <= len,
                        cur < n,
                        run.state(base + t) == Some(cur as int),
                    decreases len - t,
                {
                    let sym = cycle[t];
                    proof {
                        lemma_symbols_repeat(
                            run.spoke,
                            run.cycle,
                            s + t,
                            (seen@.len() - 1) as nat,
                        );
                        assert(run.symbol(base + t) == sym);
                    }
                    match ts.edge(cur, sym) {
                        Some((_, next)) => {
                            cur = next;
                        },
                        None => {
                            assert(run.state(base + t + 1).is_none());
                            return None;
                        },
                    }
                    t += 1;
                }
            },
        }
    }
    let p = match found {
        Some(p) => p,
        None => vstd::pervasive::unreached(),
    };
    let rounds = seen.len() - p;
    let ghost a = s + times(len as int, p as nat);
    let ghost period = times(len as int, rounds as nat);
    proof {
        lemma_times_add(len as int, p as nat, rounds as nat);
        lemma_times_grows(len as int, p as nat);
        assert(run.state(a) == Some(cur as int));
        assert(run.state(a + period) == Some(cur as int));
    }
    let mut colors: Vec<C> = Vec::new();
    let mut round: usize = 0;
    while round < rounds
        invariant
            ts.wf(),
            run == run_of(ts, start as int, word),
            cycle@ == run.cycle,
            s == run.spoke.len(),
            len == cycle@.len(),
            len > 0,
            n == ts.spec_size(),
            a == s + times(len as int, p as nat),
            a >= s,
            period == times(len as int, rounds as nat),
            run.state(a + period).is_some(),
            round <= rounds,
            cur < n,
            run.state(a + times(len as int, round as nat)) == Some(cur as int),
            colors@.no_duplicates(),
            forall|c: C|
                #[trigger] colors@.contains(c) <==> run.seen_between(
                    c,
                    a,
                    a + times(len as int, round as nat),
                ),
        decreases rounds - round,
    {
        let ghost base = a + times(len as int, round as nat);
        proof {
            lemma_times_grows(len as int, round as nat);
            lemma_times_add(len as int, (round + 1) as nat, (rounds - round - 1) as nat);
            lemma_times_grows(len as int, (rounds - round - 1) as nat);
        }
        let mut t: usize = 0;
        while t < len
            invariant
                ts.wf(),
                run == run_of(ts, start as int, word),
                cycle@ == run.cycle,
                s == run.spoke.len(),
                len == cycle@.len(),
                len > 0,
                n == ts.spec_size(),
                a == s + times(len as int, p as nat),
                a >= s,
                base == a + times(len as int, round as nat),
                base >= a,
                base + len <= a + period,
                run.state(a + period).is_some(),
                t <= len,
                cur < n,
                run.state(base + t) == Some(cur as int),
                colors@.no_duplicates(),
                forall|c: C| #[trigger] colors@.contains(c) <==> run.seen_between(c, a, base + t),
            decreases len - t,
        {
            let sym = cycle[t];
            proof {
                lemma_symbols_repeat(run.spoke, run.cycle, s + t, (p + round) as nat);
                lemma_times_add(len as int, p as nat, round as nat);
                assert(run.symbol(base + t) == sym);
                run.lemma_prefix(a + period, base + t + 1);
            }
            let color = match ts.edge(cur, sym) {
                Some((c, next)) => {
                    cur = next;
                    c
                },
                None => vstd::pervasive::unreached(),
            };
            assert(run.color(base + t) == Some(color));
            let ghost before = colors@;
            if !holds_color(&colors, &color) {
                colors.push(color);
            }
            proof {
                assert forall|c: C|
                    #[trigger] colors@.contains(c) <==> run.seen_between(c, a, base + t + 1) by {
                    if colors@.contains(c) {
                        let j = choose|j: int| 0 <= j < colors@.len() && colors@[j] == c;
                        if j < before.len() {
                            assert(before.contains(c));
                            assert(run.seen_between(c, a, base + t));
                            let i0 = choose|i0: int|
                                a <= i0 < base + t && #[trigger] run.color(i0) == Some(c);
                            assert(a <= i0 < base + t + 1 && run.color(i0) == Some(c));
                        } else {
                            assert(c == color);
                        }
                    }
                    if run.seen_between(c, a, base + t + 1) {
                        let i0 = choose|i0: int|
                            a <= i0 < base + t + 1 && #[trigger] run.color(i0) == Some(c);
                        if i0 < base + t {
                            assert(run.seen_between(c, a, base + t));
                            assert(before.contains(c));
                            let j = choose|j: int| 0 <= j < before.len() && before[j] == c;
                            assert(colors@[j] == c);
                        } else {
                            assert(c == color);
                            if before.contains(c) {
                                let j = choose|j: int| 0 <= j < before.len() && before[j] == c;
                                assert(colors@[j] == c);
                            } else {
                                assert(colors@[colors@.len() - 1] == c);
                            }
                        }
                    }
                }
            }
            t += 1;
        }
        round += 1;
    }
    proof {
        run.lemma_lasso(a, rounds as nat);
    }
    Some(colors)
}

} // verus!
