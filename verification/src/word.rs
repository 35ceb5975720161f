//! Infinite words that are ultimately periodic.
use vstd::prelude::*;

verus! {

/// An ultimately periodic infinite word: a finite spoke, followed by a cycle
/// that is repeated forever. The cycle is not empty.
#[derive(Debug, PartialEq, Eq, Hash)]
pub struct ReducedOmegaWord {
    spoke: Vec<char>,
    cycle: Vec<char>,
}

/// The symbol at position `i` of the word with the given spoke and cycle.
pub open spec fn symbol_at(spoke: Seq<char>, cycle: Seq<char>, i: int) -> char
    decreases i,
{
    if i < spoke.len() {
        spoke[i]
    } else if i - spoke.len() < cycle.len() || cycle.len() == 0 {
        cycle[i - spoke.len()]
    } else {
        symbol_at(spoke, cycle, i - cycle.len())
    }
}

/// `m` times `len`.
pub open spec fn times(len: int, m: nat) -> int
    decreases m,
{
    if m == 0 {
        0
    } else {
        times(len, (m - 1) as nat) + len
    }
}

/// Multiples of a positive number grow with the factor.
pub proof fn lemma_times_grows(len: int, m: nat)
    requires
        len >= 1,
    ensures
        times(len, m) >= m,
    decreases m,
{
    if m > 0 {
        lemma_times_grows(len, (m - 1) as nat);
    }
}

/// Behind the spoke, the symbols repeat with every multiple of the length of
/// the cycle.
pub proof fn lemma_symbols_repeat(spoke: Seq<char>, cycle: Seq<char>, i: int, m: nat)
    requires
        cycle.len() > 0,
        i >= spoke.len(),
    ensures
        symbol_at(spoke, cycle, i + times(cycle.len() as int, m)) == symbol_at(spoke, cycle, i),
    decreases m,
{
    if m > 0 {
        lemma_symbols_repeat(spoke, cycle, i, (m - 1) as nat);
        lemma_times_grows(cycle.len() as int, (m - 1) as nat);
    }
}

/// Copies the characters of a string.
fn chars_of(text: &str) -> (chars: Vec<char>)
    ensures
        chars@ == text@,
{
    let len = text.unicode_len();
    let mut chars: Vec<char> = Vec::new();
    let mut i: usize = 0;
    while i < len
        invariant
            len == text@.len(),
            i <= len,
            chars@ == text@.take(i as int),
        decreases len - i,
    {
        chars.push(text.get_char(i));
        assert(text@.take(i + 1) == text@.take(i as int).push(text@[i as int]));
        i += 1;
    }
    assert(text@.take(len as int) == text@);
    chars
}

impl ReducedOmegaWord {
    /// The spoke: the symbols before the cycle.
    pub closed spec fn spec_spoke(&self) -> Seq<char> {
        self.spoke@
    }

    /// The cycle: the symbols that are repeated forever.
    pub closed spec fn spec_cycle(&self) -> Seq<char> {
        self.cycle@
    }

    /// The cycle is not empty.
    pub open spec fn wf(&self) -> bool {
        self.spec_cycle().len() > 0
    }

    /// The symbol at position `i`.
    pub open spec fn spec_nth(&self, i: int) -> char {
        symbol_at(self.spec_spoke(), self.spec_cycle(), i)
    }

    /// The word that repeats `cycle` forever.
    pub fn periodic(cycle: &str) -> (word: Self)
        requires
            cycle@.len() > 0,
        ensures
            word.wf(),
            word.spec_spoke() == Seq::<char>::empty(),
            word.spec_cycle() == cycle@,
    {
        ReducedOmegaWord { spoke: Vec::new(), cycle: chars_of(cycle) }
    }

    /// The word that starts with `spoke` and then repeats `cycle` forever.
    pub fn ultimately_periodic(spoke: &str, cycle: &str) -> (word: Self)
        requires
            cycle@.len() > 0,
        ensures
            word.wf(),
            word.spec_spoke() == spoke@,
            word.spec_cycle() == cycle@,
    {
        ReducedOmegaWord { spoke: chars_of(spoke), cycle: chars_of(cycle) }
    }

    /// Returns the symbols before the cycle.
    pub fn spoke(&self) -> (spoke: &Vec<char>)
        ensures
            spoke@ == self.spec_spoke(),
    {
        &self.spoke
    }

    /// Returns the symbols that are repeated forever.
    pub fn cycle(&self) -> (cycle: &Vec<char>)
        ensures
            cycle@ == self.spec_cycle(),
    {
        &self.cycle
    }
}

} // verus!
