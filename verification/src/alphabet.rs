//! Alphabets of characters.
use vstd::prelude::*;

verus! {

/// The code points of `s` increase strictly from left to right.
pub open spec fn strictly_increasing(s: Seq<char>) -> bool {
    forall|i: int, j: int| 0 <= i < j < s.len() ==> (s[i] as int) < (s[j] as int)
}

/// The position of `sym` in `s`, if it occurs there.
pub open spec fn position_of(s: Seq<char>, sym: char) -> Option<int> {
    if s.contains(sym) {
        Some(s.index_of(sym))
    } else {
        None
    }
}

/// In a strictly increasing sequence every symbol has exactly one position.
pub proof fn lemma_position_unique(s: Seq<char>, i: int)
    requires
        strictly_increasing(s),
        0 <= i < s.len(),
    ensures
        position_of(s, s[i]) == Some(i),
{
    assert(s.contains(s[i]));
    let j = s.index_of(s[i]);
    assert(0 <= j < s.len() && s[j] == s[i]);
    if j < i {
        assert((s[j] as int) < (s[i] as int));
    } else if i < j {
        assert((s[i] as int) < (s[j] as int));
    }
}

/// A finite set of characters, kept in increasing order of code point.
#[derive(Debug, PartialEq, Eq, Hash)]
pub struct CharAlphabet {
    symbols: Vec<char>,
}

impl View for CharAlphabet {
    type V = Seq<char>;

    closed spec fn view(&self) -> Seq<char> {
        self.symbols@
    }
}

impl Clone for CharAlphabet {
    fn clone(&self) -> (copy: Self)
        ensures
            copy@ == self@,
    {
        let mut symbols: Vec<char> = Vec::new();
        let mut i: usize = 0;
        while i < self.symbols.len()
            invariant
                i <= self.symbols.len(),
                symbols@ == self.symbols@.take(i as int),
            decreases self.symbols.len() - i,
        {
            symbols.push(self.symbols[i]);
            assert(self.symbols@.take(i + 1) == self.symbols@.take(i as int).push(
                self.symbols@[i as int],
            ));
            i += 1;
        }
        assert(self.symbols@.take(self.symbols.len() as int) == self.symbols@);
        CharAlphabet { symbols }
    }
}

impl CharAlphabet {
    /// The symbols are strictly increasing, so none occurs twice.
    pub open spec fn wf(&self) -> bool {
        strictly_increasing(self@)
    }

    /// The alphabet without symbols.
    pub fn empty() -> (alphabet: Self)
        ensures
            alphabet.wf(),
            alphabet@ == Seq::<char>::empty(),
    {
        CharAlphabet { symbols: Vec::new() }
    }

    /// The number of symbols.
    pub fn size(&self) -> (n: usize)
        ensures
            n == self@.len(),
    {
        self.symbols.len()
    }

    /// The symbol at position `i`.
    pub fn symbol(&self, i: usize) -> (sym: char)
        requires
            i < self@.len(),
        ensures
            sym == self@[i as int],
    {
        self.symbols[i]
    }

    /// The position of `sym`, or `None` if the alphabet lacks it.
    pub fn index_of(&self, sym: char) -> (r: Option<usize>)
        requires
            self.wf(),
        ensures
            match r {
                Some(i) => position_of(self@, sym) == Some(i as int) && i < self@.len()
                    && self@[i as int] == sym,
                None => position_of(self@, sym).is_none(),
            },
    {
        let mut i: usize = 0;
        while i < self.symbols.len()
            invariant
                self.wf(),
                i <= self.symbols.len(),
                forall|j: int| 0 <= j < i ==> self@[j] != sym,
            decreases self.symbols.len() - i,
        {
            if self.symbols[i] == sym {
                proof {
                    lemma_position_unique(self@, i as int);
                }
                return Some(i);
            }
            i += 1;
        }
        None
    }

    /// Whether `sym` belongs to the alphabet.
    pub fn contains(&self, sym: char) -> (b: bool)
        requires
            self.wf(),
        ensures
            b == self@.contains(sym),
    {
        self.index_of(sym).is_some()
    }

    /// Adds `sym` to the alphabet, if it is not there yet.
    pub fn insert(&mut self, sym: char)
        requires
            old(self).wf(),
        ensures
            final(self).wf(),
            final(self)@.to_set() == old(self)@.to_set().insert(sym),
            old(self)@.contains(sym) ==> final(self)@ == old(self)@,
    {
        let mut i: usize = 0;
        while i < self.symbols.len() && self.symbols[i] < sym
            invariant
                i <= self.symbols.len(),
                forall|j: int| 0 <= j < i ==> (self@[j] as int) < (sym as int),
            decreases self.symbols.len() - i,
        {
            i += 1;
        }
        if i < self.symbols.len() && self.symbols[i] == sym {
            proof {
                assert(self@.contains(sym));
                assert(self@.to_set().insert(sym) =~= self@.to_set());
            }
            return ;
        }
        let ghost before = self@;
        proof {
            assert forall|j: int| i <= j < before.len() implies (sym as int) < (
            #[trigger] before[j] as int) by {
                if j > i {
                    assert((before[i as int] as int) < (before[j] as int));
                }
            }
        }
        self.symbols.insert(i, sym);
        proof {
            let after = self@;
            assert(after == before.insert(i as int, sym));
            assert forall|a: int, b: int| 0 <= a < b < after.len() implies (after[a] as int) < (
            after[b] as int) by {
                if a < i && b > i {
                    assert((before[a] as int) < (sym as int));
                    assert((sym as int) < (before[b - 1] as int));
                }
            }
            assert(after.to_set() =~= before.to_set().insert(sym)) by {
                assert forall|c: char| after.to_set().contains(c) <==> before.to_set().insert(
                    sym,
                ).contains(c) by {
                    if after.contains(c) {
                        let k = after.index_of(c);
                        if k < i {
                            assert(before[k] == c);
                        } else if k > i {
                            assert(before[k - 1] == c);
                        }
                    }
                    if before.contains(c) {
                        let k = before.index_of(c);
                        if k < i {
                            assert(after[k] == c);
                        } else {
                            assert(after[k + 1] == c);
                        }
                    }
                    if c == sym {
                        assert(after[i as int] == c);
                    }
                }
            }
        }
    }

    /// The alphabet of the first `n` lower-case letters.
    pub fn of_size(n: usize) -> (alphabet: Self)
        requires
            n <= 26,
        ensures
            alphabet.wf(),
            alphabet@.len() == n,
            forall|i: int| 0 <= i < n ==> alphabet@[i] as int == 'a' as int + i,
    {
        let mut symbols: Vec<char> = Vec::new();
        let mut i: u8 = 0;
        while (i as usize) < n
            invariant
                n <= 26,
                i <= n,
                symbols@.len() == i,
                forall|j: int| 0 <= j < i ==> symbols@[j] as int == 'a' as int + j,
            decreases n - i,
        {
            let c: char = (97u8 + i) as char;
            symbols.push(c);
            i += 1;
        }
        CharAlphabet { symbols }
    }

    /// The alphabet of the symbols that occur in `chars`.
    pub fn from_chars(chars: &Vec<char>) -> (alphabet: Self)
        ensures
            alphabet.wf(),
            alphabet@.to_set() == chars@.to_set(),
    {
        let mut alphabet = CharAlphabet::empty();
        let mut i: usize = 0;
        assert(alphabet@.to_set() =~= chars@.take(0).to_set());
        while i < chars.len()
            invariant
                i <= chars.len(),
                alphabet.wf(),
                alphabet@.to_set() == chars@.take(i as int).to_set(),
            decreases chars.len() - i,
        {
            alphabet.insert(chars[i]);
            proof {
                let a = chars@.take(i as int);
                let b = chars@.take(i + 1);
                assert(b == a.push(chars@[i as int]));
                assert(b.to_set() =~= a.to_set().insert(chars@[i as int])) by {
                    assert forall|c: char| b.to_set().contains(c) <==> a.to_set().insert(
                        chars@[i as int],
                    ).contains(c) by {
                        if b.contains(c) {
                            let k = b.index_of(c);
                            if k < i {
                                assert(a[k] == c);
                            }
                        }
                        if a.contains(c) {
                            let k = a.index_of(c);
                            assert(b[k] == c);
                        }
                        if c == chars@[i as int] {
                            assert(b[i as int] == c);
                        }
                    }
                }
            }
            i += 1;
        }
        assert(chars@.take(chars.len() as int) == chars@);
        alphabet
    }

    /// Whether both alphabets hold the same symbols.
    pub fn equals(&self, other: &Self) -> (b: bool)
        ensures
            b == (self@ == other@),
    {
        if self.symbols.len() != other.symbols.len() {
            return false;
        }
        let mut i: usize = 0;
        while i < self.symbols.len()
            invariant
                i <= self.symbols.len(),
                self.symbols.len() == other.symbols.len(),
                forall|j: int| 0 <= j < i ==> self@[j] == other@[j],
            decreases self.symbols.len() - i,
        {
            if self.symbols[i] != other.symbols[i] {
                return false;
            }
            i += 1;
        }
        assert(self@ =~= other@);
        true
    }
}

} // verus!
