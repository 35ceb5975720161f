//! Framing of automata in the text of the HOA format: where one automaton ends
//! and the next begins.
use vstd::prelude::*;
use vstd::string::StringSliceAdditionalSpecFns;

verus! {

/// The bytes of the marker `--END--`, which ends an automaton.
pub open spec fn end_marker() -> Seq<u8> {
    seq![45u8, 45u8, 69u8, 78u8, 68u8, 45u8, 45u8]
}

/// The bytes of the marker `--ABORT--`, which gives an automaton up.
pub open spec fn abort_marker() -> Seq<u8> {
    seq![45u8, 45u8, 65u8, 66u8, 79u8, 82u8, 84u8, 45u8, 45u8]
}

/// `needle` occurs in `hay` at position `i`.
pub open spec fn occurs_at(hay: Seq<u8>, needle: Seq<u8>, i: int) -> bool {
    &&& 0 <= i
    &&& i + needle.len() <= hay.len()
    &&& hay.subrange(i, i + needle.len()) == needle
}

/// `position` is the first position at which `needle` occurs in `hay`, if it
/// occurs at all.
pub open spec fn is_first_occurrence(hay: Seq<u8>, needle: Seq<u8>, position: Option<int>) -> bool {
    match position {
        Some(i) => occurs_at(hay, needle, i) && forall|j: int| 0 <= j < i ==> !occurs_at(hay, needle, j),
        None => forall|j: int| !occurs_at(hay, needle, j),
    }
}

/// Whether `needle` occurs in `hay` at position `i`.
fn matches_at(hay: &[u8], needle: &[u8], i: usize) -> (b: bool)
    requires
        i + needle@.len() <= hay@.len(),
    ensures
        b == occurs_at(hay@, needle@, i as int),
{
    let n = hay.len();
    let mut j: usize = 0;
    while j < needle.len()
        invariant
            n == hay@.len(),
            i + needle@.len() <= hay@.len(),
            j <= needle@.len(),
            forall|l: int| 0 <= l < j ==> hay@[i + l] == needle@[l],
        decreases needle@.len() - j,
    {
        if hay[i + j] != needle[j] {
            assert(hay@.subrange(i as int, i + needle@.len())[j as int] != needle@[j as int]);
            return false;
        }
        j += 1;
    }
    assert(hay@.subrange(i as int, i + needle@.len()) =~= needle@);
    true
}

/// Finds the first position at which `needle` occurs in `hay`.
pub fn find_bytes(hay: &[u8], needle: &[u8]) -> (position: Option<usize>)
    ensures
        is_first_occurrence(
            hay@,
            needle@,
            match position {
                Some(i) => Some(i as int),
                None => None,
            },
        ),
{
    if needle.len() > hay.len() {
        return None;
    }
    let last = hay.len() - needle.len();
    let mut i: usize = 0;
    loop
        invariant
            last == hay@.len() - needle@.len(),
            i <= last,
            forall|j: int| 0 <= j < i ==> !occurs_at(hay@, needle@, j),
        decreases last - i,
    {
        if matches_at(hay, needle, i) {
            return Some(i);
        }
        if i == last {
            return None;
        }
        i += 1;
    }
}

/// What `first_automaton_split_position` returns for the bytes `text`: the
/// position right after the first `--END--`, unless there is none or an
/// `--ABORT--` comes before it.
pub open spec fn split_position(text: Seq<u8>, position: Option<int>) -> bool {
    exists|end: Option<int>, abort: Option<int>|
        is_first_occurrence(text, end_marker(), end) && is_first_occurrence(
            text,
            abort_marker(),
            abort,
        ) && position == match end {
            Some(e) => match abort {
                Some(a) => if a < e {
                    None
                } else {
                    Some(e + 7)
                },
                None => Some(e + 7),
            },
            None => None,
        }
}

/// Returns the position in bytes at which the first automaton of `input` ends:
/// the position right after the first `--END--`. Returns `None` if there is no
/// `--END--`, or if an `--ABORT--` comes before the first `--END--`, so that
/// the first automaton was given up.
pub fn first_automaton_split_position(input: &str) -> (position: Option<usize>)
    ensures
        split_position(
            input.spec_bytes(),
            match position {
                Some(i) => Some(i as int),
                None => None,
            },
        ),
{
    let text = input.as_bytes();
    let end_bytes: [u8; 7] = [45, 45, 69, 78, 68, 45, 45];
    let abort_bytes: [u8; 9] = [45, 45, 65, 66, 79, 82, 84, 45, 45];
    assert(end_bytes@ =~= end_marker());
    assert(abort_bytes@ =~= abort_marker());
    let length = text.len();
    let end = find_bytes(text, end_bytes.as_slice());
    let abort = find_bytes(text, abort_bytes.as_slice());
    let ghost end_spec: Option<int> = match end {
        Some(i) => Some(i as int),
        None => None,
    };
    let ghost abort_spec: Option<int> = match abort {
        Some(i) => Some(i as int),
        None => None,
    };
    let position = match end {
        Some(e) => match abort {
            Some(a) => if a < e {
                None
            } else {
                Some(e + 7)
            },
            None => Some(e + 7),
        },
        None => None,
    };
    proof {
        assert(is_first_occurrence(text@, end_marker(), end_spec));
        assert(is_first_occurrence(text@, abort_marker(), abort_spec));
    }
    position
}

} // verus!
