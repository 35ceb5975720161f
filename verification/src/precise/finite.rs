//! There are only finitely many lists of machine numbers of a given length.
use vstd::prelude::*;

verus! {

/// The lists of machine numbers of length `len`.
pub open spec fn lists_of_length(len: nat) -> Set<Seq<usize>> {
    Set::new(|s: Seq<usize>| s.len() == len)
}

/// The lists of length `len` that arise from `shorter` by appending `x`.
spec fn extended_by(shorter: Set<Seq<usize>>, x: usize) -> Set<Seq<usize>> {
    shorter.map(|s: Seq<usize>| s.push(x))
}

/// There are finitely many lists of machine numbers of any given length.
pub proof fn lemma_lists_finite(len: nat)
    ensures
        lists_of_length(len).finite(),
    decreases len,
{
    if len == 0 {
        assert(lists_of_length(0) =~= Set::<Seq<usize>>::empty().insert(Seq::<usize>::empty())) by {
            assert forall|s: Seq<usize>| lists_of_length(0).contains(s) implies s
                == Seq::<usize>::empty() by {
                assert(s =~= Seq::<usize>::empty());
            }
        }
    } else {
        let shorter = lists_of_length((len - 1) as nat);
        lemma_lists_finite((len - 1) as nat);
        let numbers = Set::<usize>::full();
        <usize as vstd::set_lib::FiniteFull>::full_properties();
        let f = |x: usize| extended_by(shorter, x);
        let parts = numbers.map(f);
        numbers.lemma_map_finite(f);
        assert forall|part: Set<Seq<usize>>| parts.contains(part) implies #[trigger] part.finite() by {
            let x = choose|x: usize| numbers.contains(x) && part == f(x);
            shorter.lemma_map_finite(|s: Seq<usize>| s.push(x));
        }
        parts.lemma_flatten_finite();
        assert(parts.flatten() =~= lists_of_length(len)) by {
            assert forall|s: Seq<usize>| lists_of_length(len).contains(s) implies parts.flatten().contains(
                s,
            ) by {
                let x = s.last();
                let rest = s.drop_last();
                assert(rest.push(x) =~= s);
                assert(shorter.contains(rest));
                assert(extended_by(shorter, x).contains(s));
                assert(numbers.contains(x));
                assert(parts.contains(f(x)));
            }
            assert forall|s: Seq<usize>| parts.flatten().contains(s) implies lists_of_length(
                len,
            ).contains(s) by {
                let part = choose|part: Set<Seq<usize>>| parts.contains(part) && part.contains(s);
                let x = choose|x: usize| numbers.contains(x) && part == f(x);
                let rest = choose|rest: Seq<usize>| shorter.contains(rest) && s == rest.push(x);
            }
        }
    }
}

/// A list without duplicates of lists of length `len` is at most as long as
/// there are lists of length `len`.
pub proof fn lemma_distinct_lists_bounded(lists: Seq<Seq<usize>>, len: nat)
    requires
        lists.no_duplicates(),
        forall|i: int| 0 <= i < lists.len() ==> (#[trigger] lists[i]).len() == len,
    ensures
        lists.len() <= lists_of_length(len).len(),
{
    lemma_lists_finite(len);
    lists.unique_seq_to_set();
    assert(lists.to_set().subset_of(lists_of_length(len))) by {
        assert forall|s: Seq<usize>| lists.to_set().contains(s) implies lists_of_length(
            len,
        ).contains(s) by {
            let i = choose|i: int| 0 <= i < lists.len() && lists[i] == s;
        }
    }
    vstd::set_lib::lemma_len_subset(lists.to_set(), lists_of_length(len));
}

} // verus!
