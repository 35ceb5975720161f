use automata::automaton::omega::rabin::{RabinCondition, RabinPair};
use std::collections::BTreeSet;

#[test]
fn rabin_pairs() {
    let pair = RabinPair::from_iters([1], [2]);
    let mut colors: BTreeSet<usize> = vec![1, 2].into_iter().collect();
    assert!(!pair.satisfied_by_set(&colors));
    colors.remove(&1);
    assert!(pair.satisfied_by_set(&colors));
    colors.remove(&2);
    assert!(!pair.satisfied_by_set(&colors));
    colors.insert(1);
    assert!(!pair.satisfied_by_set(&colors));
}

#[test]
fn rabin_pair_by_list_and_condition() {
    let pair = RabinPair::new(BTreeSet::from([3]), BTreeSet::from([4, 5]));
    assert!(pair.satisfied_by_iter([5, 6]));
    assert!(!pair.satisfied_by_iter([3, 5]));
    assert!(!pair.satisfied_by_iter([6]));
    let condition = RabinCondition::from_pairs(vec![
        RabinPair::from_iters([1], [2]),
        RabinPair::from_iters([], [7]),
    ]);
    assert!(condition.evaluate(&BTreeSet::from([1, 7])));
    assert!(condition.evaluate(&BTreeSet::from([2])));
    assert!(!condition.evaluate(&BTreeSet::from([1, 2])));
    assert!(!condition.evaluate(&BTreeSet::new()));
}
