use automata::automaton::omega::rabin::{RabinCondition, RabinPair, DRA};
use automata::automaton::omega::{DBA, DPA};
use automata::ts::builder::TSBuilder;
use automata::word::ReducedOmegaWord;

#[test]
fn rabin_automaton() {
    let ts = TSBuilder::without_state_colors()
        .with_transitions([
            (0, 'a', 0, 0),
            (0, 'b', 1, 1),
            (1, 'a', 0, 0),
            (1, 'b', 1, 1),
        ])
        .into_dts();
    let dra = DRA::from_parts_with_acceptance(
        ts,
        0,
        RabinCondition::from_pairs(vec![RabinPair::from_iters([], [1])]),
    );
    assert!(dra.accepts(&ReducedOmegaWord::periodic("ba")));
    assert!(!dra.accepts(&ReducedOmegaWord::periodic("a")));
    assert!(dra.accepts(&ReducedOmegaWord::periodic("ab")));
}

#[test]
fn dbas() {
    let dba = DBA::builder()
        .with_edges([
            (0, 'a', true, 1),
            (0, 'b', false, 0),
            (1, 'a', true, 1),
            (1, 'b', false, 0),
        ])
        .into_dba(0);
    assert!(dba.accepts(&ReducedOmegaWord::periodic("abb")));
    assert!(!dba.accepts(&ReducedOmegaWord::periodic("b")));
    assert!(dba.accepts(&ReducedOmegaWord::periodic("a")));
    assert!(!dba.accepts(&ReducedOmegaWord::periodic("b")));

    assert!(!dba.is_empty());
}

#[test]
fn buchi_automaton_without_accepting_loop_is_empty() {
    let dba = DBA::builder()
        .with_edges([
            (0, 'a', true, 1),
            (1, 'a', false, 1),
            (2, 'a', true, 2),
            (1, 'b', false, 1),
            (0, 'b', false, 1),
            (2, 'b', false, 0),
        ])
        .into_dba(0);
    assert!(dba.is_empty());
    assert!(!dba.accepts(&ReducedOmegaWord::periodic("a")));
    let from_two = DBA::builder()
        .with_edges([
            (0, 'a', true, 1),
            (1, 'a', false, 1),
            (2, 'a', true, 2),
            (1, 'b', false, 1),
            (0, 'b', false, 1),
            (2, 'b', false, 0),
        ])
        .into_dba(2);
    assert!(!from_two.is_empty());
    assert!(from_two.accepts(&ReducedOmegaWord::periodic("a")));
}

#[test]
fn buchi_automaton_sees_true_infinitely_often() {
    let dba = DBA::builder()
        .with_edges([
            (0, 'a', true, 1),
            (0, 'b', false, 0),
            (1, 'a', true, 1),
            (1, 'b', false, 0),
        ])
        .into_dba(0);
    assert!(dba.accepts(&ReducedOmegaWord::periodic("abb")));
    assert!(!dba.accepts(&ReducedOmegaWord::periodic("b")));
    assert!(dba.accepts(&ReducedOmegaWord::periodic("a")));
    assert!(!dba.accepts(&ReducedOmegaWord::periodic("b")));
    assert!(!dba.accepts(&ReducedOmegaWord::ultimately_periodic("aaa", "b")));
    assert!(dba.accepts(&ReducedOmegaWord::ultimately_periodic("bbb", "ba")));
    assert!(!dba.accepts(&ReducedOmegaWord::periodic("ac")));
    assert_eq!(dba.transform(&ReducedOmegaWord::periodic("ab")), Some(vec![true, false]));
    assert_eq!(dba.transform(&ReducedOmegaWord::ultimately_periodic("ab", "c")), None);
}

#[test]
fn parity_automaton_takes_the_least_color() {
    let dpa = DPA::builder()
        .with_transitions([
            (0, 'a', 1, 1),
            (0, 'b', 2, 0),
            (1, 'a', 3, 1),
            (1, 'b', 0, 0),
            (0, 'c', 5, 2),
            (2, 'c', 4, 2),
        ])
        .with_alphabet_symbols(['d'])
        .into_dpa(0);
    assert!(dpa.accepts(&ReducedOmegaWord::periodic("b")));
    assert!(!dpa.accepts(&ReducedOmegaWord::periodic("a")));
    assert!(dpa.accepts(&ReducedOmegaWord::periodic("ab")));
    assert!(!dpa.accepts(&ReducedOmegaWord::ultimately_periodic("ab", "a")));
    assert!(dpa.accepts(&ReducedOmegaWord::ultimately_periodic("bbb", "c")));
    assert!(!dpa.accepts(&ReducedOmegaWord::periodic("d")));
    assert_eq!(
        dpa.transform(&ReducedOmegaWord::ultimately_periodic("b", "ab")),
        Some(vec![1, 0])
    );
    let word = ReducedOmegaWord::ultimately_periodic("ab", "c");
    assert_eq!(word.spoke(), &vec!['a', 'b']);
    assert_eq!(word.cycle(), &vec!['c']);
}
