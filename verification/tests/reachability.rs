use automata::automaton::reachability::DFA;
use automata::ts::builder::TSBuilder;

#[test]
fn dfas_and_boolean_operations() {
    let dfa = DFA::builder()
        .with_state_colors([true, false])
        .with_edges([(0, 'a', 1), (0, 'b', 0), (1, 'a', 1), (1, 'b', 0)])
        .into_dfa(0);

    assert!(!dfa.is_empty_language());
    assert_eq!(dfa.give_word(), Some(vec![]));

    let _dfb = dfa.clone();

    assert!(dfa.accepts("ababab"));
    assert!(!dfa.accepts("a"));

    let notdfa = dfa.as_ref().negation().collect_dfa();
    assert!(!notdfa.accepts("ababab"));
    assert!(notdfa.accepts("a"));

    let intersection = dfa.as_ref().intersection(&notdfa).collect_dfa();
    assert!(!intersection.accepts("ababab"));
    assert!(!intersection.accepts("a"));

    let union = dfa.as_ref().union(&notdfa).collect_dfa();
    assert!(union.accepts("ababab"));
    assert!(union.accepts("a"));
}

#[test]
fn dfa_from_ts() {
    let ts = TSBuilder::without_colors()
        .with_edges([(0, 'a', 0), (0, 'b', 1), (1, 'a', 0), (1, 'b', 1)])
        .into_dts_with_initial(0);

    assert!(DFA::from_ts(&ts, [0]).accepts(""));
    assert!(!DFA::from_ts(&ts, [1]).accepts("a"));
    assert!(!DFA::from_ts(&ts, []).accepts("a"));
}

#[test]
fn words_are_found_and_states_separated() {
    let dfa = DFA::builder()
        .with_state_colors([false, false, false, true])
        .with_edges([
            (0, 'a', 1),
            (0, 'b', 0),
            (1, 'a', 2),
            (1, 'b', 0),
            (2, 'a', 2),
            (2, 'b', 3),
            (3, 'a', 3),
            (3, 'b', 3),
        ])
        .into_dfa(0);
    assert_eq!(dfa.give_word(), Some(vec!['a', 'a', 'b']));
    assert!(!dfa.is_empty_language());
    assert_eq!(dfa.separate(2, 3), Some(vec![]));
    assert_eq!(dfa.separate(1, 2), Some(vec!['b']));
    assert_eq!(dfa.separate(0, 1), Some(vec!['a', 'b']));
    assert_eq!(dfa.separate(1, 1), None);
    assert_eq!(dfa.accepting_states().collect(), vec![3]);
    assert_eq!(dfa.rejecting_states().collect(), vec![0, 1, 2]);
    assert!(dfa.equivalent(&dfa));
    assert!(dfa.negation().is_accepting(0));
    assert!(!dfa.equivalent(&dfa.negation()));

    let nothing = DFA::builder()
        .with_state_colors([false, false])
        .with_edges([(0, 'a', 1), (1, 'a', 0), (0, 'b', 0), (1, 'b', 1)])
        .into_dfa(0);
    assert_eq!(nothing.give_word(), None);
    assert!(nothing.is_empty_language());
    assert_eq!(nothing.separate(0, 1), None);
    assert!(dfa.equivalent(&nothing));
    assert!(!nothing.equivalent(&dfa));
    let partial = DFA::builder()
        .with_state_colors([false, false])
        .with_edges([(0, 'a', 1), (1, 'a', 0)])
        .with_alphabet_symbols(['b'])
        .into_dfa(0);
    assert!(partial.equivalent(&dfa));
    assert!(!partial.accepts("b"));
    assert!(!partial.negation().accepts("b"));
    assert!(partial.negation().accepts("a"));
}
