use automata::automaton::reachability::DFA;
use automata::automaton::{Automaton, MealyMachine, MooreMachine, StatesWithColor};
use automata::alphabet::CharAlphabet;
use automata::color::Void;

#[test]
fn mealy_color_or_below() {
    let mm = MooreMachine::builder()
        .with_state_colors([0, 1, 1, 0])
        .with_edges([
            (0, 'a', 1),
            (0, 'b', 2),
            (1, 'a', 2),
            (1, 'b', 2),
            (2, 'a', 3),
            (2, 'b', 3),
            (3, 'a', 3),
            (3, 'b', 3),
        ])
        .into_moore(0);

    let dfas = mm.decompose_dfa();
    let dfa1 = &dfas[1];
    let dfa0 = &dfas[0];

    assert!(dfa1.accepts(""));
    assert!(dfa1.accepts("b"));
    assert!(!dfa0.accepts("b"));
    assert!(dfa0.accepts("ba"));
}

#[test]
fn decompose_has_one_automaton_per_color() {
    let mm = MooreMachine::builder()
        .with_state_colors([2, 0])
        .with_edges([(0, 'a', 1), (1, 'a', 0)])
        .into_moore(0);
    let dfas = mm.decompose_dfa();
    assert_eq!(dfas.len(), 3);
    assert!(!dfas[0].accepts(""));
    assert!(dfas[0].accepts("a"));
    assert!(!dfas[1].accepts(""));
    assert!(dfas[2].accepts(""));
    assert!(!dfas[2].accepts("b"));
    assert_eq!(mm.transform("aa"), Some(2));
    assert_eq!(mm.transform("aaa"), Some(0));
    assert_eq!(mm.transform("ab"), None);
}

#[test]
fn mealy_transform_gives_last_edge_color() {
    let mm = MealyMachine::builder()
        .with_transitions([(0, 'a', 3, 1), (1, 'a', 5, 0), (0, 'b', 7, 0)])
        .into_mealy(0);
    assert_eq!(mm.transform(""), None);
    assert_eq!(mm.transform("a"), Some(3));
    assert_eq!(mm.transform("aa"), Some(5));
    assert_eq!(mm.transform("aab"), Some(7));
    assert_eq!(mm.transform("ab"), None);
    assert_eq!(mm.transform("ba"), Some(3));
}

#[test]
fn trivial_automaton_loops_on_every_symbol() {
    let dfa: DFA = Automaton::new_trivial_with_initial_color(CharAlphabet::of_size(2), true, Void);
    assert_eq!(dfa.size(), 1);
    assert!(dfa.accepts(""));
    assert!(dfa.accepts("abba"));
    assert!(!dfa.accepts("abc"));
    let single: DFA = Automaton::new_with_initial_color(CharAlphabet::of_size(2), false);
    assert_eq!(single.size(), 1);
    assert!(!single.accepts(""));
    assert!(!single.accepts("a"));
}

#[test]
fn parts_come_back() {
    let dfa = DFA::builder()
        .with_state_colors([true, false])
        .with_edges([(0, 'a', 1), (0, 'b', 0), (1, 'a', 1), (1, 'b', 0)])
        .into_dfa(0);
    assert_eq!(dfa.initial(), 0);
    assert_eq!(dfa.ts().size(), 2);
    let moore: MooreMachine<bool> = Automaton::from_pointed(dfa);
    assert_eq!(moore.transform("a"), Some(false));
    assert_eq!(moore.transform("ab"), Some(true));
    let (ts, initial, _) = moore.into_parts();
    assert_eq!(initial, 0);
    assert_eq!(ts.state_color(1), Some(&false));
    assert_eq!(ts.state_color(2), None);
    assert_eq!(ts.edge(0, 'a'), Some((Void, 1)));
    assert_eq!(ts.edge(0, 'c'), None);
    assert_eq!(ts.successor_index(1, 'b'), Some(0));
}

#[test]
fn states_with_color_walks_in_order() {
    let dfa = DFA::builder()
        .with_state_colors([true, false, true])
        .with_edges([(0, 'a', 1), (1, 'a', 2), (2, 'a', 0)])
        .into_dfa(0);
    let mut accepting = StatesWithColor::new(dfa.ts(), true);
    assert_eq!(accepting.next(), Some(0));
    assert_eq!(accepting.next(), Some(2));
    assert_eq!(accepting.clone().next(), Some(0));
    assert_eq!(accepting.next(), None);
    assert_eq!(StatesWithColor::new(dfa.ts(), false).collect(), vec![1]);
}
