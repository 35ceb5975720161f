use automata::automaton::reachability::DFA;
use automata::automaton::RightCongruence;
use automata::color::Void;
use automata::error::ConstructionError;
use automata::precise::construct::{build_precise_dpa_for, padding_universal_dfa, FWPM};
use automata::precise::{PState, PreciseDPA};
use automata::alphabet::CharAlphabet;
use automata::ts::DTS;

fn leading() -> RightCongruence {
    DTS::<Void, Void>::builder()
        .with_transitions([
            (0, 'a', Void, 1),
            (0, 'b', Void, 0),
            (0, 'c', Void, 0),
            (1, 'a', Void, 0),
            (1, 'b', Void, 1),
            (1, 'c', Void, 1),
        ])
        .default_color(Void)
        .into_right_congruence_bare(0)
}

fn de0() -> DFA {
    DTS::<bool, Void>::builder()
        .with_transitions([
            (0, 'a', Void, 0),
            (0, 'b', Void, 1),
            (0, 'c', Void, 0),
            (1, 'a', Void, 1),
            (1, 'b', Void, 1),
            (1, 'c', Void, 1),
        ])
        .with_state_colors([false, true])
        .into_dfa(0)
}

fn da0() -> DFA {
    DTS::<bool, Void>::builder()
        .with_transitions([
            (0, 'a', Void, 0),
            (0, 'b', Void, 0),
            (0, 'c', Void, 1),
            (1, 'a', Void, 1),
            (1, 'b', Void, 1),
            (1, 'c', Void, 1),
        ])
        .with_state_colors([false, true])
        .into_dfa(0)
}

fn de1() -> DFA {
    DTS::<bool, Void>::builder()
        .with_transitions([
            (0, 'a', Void, 0),
            (0, 'b', Void, 2),
            (0, 'c', Void, 1),
            (1, 'a', Void, 0),
            (1, 'b', Void, 2),
            (1, 'c', Void, 2),
            (2, 'a', Void, 2),
            (2, 'b', Void, 2),
            (2, 'c', Void, 2),
        ])
        .with_state_colors([false, false, true])
        .into_dfa(0)
}

fn full() -> DFA {
    DTS::<bool, Void>::builder()
        .with_transitions([
            (0, 'a', Void, 1),
            (0, 'b', Void, 1),
            (0, 'c', Void, 1),
            (1, 'a', Void, 1),
            (1, 'b', Void, 1),
            (1, 'c', Void, 1),
        ])
        .with_state_colors([false, true])
        .into_dfa(0)
}

fn universal() -> DFA {
    padding_universal_dfa(&CharAlphabet::of_size(3))
}

#[test]
fn precise_dpa() {
    let cong = leading();
    let dfas_e = vec![de0(), de1(), full()];
    let dfas_a = vec![da0(), full(), full()];

    // The last automaton of a family has to accept in every state, and `full`
    // rejects in its initial state.
    assert!(PreciseDPA::new(cong, vec![dfas_e, dfas_a]).is_err());

    let cong = leading();
    let dfas_e = vec![de0(), de1(), universal()];
    let dfas_a = vec![da0(), full(), universal()];
    let dpa = PreciseDPA::new(cong, vec![dfas_e, dfas_a]).unwrap();
    assert_eq!(dpa.reachable_state_indices().len(), 8);
}

#[test]
fn last_automaton_must_accept_everywhere() {
    let dfas_e = vec![de0(), de1(), full()];
    let dfas_a = vec![da0(), full(), full()];
    assert_eq!(
        PreciseDPA::new(leading(), vec![dfas_e, dfas_a]).err(),
        Some(ConstructionError::IncompleteCollaborator { class: 0, level: Some(2) })
    );
}

#[test]
fn transitions_reset_from_the_color_on() {
    let dpa = PreciseDPA::new(
        leading(),
        vec![vec![de0(), de1(), universal()], vec![da0(), universal(), universal()]],
    )
    .unwrap();
    let start = dpa.initial();
    assert_eq!(start, PState::new(0, &[0, 0, 0], &[0, 0, 0]));
    assert_eq!(dpa.width(), 3);
    let (color, next) = dpa.take_precise_transition(&start, 'a');
    assert_eq!(color, 2);
    assert_eq!(next, PState::new(1, &[0, 0, 1], &[0, 0, 0]));
    let (color, next) = dpa.take_precise_transition(&next, 'c');
    assert_eq!(color, 2);
    assert_eq!(next, PState::new(1, &[0, 0, 1], &[0, 1, 0]));
    let (color, next) = dpa.take_precise_transition(&next, 'c');
    assert_eq!(color, 1);
    assert_eq!(next, PState::new(1, &[0, 1, 1], &[0, 0, 0]));
    let (color, next) = dpa.take_precise_transition(&next, 'b');
    assert_eq!(color, 0);
    assert_eq!(next, PState::new(1, &[1, 1, 1], &[0, 0, 0]));
    assert_eq!(next.class(), 1);
    assert_eq!(next.progress_classes(), vec![1, 1, 1]);
    assert_eq!(next.progress_states(), vec![0, 0, 0]);
    assert_eq!(PState::from_iters(1, vec![1, 1, 1], vec![0, 0, 0]), next);
}

#[test]
fn collected_machine_outputs_the_priorities() {
    let dpa = PreciseDPA::new(
        leading(),
        vec![vec![de0(), de1(), universal()], vec![da0(), universal(), universal()]],
    )
    .unwrap();
    let mealy = dpa.collect_mealy();
    assert_eq!(mealy.size(), 8);
    assert_eq!(mealy.initial(), 0);
    assert_eq!(mealy.transform("a"), Some(2));
    assert_eq!(mealy.transform("ac"), Some(2));
    assert_eq!(mealy.transform("acc"), Some(1));
    assert_eq!(mealy.transform("accb"), Some(0));
    assert_eq!(mealy.transform("d"), None);
}

#[test]
fn built_automaton_is_minimal_and_keeps_the_colors() {
    let fwpm = FWPM::new(leading(), vec![vec![de0(), de1()], vec![da0()]], 3);
    assert_eq!(fwpm.complexity(), 3);
    let dpa = build_precise_dpa_for(fwpm).unwrap();
    let explored = PreciseDPA::new(
        leading(),
        vec![vec![de0(), de1(), universal()], vec![da0(), universal(), universal()]],
    )
    .unwrap()
    .collect_mealy();
    assert!(dpa.size() <= explored.size());
    let mealy = dpa.collect_mealy();
    for word in ["a", "ac", "acc", "accb", "b", "bb", "abab", "cabac", "ccccc", "bacab"] {
        assert_eq!(mealy.transform(word), explored.transform(word));
    }
    let again = mealy.minimize();
    assert_eq!(again.size(), dpa.size());
}

#[test]
fn construction_errors() {
    let none = FWPM::new(leading(), vec![vec![de0(), de1()], vec![da0()]], 0);
    assert_eq!(
        build_precise_dpa_for(none).err(),
        Some(ConstructionError::InvalidPriorityCount { count: 0 })
    );
    let many = FWPM::new(leading(), vec![vec![de0(), de1()], vec![da0()]], 9);
    assert_eq!(
        build_precise_dpa_for(many).err(),
        Some(ConstructionError::InvalidPriorityCount { count: 9 })
    );
    let wide = FWPM::new(leading(), vec![vec![de0(), de1()], vec![da0()]], 1);
    assert_eq!(
        build_precise_dpa_for(wide).err(),
        Some(ConstructionError::FamilyWidthMismatch { class: 0, width: 2 })
    );
    let short = FWPM::new(leading(), vec![vec![de0(), de1()]], 3);
    assert_eq!(
        build_precise_dpa_for(short).err(),
        Some(ConstructionError::FamilyWidthMismatch { class: 1, width: 3 })
    );
    let not_accepting = FWPM::new(leading(), vec![vec![de0(), de1()], vec![da0()]], 2);
    assert_eq!(
        build_precise_dpa_for(not_accepting).err(),
        Some(ConstructionError::IncompleteCollaborator { class: 0, level: Some(1) })
    );
    let partial = DTS::<bool, Void>::builder()
        .with_transitions([(0, 'a', Void, 0), (0, 'b', Void, 0)])
        .with_alphabet_symbols(['c'])
        .with_state_colors([true])
        .into_dfa(0);
    let incomplete = FWPM::new(leading(), vec![vec![de0(), partial], vec![da0()]], 3);
    assert_eq!(
        build_precise_dpa_for(incomplete).err(),
        Some(ConstructionError::IncompleteCollaborator { class: 0, level: Some(1) })
    );
    assert_eq!(
        PreciseDPA::new(leading(), vec![]).err(),
        Some(ConstructionError::InvalidPriorityCount { count: 0 })
    );
    assert_eq!(
        PreciseDPA::new(leading(), vec![vec![universal()]]).err(),
        Some(ConstructionError::FamilyWidthMismatch { class: 1, width: 1 })
    );
    assert_eq!(
        PreciseDPA::new(leading(), vec![vec![universal()], vec![universal(), universal()]]).err(),
        Some(ConstructionError::FamilyWidthMismatch { class: 1, width: 2 })
    );
}

#[test]
fn edges_are_walked_in_the_order_of_the_alphabet() {
    let dpa = PreciseDPA::new(
        leading(),
        vec![vec![de0(), de1(), universal()], vec![da0(), universal(), universal()]],
    )
    .unwrap();
    assert_eq!(dpa.cong().size(), 2);
    let start = dpa.initial();
    assert_eq!(dpa.state_color(&start), Some(Void));
    let mut edges = dpa.edges_from(start.clone());
    let first = edges.next().unwrap();
    assert_eq!(first.expression(), 'a');
    assert_eq!(first.color(), 2);
    assert_eq!(first.source(), start);
    assert_eq!(first.target(), PState::new(1, &[0, 0, 1], &[0, 0, 0]));
    let second = edges.next().unwrap();
    assert_eq!(second.expression(), 'b');
    assert_eq!(second.color(), 0);
    assert_eq!(second.target(), start);
    let third = edges.next().unwrap();
    assert_eq!(third.expression(), 'c');
    assert_eq!(third.color(), 2);
    assert!(edges.next().is_none());
    assert!(dpa.edge(&start, 'd').is_none());
    assert_eq!(dpa.edge(&start, 'c').unwrap().target(), PState::new(0, &[0, 0, 0], &[0, 1, 0]));
    assert_eq!(dpa.dfas(&start).len(), 3);
    let level = dpa.dfas_level(1);
    assert_eq!(level.len(), 2);
    assert_eq!(level[1].0, 1);
    assert_eq!(level[0].1.size(), 3);
    assert_eq!(level[1].1.size(), 1);
    assert_eq!(dpa.dfa(1, 0).size(), 2);
    assert_eq!(start.width(), 3);
    assert!(start.equals(&dpa.initial()));
    assert!(!start.equals(&first.target()));
}

#[test]
fn precise_automaton_of_a_family() {
    let fwpm = FWPM::new(leading(), vec![vec![de0(), de1()], vec![da0()]], 3);
    assert_eq!(fwpm.leading().size(), 2);
    let dpa = PreciseDPA::from_fwpm(fwpm).unwrap();
    assert_eq!(dpa.width(), 3);
    assert_eq!(dpa.reachable_state_indices().len(), 8);
    let mut states = dpa.state_indices();
    assert_eq!(states.next(), Some(dpa.initial()));
    let mut count = 1;
    while states.next().is_some() {
        count += 1;
    }
    assert_eq!(count, 8);
}
