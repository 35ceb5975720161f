use automata::alphabet::CharAlphabet;
use automata::automaton::omega::DPA;
use automata::automaton::reachability::DFA;
use automata::automaton::{Automaton, MealyMachine, RightCongruence};
use automata::color::{Color, Void};
use automata::ts::builder::{IntoEdgeTuple, TSBuilder};
use automata::ts::edges::{EdgesFrom, EdgesTo};
use automata::ts::operations::map::{
    MapEdgeColor, MapEdges, MapEdgesSuccessorsIter, MapStateColor, MappedEdge, MappedEdgesFromIter,
    MappedEdgesToIter, MappedPreEdge, MappedPreTransition, MappedTransition,
    MappedTransitionsToIter,
};
use automata::ts::operations::product::product;
use automata::ts::DTS;

#[test]
fn alphabet_is_kept_in_order() {
    let mut alphabet = CharAlphabet::from_chars(&vec!['c', 'a', 'c', 'b']);
    assert_eq!(alphabet.size(), 3);
    assert_eq!(alphabet.symbol(0), 'a');
    assert_eq!(alphabet.symbol(2), 'c');
    assert_eq!(alphabet.index_of('b'), Some(1));
    assert_eq!(alphabet.index_of('d'), None);
    assert!(alphabet.contains('c'));
    assert!(!alphabet.contains('z'));
    alphabet.insert('b');
    assert_eq!(alphabet.size(), 3);
    alphabet.insert('0');
    assert_eq!(alphabet.index_of('0'), Some(0));
    assert_eq!(alphabet.index_of('c'), Some(3));
    assert!(CharAlphabet::of_size(3).equals(&CharAlphabet::from_chars(&vec!['b', 'c', 'a'])));
    assert!(!CharAlphabet::of_size(3).equals(&CharAlphabet::of_size(2)));
    assert_eq!(CharAlphabet::of_size(26).symbol(25), 'z');
    assert_eq!(CharAlphabet::empty().size(), 0);
    assert!(alphabet.clone().equals(&alphabet));
}

#[test]
fn colors_are_compared_by_value() {
    assert!(3u8.same(&3));
    assert!(!3u8.same(&4));
    assert!(true.same(&true));
    assert!(!true.same(&false));
    assert!(Void.same(&Void));
    assert!(7usize.same(&7));
    assert_eq!((1usize, 'a', 2usize).into_edge_tuple(), (1, 'a', Void, 2));
    assert_eq!((1usize, 'a', 9u8, 2usize).into_edge_tuple(), (1, 'a', 9, 2));
}

#[test]
fn systems_grow_by_states_and_edges() {
    let mut ts: DTS<bool, u8> = DTS::for_alphabet(CharAlphabet::of_size(2));
    assert_eq!(ts.size(), 0);
    assert_eq!(ts.num_symbols(), 2);
    assert_eq!(ts.symbol(1), 'b');
    assert!(ts.alphabet().equals(&CharAlphabet::of_size(2)));
    assert_eq!(ts.add_state(true), 0);
    assert_eq!(ts.add_state(false), 1);
    assert!(ts.contains_state_index(1));
    assert!(!ts.contains_state_index(2));
    assert_eq!(ts.add_edge(0, 'a', 4, 1), None);
    assert_eq!(ts.add_edge(0, 'a', 5, 0), Some((4, 1)));
    assert_eq!(ts.edge(0, 'a'), Some((4, 1)));
    assert_eq!(ts.edge_at(0, 1), None);
    assert_eq!(ts.edge(2, 'a'), None);
    assert!(!ts.is_complete());
    assert_eq!(ts.find_missing_edge(), Some((0, 'b')));
    ts.add_edge(0, 'b', 1, 0);
    ts.add_edge(1, 'a', 2, 1);
    ts.add_edge(1, 'b', 3, 0);
    assert!(ts.is_complete());
    assert_eq!(ts.find_missing_edge(), None);
    assert_eq!(ts.reached_state_index_from(0, "abab"), Some(0));
    assert_eq!(ts.reached_state_index_from(0, "aba"), Some(1));
    assert_eq!(ts.reached_state_index_from(0, ""), Some(0));
    assert_eq!(ts.reached_state_index_from(0, "ac"), None);
    assert_eq!(ts.reached_state_index_from(5, ""), None);
    assert_eq!(ts.find_word(0, &vec![false, true]), Some(vec!['a']));
    assert_eq!(ts.find_word(1, &vec![true, false]), Some(vec!['b']));
    assert_eq!(ts.find_word(0, &vec![false, false]), None);
    let recolored = ts.recolor(vec![1u8, 2u8]);
    assert_eq!(recolored.state_color(1), Some(&2));
    assert_eq!(recolored.edge(1, 'b'), Some((3, 0)));
    let both = ts.disjoint_union(&ts);
    assert_eq!(both.size(), 4);
    assert_eq!(both.edge(2, 'a'), Some((4, 3)));
    assert_eq!(both.edge(0, 'a'), Some((4, 1)));
    assert_eq!(both.state_color(3), Some(&false));
    let erased = ts.erase_edge_colors();
    assert_eq!(erased.edge(1, 'b'), Some((Void, 0)));
    assert_eq!(ts.erase_state_colors().state_color(0), Some(&Void));
    let doubled = ts.map_colors(&|c: &bool| !*c, &|c: u8| 2 * c);
    assert_eq!(doubled.state_color(0), Some(&false));
    assert_eq!(doubled.edge(1, 'b'), Some((6, 0)));
}

#[test]
fn builder_checks_what_it_builds() {
    let good = TSBuilder::<bool, Void>::default()
        .with_state_colors([true, false])
        .with_edges([(0, 'b', 1), (1, 'a', 0)])
        .with_alphabet_symbols(['c']);
    assert!(good.is_buildable());
    let ts = good.into_ts();
    assert_eq!(ts.size(), 2);
    assert_eq!(ts.num_symbols(), 3);
    assert_eq!(ts.edge(0, 'b'), Some((Void, 1)));
    assert_eq!(ts.edge(0, 'a'), None);
    assert_eq!(ts.state_color(1), Some(&false));

    let uncolored = TSBuilder::<bool, Void>::default().with_edges([(0, 'a', 1)]);
    assert!(!uncolored.is_buildable());
    assert!(uncolored.default_color(true).is_buildable());
    let twice = TSBuilder::<Void, Void>::without_colors().with_edges([(0, 'a', 1), (0, 'a', 0)]);
    assert!(!twice.is_buildable());
    let gap = TSBuilder::<Void, Void>::without_colors().with_edges([(0, 'a', 2)]);
    assert!(!gap.is_buildable());
    let colored = TSBuilder::<u8, Void>::without_edge_colors()
        .color(1, 7)
        .default_color(3)
        .with_edges([(0, 'a', 1)]);
    assert!(colored.is_buildable());
    let ts = colored.into_dts();
    assert_eq!(ts.state_color(0), Some(&3));
    assert_eq!(ts.state_color(1), Some(&7));
    let cong: RightCongruence<u8, Void> = TSBuilder::<u8, Void>::without_edge_colors()
        .with_state_colors([1, 2])
        .with_edges([(0, 'a', 1), (1, 'a', 0)])
        .into_right_congruence(1);
    assert_eq!(cong.initial(), 1);
    assert_eq!(cong.size(), 2);
    let moore = TSBuilder::<u8, Void>::without_edge_colors()
        .with_state_colors([1, 2])
        .with_edges([(0, 'a', 1), (1, 'a', 0)])
        .into_moore(0);
    assert_eq!(moore.transform("a"), Some(2));
}

#[test]
fn automata_are_taken_apart_and_put_together() {
    let ts = TSBuilder::<Void, u8>::without_state_colors()
        .with_transitions([(0, 'a', 1, 1), (1, 'a', 2, 0)])
        .into_dts();
    let mut mealy: MealyMachine = Automaton::from_parts(ts, 1);
    assert_eq!(mealy.initial(), 1);
    assert_eq!(mealy.transform("a"), Some(2));
    mealy.ts_mut().add_state(Void);
    assert_eq!(mealy.size(), 3);
    assert_eq!(mealy.add_state(Void), 3);
    assert_eq!(mealy.add_edge(3, 'a', 9, 0), None);
    assert_eq!(mealy.add_edge(3, 'a', 8, 1), Some((9, 0)));
    assert_eq!(mealy.size(), 4);
    let dpa: DPA = mealy.collect_dpa();
    assert_eq!(dpa.initial(), 1);
    assert_eq!(dpa.ts().edge(0, 'a'), Some((1, 1)));
    let again: MealyMachine = Automaton::from_pointed_with_acceptance(dpa, *mealy.acceptance());
    assert_eq!(again.transform("aa"), Some(1));
    let kept = again.collect_mealy();
    assert_eq!(kept.transform("aa"), Some(1));
    assert_eq!(again.into_moore().size(), 4);
}

#[test]
fn unreachable_states_are_trimmed() {
    let dfa: DFA = TSBuilder::without_edge_colors()
        .with_state_colors([false, true, true, false])
        .with_edges([(0, 'a', 2), (2, 'a', 0), (1, 'a', 3), (3, 'a', 3)])
        .into_dfa(2);
    assert_eq!(dfa.reachable_state_indices(), vec![2, 0]);
    let (trimmed, initial) = dfa.trim_collect_pointed();
    assert_eq!(initial, 0);
    assert_eq!(trimmed.size(), 2);
    assert_eq!(trimmed.state_color(0), Some(&true));
    assert_eq!(trimmed.state_color(1), Some(&false));
    assert_eq!(trimmed.edge(0, 'a'), Some((Void, 1)));
    assert_eq!(trimmed.edge(1, 'a'), Some((Void, 0)));
    let (states, _) = dfa.trim_with_states();
    assert_eq!(states, vec![2, 0]);
}

#[test]
fn product_holds_the_pairs_that_are_reached() {
    let left = TSBuilder::<bool, u8>::default()
        .with_state_colors([true, false])
        .with_edges([(0, 'a', 1, 1), (1, 'a', 2, 0), (0, 'b', 3, 0)])
        .into_dts();
    let right = TSBuilder::<u8, Void>::without_edge_colors()
        .with_state_colors([5, 6, 7])
        .with_edges([(0, 'a', 1), (1, 'a', 2), (2, 'a', 0)])
        .with_alphabet_symbols(['b'])
        .into_dts();
    let (pairs, both) = product(&left, 0, &right, 0);
    assert_eq!(pairs, vec![(0, 0), (1, 1), (0, 2), (1, 0), (0, 1), (1, 2)]);
    assert_eq!(both.size(), 6);
    assert_eq!(both.state_color(2), Some(&(true, 7)));
    assert_eq!(both.edge(0, 'a'), Some(((1, Void), 1)));
    assert_eq!(both.edge(1, 'a'), Some(((2, Void), 2)));
    assert_eq!(both.edge(0, 'b'), None);
}

#[test]
fn mapped_systems_compute_their_colors() {
    let ts = TSBuilder::<u8, u8>::default()
        .with_state_colors([10, 20])
        .with_edges([(0, 'a', 1, 1), (1, 'a', 2, 0)])
        .into_dts();
    let by_color = MapEdgeColor::new(ts.clone(), |c: u8| c + 100);
    assert_eq!(by_color.ts().size(), 2);
    assert_eq!((by_color.f())(1), 101);
    assert_eq!(by_color.state_color(1), Some(&20));
    let edge = by_color.edge(0, 'a').unwrap();
    assert_eq!(edge.source(), 0);
    assert_eq!(edge.target(), 1);
    assert_eq!(edge.expression(), 'a');
    assert_eq!(edge.color(), 101);
    assert!(by_color.edge(0, 'b').is_none());
    let (inner, f) = by_color.into_parts();
    assert_eq!(f(2), 102);
    assert_eq!(inner.size(), 2);

    let by_edge = MapEdges::new(ts.clone(), |q: usize, _: char, c: u8, p: usize| {
        (q, c, p)
    });
    assert_eq!(by_edge.ts().size(), 2);
    assert_eq!((by_edge.f())(1, 'a', 2, 3), (1, 2, 3));
    let edge = by_edge.edge(1, 'a').unwrap();
    assert_eq!(edge.source(), 1);
    assert_eq!(edge.target(), 0);
    assert_eq!(edge.expression(), 'a');
    assert_eq!(edge.color(), (1, 2, 0));
    let (inner, _) = by_edge.into_parts();
    assert_eq!(inner.size(), 2);

    let by_state = MapStateColor::new(ts, |c: &u8| *c > 15);
    assert_eq!(by_state.state_color(0), Some(false));
    assert_eq!(by_state.state_color(1), Some(true));
    assert_eq!(by_state.state_color(2), None);
    assert_eq!(by_state.edge(0, 'a'), Some((1, 1)));
    assert_eq!(by_state.ts().size(), 2);
    assert!((by_state.f())(&16));
    let (inner, _) = by_state.into_parts();
    assert_eq!(inner.size(), 2);

    let mapped = MappedTransition::new((0usize, 'a', 4u8, 1usize), |c: u8| c * 2);
    assert_eq!(mapped.color(), 8);
    let pre = MappedPreTransition::new((0usize, 'a', 4u8, 1usize), |c: u8| c + 1);
    assert_eq!((pre.source(), pre.target(), pre.color()), (0, 1, 5));
    let edge = MappedEdge::new((9usize, 'a', 4u8, 1usize), 0usize, |q: usize, _: char, c: u8, p: usize| {
        q + c as usize + p
    });
    assert_eq!((edge.source(), edge.target(), edge.color()), (0, 1, 5));
    let pre_edge = MappedPreEdge::new((2usize, 'a', 4u8, 9usize), 1usize, |q: usize, _: char, c: u8, p: usize| {
        q + c as usize + p
    });
    assert_eq!((pre_edge.source(), pre_edge.target(), pre_edge.color()), (2, 1, 7));
}

fn three_states() -> DTS<u8, u8> {
    TSBuilder::<u8, u8>::default()
        .with_state_colors([10, 20, 30])
        .with_edges([(0, 'a', 1, 1), (0, 'c', 2, 2), (1, 'a', 3, 2), (2, 'b', 4, 2), (2, 'c', 5, 0)])
        .into_dts()
}

#[test]
fn edges_are_walked_from_and_to_a_state() {
    let ts = three_states();
    let mut from = ts.edges_from(0).unwrap();
    assert_eq!(from.next(), Some((0, 'a', 1, 1)));
    assert_eq!(from.next(), Some((0, 'c', 2, 2)));
    assert_eq!(from.next(), None);
    assert_eq!(from.next(), None);
    assert!(ts.edges_from(3).is_none());
    let mut to = ts.predecessors(2).unwrap();
    assert_eq!(to.next(), Some((0, 'c', 2, 2)));
    assert_eq!(to.next(), Some((1, 'a', 3, 2)));
    assert_eq!(to.next(), Some((2, 'b', 4, 2)));
    assert_eq!(to.next(), None);
    assert_eq!(to.next(), None);
    assert!(ts.predecessors(3).is_none());
    let mut none = EdgesTo::new(&ts, 7);
    assert_eq!(none.next(), None);
    let mut one = EdgesFrom::new(&ts, 1);
    assert_eq!(one.next(), Some((1, 'a', 3, 2)));
}

#[test]
fn mapped_walks_compute_their_colors() {
    let ts = three_states();
    let double = |c: u8| 2 * c;
    let mut walk = MappedEdgesFromIter::new(EdgesFrom::new(&ts, 2), &double);
    let first = walk.next().unwrap();
    assert_eq!((first.source(), first.expression(), first.color(), first.target()), (2, 'b', 8, 2));
    let second = walk.next().unwrap();
    assert_eq!((second.expression(), second.color(), second.target()), ('c', 10, 0));
    assert!(walk.next().is_none());
    let mut back = MappedTransitionsToIter::new(EdgesTo::new(&ts, 0), &double);
    let only = back.next().unwrap();
    assert_eq!((only.source(), only.color(), only.target()), (2, 10, 0));
    assert!(back.next().is_none());

    let sum = |q: usize, _: char, c: u8, p: usize| q + c as usize + p;
    let mut walk = MapEdgesSuccessorsIter::new(EdgesFrom::new(&ts, 0), 0, &sum);
    assert_eq!(walk.next().unwrap().color(), 2);
    assert_eq!(walk.next().unwrap().color(), 4);
    assert!(walk.next().is_none());
    let mut back = MappedEdgesToIter::new(EdgesTo::new(&ts, 1), 1, &sum);
    let only = back.next().unwrap();
    assert_eq!((only.source(), only.target(), only.color()), (0, 1, 2));
    assert!(back.next().is_none());

    let by_color = MapEdgeColor::new(three_states(), |c: u8| c + 1);
    let mut walk = by_color.edges_from(1).unwrap();
    assert_eq!(walk.next().unwrap().color(), 4);
    assert!(walk.next().is_none());
    assert!(by_color.edges_from(5).is_none());
    let by_edge = MapEdges::new(three_states(), |q: usize, _: char, c: u8, p: usize| {
        q + c as usize + p
    });
    let mut walk = by_edge.edges_from(2).unwrap();
    assert_eq!(walk.next().unwrap().color(), 8);
    assert_eq!(walk.next().unwrap().color(), 7);
    assert!(walk.next().is_none());
    let mut back = by_edge.predecessors(2).unwrap();
    assert_eq!(back.next().unwrap().color(), 4);
    assert_eq!(back.next().unwrap().color(), 6);
    assert_eq!(back.next().unwrap().color(), 8);
    assert!(back.next().is_none());
    assert!(by_edge.predecessors(9).is_none());
}

#[test]
fn systems_are_collected_into_machines() {
    let ts = three_states();
    let copy = ts.collect_dts();
    assert_eq!(copy.size(), 3);
    assert_eq!(copy.edge(2, 'c'), Some((5, 0)));
    let kept = ts.collect_dts_preserving();
    assert_eq!(kept.state_color(2), Some(&(2, 30)));
    assert_eq!(kept.edge(0, 'a'), Some((1, 1)));
    let dpa = three_states().into_dpa_with_initial(1);
    assert_eq!(dpa.initial(), 1);
    assert_eq!(dpa.ts().edge(1, 'a'), Some((3, 2)));
    let (collected, initial) = dpa.collect_dts_and_initial();
    assert_eq!(initial, 1);
    assert_eq!(collected.size(), 3);
    let cong = dpa.collect_right_congruence();
    assert_eq!(cong.initial(), 1);
    let moore = dpa.collect_moore();
    assert_eq!(moore.transform("a"), Some(Void));
    let cong = dpa.into_right_congruence();
    assert_eq!(cong.size(), 3);

    let flags = TSBuilder::<bool, bool>::default()
        .with_state_colors([true, false])
        .with_edges([(0, 'a', true, 1), (1, 'a', false, 0)])
        .into_dts();
    let dfa = flags.clone().into_dfa_with_initial(1);
    assert!(dfa.accepts("a"));
    assert!(!dfa.accepts(""));
    let dba = flags.into_dba_with_initial(0);
    assert_eq!(dba.ts().edge(0, 'a'), Some((true, 1)));
    assert_eq!(dba.collect_dba().initial(), 0);
    assert!(!dba.is_empty());
}
