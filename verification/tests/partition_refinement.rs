use automata::automaton::reachability::DFA;
use automata::automaton::{Automaton, MealyMachine, MooreMachine};
use automata::color::Void;
use automata::error::ConstructionError;
use automata::minimization::partition_refinement::{
    mealy_greatest_bisimulation, mealy_greatest_bisimulation_in, mealy_partition_refinement,
    moore_greatest_bisimulation, moore_greatest_bisimulation_in, moore_partition_refinement,
    WorklistOrder,
};
use automata::minimization::partition::Partition;
use automata::minimization::partition_refinement::refine;
use automata::minimization::quotient::quotient;
use automata::ts::builder::TSBuilder;
use automata::ts::DTS;

fn wiki_dfa() -> DFA {
    TSBuilder::without_edge_colors()
        .with_state_colors([false, false, true, true, true, false])
        .with_edges([
            (0, 'a', 1),
            (0, 'b', 2),
            (1, 'a', 0),
            (1, 'b', 3),
            (2, 'a', 4),
            (2, 'b', 5),
            (3, 'a', 4),
            (3, 'b', 5),
            (4, 'a', 4),
            (4, 'b', 5),
            (5, 'a', 5),
            (5, 'b', 5),
        ])
        .into_dfa(0)
}

fn blocks(partition: &Partition) -> Vec<Vec<usize>> {
    let mut all: Vec<Vec<usize>> = (0..partition.size())
        .map(|b| partition.block(b).clone())
        .collect();
    all.sort();
    all
}

#[test]
fn partition_refinement_moore() {
    let dfa = wiki_dfa();

    let p = moore_partition_refinement(&dfa);
    assert_eq!(p.size(), 3);
    assert!(p.bisimilar(dfa));
}

#[test]
fn partition_refinement_mealy() {
    let mm = DTS::builder()
        .with_transitions([
            (0, 'a', 0, 1),
            (0, 'b', 1, 0),
            (1, 'a', 0, 0),
            (1, 'b', 1, 0),
        ])
        .into_dpa(0);
    let minimized = mm.into_mealy().minimize();
    assert_eq!(minimized.size(), 1)
}

#[test]
fn moore_blocks_of_the_example() {
    let dfa = wiki_dfa();
    let partition = moore_greatest_bisimulation(dfa.ts());
    assert_eq!(blocks(&partition), vec![vec![0, 1], vec![2, 3, 4], vec![5]]);
    assert_eq!(partition.len(), 6);
    assert_eq!(partition.class_of(0), partition.class_of(1));
    assert_eq!(partition.class_of(6), None);
    assert!(partition.in_same_class(2, 4));
    assert!(!partition.in_same_class(4, 5));
    assert!(!partition.in_same_class(4, 6));
}

#[test]
fn worklist_order_does_not_change_the_blocks() {
    let dfa = wiki_dfa();
    let newest = moore_greatest_bisimulation_in(dfa.ts(), WorklistOrder::NewestFirst);
    let oldest = moore_greatest_bisimulation_in(dfa.ts(), WorklistOrder::OldestFirst);
    assert_eq!(blocks(&newest), blocks(&oldest));

    let mm = mealy_example();
    let newest = mealy_greatest_bisimulation_in(mm.ts(), WorklistOrder::NewestFirst);
    let oldest = mealy_greatest_bisimulation_in(mm.ts(), WorklistOrder::OldestFirst);
    assert_eq!(blocks(&newest), blocks(&oldest));
    assert_eq!(blocks(&newest), vec![vec![0, 2], vec![1], vec![3]]);
}

fn mealy_example() -> MealyMachine {
    MealyMachine::builder()
        .with_transitions([
            (0, 'a', 0, 1),
            (0, 'b', 1, 3),
            (1, 'a', 1, 2),
            (1, 'b', 1, 3),
            (2, 'a', 0, 1),
            (2, 'b', 1, 3),
            (3, 'a', 0, 3),
            (3, 'b', 1, 3),
        ])
        .into_mealy(0)
}

#[test]
fn mealy_minimization_keeps_the_outputs() {
    let mm = mealy_example();
    let minimized = mealy_partition_refinement(&mm);
    assert_eq!(minimized.size(), 3);
    for word in ["a", "b", "aa", "ab", "aaa", "aab", "ba", "baa", "aaaa", "abab"] {
        assert_eq!(minimized.transform(word), mm.transform(word));
    }
    assert_eq!(mm.transform("aa"), Some(1));
    assert_eq!(mm.transform("aaa"), Some(0));
}

#[test]
fn minimizing_twice_changes_nothing() {
    let mm = mealy_example();
    let once = mealy_partition_refinement(&mm);
    let partition = mealy_greatest_bisimulation(once.ts());
    assert_eq!(partition.size(), once.size());
    for b in 0..partition.size() {
        assert_eq!(partition.block(b).len(), 1);
    }
    let size = once.size();
    let twice = mealy_partition_refinement(&once.into_mealy());
    assert_eq!(twice.size(), size);

    let dfa = wiki_dfa();
    let once = moore_partition_refinement(&dfa);
    let partition = moore_greatest_bisimulation(once.ts());
    assert_eq!(blocks(&partition), vec![vec![0], vec![1], vec![2]]);
}

#[test]
fn moore_minimization_keeps_the_outputs() {
    let dfa = wiki_dfa();
    let minimized = moore_partition_refinement(&dfa);
    for word in ["", "a", "b", "ab", "ba", "bb", "aab", "abb", "bab", "abab"] {
        assert_eq!(minimized.transform(word), dfa.transform(word));
    }
    assert_eq!(dfa.transform("b"), Some(true));
    assert_eq!(dfa.transform("bb"), Some(false));
    let other: MooreMachine<bool> = Automaton::from_pointed(wiki_dfa());
    assert!(other.bisimilar(wiki_dfa()));
    let different = TSBuilder::without_edge_colors()
        .with_state_colors([false, true])
        .with_edges([(0, 'a', 1), (0, 'b', 0), (1, 'a', 1), (1, 'b', 1)])
        .into_dfa(0);
    assert!(!other.bisimilar(different));
}

#[test]
fn partial_machines_are_refined_by_missing_edges() {
    let mm = MealyMachine::builder()
        .with_transitions([(0, 'a', 0, 1), (1, 'a', 0, 2), (2, 'b', 0, 2)])
        .into_mealy(0);
    let partition = mealy_greatest_bisimulation(mm.ts());
    assert_eq!(blocks(&partition), vec![vec![0], vec![1], vec![2]]);
    let empty: DTS<Void, u8> = DTS::builder().default_color(Void).into_dts();
    assert_eq!(mealy_greatest_bisimulation(&empty).size(), 0);
}

#[test]
fn quotient_reports_a_conflict() {
    let mm = mealy_example();
    let coarse = Partition::from_classes(vec![0, 0, 0, 1], 2);
    assert_eq!(
        quotient(mm.ts(), &coarse, true).err(),
        Some(ConstructionError::QuotientColorConflict { block: 0, state: 1, symbol: 'a' })
    );
    let fine = mealy_greatest_bisimulation(mm.ts());
    let qt = quotient(mm.ts(), &fine, true).unwrap();
    assert_eq!(qt.size(), 3);
    let without_colors = quotient(mm.ts(), &coarse, false).unwrap();
    assert_eq!(without_colors.size(), 2);
    assert_eq!(without_colors.successor_index(0, 'b'), Some(1));
    assert_eq!(without_colors.successor_index(0, 'a'), Some(0));
    let split = Partition::from_classes(vec![0, 1, 0, 0], 2);
    assert_eq!(
        quotient(mm.ts(), &split, false).err(),
        Some(ConstructionError::QuotientColorConflict { block: 0, state: 3, symbol: 'a' })
    );
}

#[test]
fn refinement_starts_from_a_first_classification() {
    let mm = mealy_example();
    let (classes, count) = refine(mm.ts(), true, vec![0, 0, 0, 0], 1, WorklistOrder::NewestFirst);
    assert_eq!(count, 3);
    assert_eq!(classes[0], classes[2]);
    assert_ne!(classes[0], classes[1]);
    assert_ne!(classes[1], classes[3]);
    let (classes, count) = refine(mm.ts(), false, vec![0, 0, 0, 0], 1, WorklistOrder::OldestFirst);
    assert_eq!(count, 1);
    assert_eq!(classes, vec![0, 0, 0, 0]);
    let (classes, count) = refine(mm.ts(), false, vec![0, 1, 0, 0], 2, WorklistOrder::OldestFirst);
    assert_eq!(count, 3);
    assert_eq!(classes[0], classes[2]);
    assert_ne!(classes[0], classes[3]);
}
