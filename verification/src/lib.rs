//! Deterministic omega-automata: the precise parity-automaton construction and
//! bisimulation minimization by partition refinement.
pub mod alphabet;
pub mod automaton;
pub mod color;
pub mod error;
pub mod hoa;
pub mod ts;
pub mod word;
pub mod minimization;
pub mod precise;
pub mod representation;

pub use crate::automaton::omega::{DBA, DPA};
pub use crate::automaton::reachability::DFA;
pub use crate::automaton::{Automaton, MealyMachine, MooreMachine, RightCongruence};
pub use crate::ts::DTS;
