//! The errors of construction and minimization.
use vstd::prelude::*;

verus! {

/// Why a construction could not be carried out. Every error is found before
/// any result is handed out, and names the place that caused it.
#[derive(Clone, Copy, Debug, PartialEq, Eq, Structural)]
pub enum ConstructionError {
    /// The number of progress automata per class is zero or exceeds the bound.
    InvalidPriorityCount { count: usize },
    /// The leading congruence or a progress automaton lacks an edge, does not
    /// share the alphabet, or the last progress automaton of a class does not
    /// accept everywhere. A missing `level` names the leading congruence.
    IncompleteCollaborator { class: usize, level: Option<usize> },
    /// A class has more progress automata than the width allows, or the number
    /// of families differs from the number of classes.
    FamilyWidthMismatch { class: usize, width: usize },
    /// Two states of one block disagree on the edge they take on a symbol.
    QuotientColorConflict { block: usize, state: usize, symbol: char },
}

} // verus!
