//! Colors that label the states and edges of a transition system.
use vstd::prelude::*;

verus! {

/// The color of priorities and outputs.
pub type Int = u8;

/// The color of an uncolored state or edge: it carries no information.
#[derive(Clone, Copy, Debug, PartialEq, Eq, Structural, Hash, PartialOrd, Ord, Default)]
pub struct Void;

/// A value that can label states or edges. Two colors can be compared, and the
/// comparison agrees with equality in specifications.
pub trait Color: Copy {
    /// Returns whether the two colors are the same.
    fn same(&self, other: &Self) -> (b: bool)
        ensures
            b == (*self == *other),
    ;
}

impl Color for Void {
    fn same(&self, other: &Self) -> (b: bool) {
        true
    }
}

impl Color for bool {
    fn same(&self, other: &Self) -> (b: bool) {
        *self == *other
    }
}

impl Color for u8 {
    fn same(&self, other: &Self) -> (b: bool) {
        *self == *other
    }
}

impl Color for usize {
    fn same(&self, other: &Self) -> (b: bool) {
        *self == *other
    }
}

} // verus!
