//! Operations that derive one transition system from another.
pub mod map;
pub mod product;
