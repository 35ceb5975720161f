//! Minimization of deterministic machines: the coarsest bisimulation, computed by
//! partition refinement, and the quotient that it induces.
pub mod bisimulation;
pub mod partition;
pub mod partition_refinement;
pub mod quotient;
pub mod refine;
