//! Game solvers on an arena: safety traps, attractors, Büchi and reachability winning sets.
pub mod buchi;
pub mod reach;
pub mod safety;
