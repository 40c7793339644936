//! Game-search utilities: move generation under scenario laws, budgets, mate enumeration,
//! bounded universes, traps, tempo traps and forced mates.

pub mod bounded;
pub mod buchi;
pub mod forced_mate;
pub mod mates;
pub mod movegen;
pub mod resources;
pub mod store;
pub mod strategy;
pub mod trap;
pub mod universe;
