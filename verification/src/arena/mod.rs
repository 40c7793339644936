//! The finite game graph of a region: state enumeration and the turn-based arena.
pub mod enumerate;
pub mod graph;

pub use graph::{Arena, ArenaBuilder, Node, NodeId};
