//! An engine for reasoning about infinite-board endgames in which White has a fixed set of
//! pieces and Black has a lone king.
use vstd::prelude::*;

pub mod arena;
pub mod board;
pub mod chess;
pub mod coord;
pub mod game;
pub mod pieces;
pub mod region;
pub mod rules;
pub mod state;
pub mod scenario;
pub mod scenarios;
pub mod search;
pub mod solution;
pub mod solve;

verus! {
} // verus!
