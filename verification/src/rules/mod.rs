//! Attacks, move generation and checkmate detection on a finite region.
pub mod attacks;
pub mod checkmate;
pub mod movegen;
