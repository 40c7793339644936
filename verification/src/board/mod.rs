//! Low-level primitives: integer coordinates, packed squares and fixed-capacity positions
//! stored relative to the black king.

pub mod coord;
pub mod position;
pub mod square;
