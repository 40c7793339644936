//! Pure chess rules for traditional pieces against a lone black king, in coordinates relative
//! to that king.

pub mod bounds;
pub mod config;
pub mod layout;
pub mod piece;
pub mod rules;
