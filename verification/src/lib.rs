//! A word-search puzzle engine: a solver that looks words up in a
//! character grid along the eight orientations, case-insensitively, and a
//! generator that places random dictionary words onto a grid without
//! collisions and fills the rest with noise letters.

pub mod generate;
pub mod laws;
pub mod solve;
pub mod util;
