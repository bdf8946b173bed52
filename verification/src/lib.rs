//! Solver for a dice puzzle: combine every rolled value exactly once with
//! the four arithmetic operators so that the floor of the result equals one
//! of the three prime targets of the chosen level.

pub mod ast;
pub mod par;
pub mod parse;
pub mod render;
pub mod search;
pub mod solver;
pub mod targets;
