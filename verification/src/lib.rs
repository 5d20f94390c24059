//! Move selection for a snake on a bounded grid: a reversible game state,
//! a legal-move generator and a depth-bounded search over it.
pub mod logic;
pub mod requests;
pub mod responses;
pub mod snake;
