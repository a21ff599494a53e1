//! A solver for Shenzhen Solitaire: the board model and its auto-foundation
//! rule, move generation, and a best-first search over normalized states.
pub mod algo;
pub mod board;
pub mod deal;
pub mod heap;
pub mod laws;
pub mod rule;
pub mod state;
