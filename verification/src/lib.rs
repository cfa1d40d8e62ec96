//! A sliding-block (Klotski) puzzle and the exploration of its state space.
//!
//! `board` holds the puzzle rules: which moves are legal, what a move does,
//! and how a board is hashed into a state identifier. `state_space` walks the
//! graph of boards reachable by legal moves, depth-first or breadth-first.

pub mod board;
pub mod graph;
pub mod state_space;
