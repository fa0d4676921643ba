//! A deterministic two-player board game on a 6x6 grid, together with the
//! pure evaluation functions used by an automated opponent.
//!
//! A player moves one of their pieces one cell orthogonally into an empty
//! cell.  After every move the board is re-scanned for alternating runs of
//! pieces ("snakes"); intersecting snakes ("crosses") whose end pieces agree
//! on a flip direction relabel the pieces they span.  The game ends when one
//! side has no pieces left.

pub mod chess;
pub mod mcts;
