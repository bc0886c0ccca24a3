//! The normal 3x3 variant of tic-tac-toe and its minimax engine.

use vstd::prelude::*;

pub mod board;

verus! {

/// A coordinate on the board. See [`Board::cells`](board::Board::cells).
pub type Coord = (usize, usize);

} // verus!
