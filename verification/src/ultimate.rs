//! The ultimate variant of tic-tac-toe and its Monte Carlo tree search
//! engine.
//!
//! In a game of ultimate tic-tac-toe there is one global board.  This global
//! board is a 3x3 grid of local boards, each of which is a 3x3 grid of cells.

use vstd::prelude::*;

pub mod board;

verus! {

/// A coordinate on a local board.
pub type LocalCoord = (usize, usize);

/// A coordinate of an individual cell, as addressed from the global board.
///
/// The first 2 numbers are the `x` and `y` coordinates of the intended local
/// board, and then the [`LocalCoord`] is the coordinate of the desired cell
/// within that local board.
pub type GlobalCoord = (usize, usize, LocalCoord);

} // verus!
