//! Engines and board models for normal and ultimate tic-tac-toe.
//!
//! The `shared` module holds the cell model and win detection used by both
//! variants, `normal` holds the flat 3x3 board with its minimax engine, and
//! `ultimate` holds the nested board with its Monte Carlo tree search engine.

pub mod fake_par_iter;
pub mod normal;
pub mod shared;
pub mod ultimate;

mod rng;

pub use self::shared::board::CellShape;
