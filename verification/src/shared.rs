//! Types and functions that are shared between the two game variants.

pub mod board;
