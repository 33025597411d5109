//! A magic-bitboard chess move generator and perft counter, with the
//! geometry, the lookup tables and the move counts stated and proved.

pub mod bits;
pub mod geometry;
pub mod magics;
pub mod movegen;
pub mod puzzle;
