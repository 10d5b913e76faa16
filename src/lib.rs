//! Bitboard engine for the 8x8 disc-flipping game, with an alpha-beta player.
pub mod ai;
pub mod bits;
pub mod board;
