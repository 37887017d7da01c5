//! Chess legal-move generation over 64-square bitboards, with exact
//! make/unmake of moves on a position.

pub mod vector;
pub mod bitboard;
pub mod board;
pub mod moves;
pub mod state;
pub mod laws;
pub mod fen;
