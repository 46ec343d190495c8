//! Chessboard state and pseudo-legal move generation.
//!
//! A [`board::Board`] holds 64 squares, each with the identity of the piece on
//! it; a registry, a `Vec` of [`piece::Piece`], holds the pieces themselves.
//! A position text fills both, the move generator lists the squares a piece
//! may go to, and the move executor carries a move out. Check, castling, en
//! passant, promotion and turn order are not part of this library.

pub mod board;
pub mod chess;
pub mod error;
pub mod fen;
pub mod movegen;
pub mod moves;
pub mod piece;
pub mod reach;
pub mod targets;
