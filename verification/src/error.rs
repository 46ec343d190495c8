//! The errors of the library.

use vstd::prelude::*;

verus! {

/// Everything that can go wrong in the core. All of these are returned as
/// values; nothing in the library panics.
#[derive(Clone, Copy, PartialEq, Eq, Structural, Debug)]
pub enum ChessError {
    /// A file, rank or square index lies off the board.
    OutOfRange,
    /// The position text holds a character that is neither a digit, a rank
    /// separator nor a piece letter.
    InvalidFenCharacter(char),
    /// A move was requested for an identity that the registry does not hold.
    NoActivePiece,
    /// The destination is not among the pseudo-legal destinations.
    Illegal,
}

} // verus!
