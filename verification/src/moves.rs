//! Carrying out a move on the board.

use crate::board::{file_of, rank_of, Board, Square};
use crate::error::ChessError;
use crate::piece::{piece_with_id, Piece};
use vstd::prelude::*;

verus! {

/// What a move that was carried out did.
#[derive(Clone, Copy, PartialEq, Eq, Structural, Debug)]
pub enum MoveType {
    /// The destination was empty.
    Empty,
    /// The piece with this identity stood on the destination and was taken.
    Take(u8),
}

impl Board {
    /// Whether the square `to` is among the destinations of `piece` standing
    /// on the square `from`.
    pub open spec fn is_destination(
        &self,
        pieces: Seq<Piece>,
        piece: Piece,
        from: int,
        to: int,
    ) -> bool {
        0 <= to < 64 && self.legal_moves(pieces, piece, file_of(from), rank_of(from)).contains(
            (file_of(to) as u8, rank_of(to) as u8),
        )
    }

    /// How a requested move is answered. An identity that the registry does
    /// not hold comes first, an origin off the board second, a destination
    /// that the piece cannot reach third.
    pub open spec fn move_verdict(
        &self,
        active_piece_id: Option<u8>,
        pieces: Seq<Piece>,
        from: int,
        to: int,
    ) -> Result<MoveType, ChessError> {
        match active_piece_id {
            None => Err(ChessError::NoActivePiece),
            Some(id) => match piece_with_id(pieces, id) {
                None => Err(ChessError::NoActivePiece),
                Some(piece) => if !(0 <= from < 64) {
                    Err(ChessError::OutOfRange)
                } else if !self.is_destination(pieces, piece, from, to) {
                    Err(ChessError::Illegal)
                } else {
                    match self.squares@[to].piece_id {
                        None => Ok(MoveType::Empty),
                        Some(taken) => Ok(MoveType::Take(taken)),
                    }
                },
            },
        }
    }

    /// The squares after the occupant of `from` has gone to `to`.
    pub open spec fn after_move(&self, active_piece_id: Option<u8>, from: int, to: int) -> Seq<
        Square,
    > {
        self.squares@.update(
            to,
            Square {
                color: self.squares@[to].color,
                index: self.squares@[to].index,
                piece_id: active_piece_id,
            },
        ).update(
            from,
            Square {
                color: self.squares@[from].color,
                index: self.squares@[from].index,
                piece_id: None,
            },
        )
    }

    /// Moves the piece with identity `active_piece_id` from the square
    /// `from_index` to the square `to_index` if that is one of its
    /// destinations, and tells whether it took a piece. A refused move leaves
    /// the board as it was.
    pub fn move_piece(
        &mut self,
        active_piece_id: Option<u8>,
        pieces: &Vec<Piece>,
        from_index: usize,
        to_index: usize,
    ) -> (result: Result<MoveType, ChessError>)
        requires
            old(self).wf(),
            old(self).resolves_in(pieces@),
        ensures
            result == old(self).move_verdict(
                active_piece_id,
                pieces@,
                from_index as int,
                to_index as int,
            ),
            final(self).flip == old(self).flip,
            result is Err ==> final(self).squares@ == old(self).squares@,
            result is Err ==> final(self)@ == old(self)@,
            result is Ok ==> final(self).squares@ == old(self).after_move(
                active_piece_id,
                from_index as int,
                to_index as int,
            ),
            result is Ok ==> final(self)@ == old(self)@.update(
                to_index as int,
                active_piece_id,
            ).update(from_index as int, None),
            result is Ok ==> {
                &&& from_index < 64 && to_index < 64 && from_index != to_index
                &&& final(self).squares@[to_index as int].piece_id == active_piece_id
                &&& final(self).squares@[from_index as int].piece_id is None
                &&& forall|i: int|
                    0 <= i < 64 && i != from_index && i != to_index ==> final(self).squares@[i]
                        == old(self).squares@[i]
            },
            result matches Ok(MoveType::Take(taken)) ==> {
                &&& piece_with_id(pieces@, taken) is Some
                &&& piece_with_id(pieces@, taken).unwrap().color != piece_with_id(
                    pieces@,
                    active_piece_id.unwrap(),
                ).unwrap().color
            },
            final(self).wf(),
            final(self).resolves_in(pieces@),
            old(self).ids_distinct() && from_index < 64 && old(self).squares@[from_index as int].piece_id
                == active_piece_id ==> final(self).ids_distinct(),
    {
        let id = match active_piece_id {
            Some(id) => id,
            None => {
                return Err(ChessError::NoActivePiece);
            },
        };
        let piece = match Piece::get_piece_from_id(pieces, id) {
            Some(piece) => *piece,
            None => {
                return Err(ChessError::NoActivePiece);
            },
        };
        if from_index >= 64 {
            return Err(ChessError::OutOfRange);
        }
        let (file, rank) = Square::index_to_file_rank(from_index as u8);
        let legal_moves = self.generate_legal_moves(pieces, &piece, file, rank);
        if !Board::reaches(&legal_moves, to_index) {
            return Err(ChessError::Illegal);
        }
        proof {
            let to_file = file_of(to_index as int);
            let to_rank = rank_of(to_index as int);
            assert(self.is_target(pieces@, piece, file as int, rank as int, to_file, to_rank));
            self.lemma_target_leaves_origin(
                pieces@,
                piece,
                file as int,
                rank as int,
                to_file,
                to_rank,
            );
            self.lemma_target_is_empty_or_enemy(
                pieces@,
                piece,
                file as int,
                rank as int,
                to_file,
                to_rank,
            );
            assert(self.occupant(to_file, to_rank) == self.squares@[to_index as int].piece_id);
        }
        let outcome = match self.squares[to_index].piece_id {
            None => MoveType::Empty,
            Some(taken) => MoveType::Take(taken),
        };
        let ghost before = self.squares@;
        let target = self.squares[to_index];
        self.squares.set(
            to_index,
            Square { color: target.color, index: target.index, piece_id: active_piece_id },
        );
        let origin = self.squares[from_index];
        self.squares.set(
            from_index,
            Square { color: origin.color, index: origin.index, piece_id: None },
        );
        proof {
            assert(self@ =~= old(self)@.update(to_index as int, active_piece_id).update(
                from_index as int,
                None,
            ));
            assert forall|i: int| 0 <= i < 64 implies match (#[trigger] self.squares@[i]).piece_id {
                Some(other) => piece_with_id(pieces@, other) is Some,
                None => true,
            } by {
                if i != to_index && i != from_index {
                    assert(self.squares@[i] == before[i]);
                }
            }
        }
        Ok(outcome)
    }

    /// Tells whether one of the squares in `moves`, given by file and rank, is
    /// the square with index `to_index`.
    fn reaches(moves: &Vec<(u8, u8)>, to_index: usize) -> (found: bool)
        ensures
            found == (0 <= to_index < 64 && moves@.contains(
                (file_of(to_index as int) as u8, rank_of(to_index as int) as u8),
            )),
    {
        if to_index >= 64 {
            return false;
        }
        let (to_file, to_rank) = Square::index_to_file_rank(to_index as u8);
        let mut k: usize = 0;
        while k < moves.len()
            invariant
                k <= moves@.len(),
                to_index < 64,
                to_file == file_of(to_index as int),
                to_rank == rank_of(to_index as int),
                forall|j: int| 0 <= j < k ==> moves@[j] != (to_file, to_rank),
            decreases moves@.len() - k,
        {
            let (file, rank) = moves[k];
            if file == to_file && rank == to_rank {
                assert(moves@[k as int] == (to_file, to_rank));
                return true;
            }
            k += 1;
        }
        false
    }
}

} // verus!
