//! One game: board, registry and the piece in hand, driven by clicks and releases.

use crate::board::{fresh_squares, Board, Square};
use crate::error::ChessError;
use crate::fen::scan;
use crate::moves::MoveType;
use crate::piece::{after_removal, lemma_removal_spares_others, piece_with_id, Piece};
use vstd::prelude::*;

verus! {

/// What the player did, as far as the game is concerned.
#[derive(Clone, Copy, PartialEq, Eq, Structural, Debug)]
pub enum Event {
    /// The pointer went down on the square with this index.
    Click(usize),
    /// The pointer went up on the square with this index.
    Release(usize),
}

/// What the game did with an event, for the one who draws it.
#[derive(Clone, Copy, PartialEq, Eq, Debug)]
pub enum Action {
    /// Nothing changed.
    Idle,
    /// The piece with this identity was picked up.
    Pick(u8),
    /// The piece with this identity was put down; the move went as told.
    Drop(u8, Result<MoveType, ChessError>),
}

/// One game: the board, the pieces in play, and the piece in hand.
pub struct Chess {
    pub board: Board,
    pub pieces: Vec<Piece>,
    pub active_piece: Option<u8>,
    pub last_index_clicked: Option<usize>,
}

impl Chess {
    /// Board and registry belong together: every identity on the board is in
    /// the registry and stands on one square only, and the piece in hand
    /// stands on the square it was picked up from.
    pub open spec fn wf(&self) -> bool {
        &&& self.board.wf()
        &&& self.board.resolves_in(self.pieces@)
        &&& self.board.ids_distinct()
        &&& match self.active_piece {
            Some(id) => self.last_index_clicked matches Some(from) && from < 64
                && self.board.squares@[from as int].piece_id == Some(id),
            None => true,
        }
    }

    /// Tells whether board, registry and hand belong together.
    pub fn is_wf(&self) -> (ok: bool)
        ensures
            ok == self.wf(),
    {
        if !self.board.is_wf() {
            return false;
        }
        if !self.board.check_resolves(&self.pieces) || !self.board.has_distinct_ids() {
            return false;
        }
        match self.active_piece {
            Some(id) => match self.last_index_clicked {
                Some(from) => from < 64 && match self.board.squares[from].piece_id {
                    Some(there) => there == id,
                    None => false,
                },
                None => false,
            },
            None => true,
        }
    }

    /// A game with an empty board and no pieces.
    pub fn new(flip: bool) -> (chess: Chess)
        ensures
            chess.wf(),
            chess.board.squares@ == fresh_squares(),
            chess.board.flip == flip,
            chess.pieces@.len() == 0,
            chess.active_piece is None,
            chess.last_index_clicked is None,
    {
        Chess {
            board: Board::new(flip),
            pieces: Vec::new(),
            active_piece: None,
            last_index_clicked: None,
        }
    }

    /// Sets up the position that `fen` describes on a cleared board, with no
    /// piece in hand. A text that cannot be read leaves the game as it was.
    pub fn init(&mut self, fen: String) -> (result: Result<(), ChessError>)
        ensures
            final(self).board.flip == old(self).board.flip,
            match scan(fresh_squares(), fen@) {
                Ok(end) => {
                    &&& result is Ok
                    &&& final(self).board.squares@ == end.squares
                    &&& final(self).pieces@ == end.pieces
                    &&& final(self).active_piece is None
                    &&& final(self).last_index_clicked is None
                    &&& final(self).wf()
                },
                Err(e) => {
                    &&& result == Err::<(), ChessError>(e)
                    &&& final(self).board.squares@ == old(self).board.squares@
                    &&& final(self).pieces@ == old(self).pieces@
                    &&& final(self).active_piece == old(self).active_piece
                    &&& final(self).last_index_clicked == old(self).last_index_clicked
                },
            },
    {
        let mut board = Board::new(self.board.flip);
        match board.load_fen(fen) {
            Ok(pieces) => {
                self.board = board;
                self.pieces = pieces;
                self.active_piece = None;
                self.last_index_clicked = None;
                Ok(())
            },
            Err(e) => Err(e),
        }
    }

    /// The destinations of the piece in hand, from the square it was picked
    /// up on; none without a piece in hand.
    pub fn legal_moves(&self) -> (moves: Vec<(u8, u8)>)
        requires
            self.wf(),
        ensures
            moves@ == match self.active_piece {
                Some(id) => self.board.legal_moves(
                    self.pieces@,
                    piece_with_id(self.pieces@, id).unwrap(),
                    crate::board::file_of(self.last_index_clicked.unwrap() as int),
                    crate::board::rank_of(self.last_index_clicked.unwrap() as int),
                ),
                None => Seq::empty(),
            },
    {
        match (self.active_piece, self.last_index_clicked) {
            (Some(id), Some(from)) => {
                assert(self.board.squares@[from as int].piece_id == Some(id));
                match Piece::get_piece_from_id(&self.pieces, id) {
                    Some(piece) => {
                        let (file, rank) = Square::index_to_file_rank(from as u8);
                        self.board.generate_legal_moves(&self.pieces, piece, file, rank)
                    },
                    None => Vec::new(),
                }
            },
            _ => Vec::new(),
        }
    }

    /// Takes one event. A click on an occupied square picks its piece up; a
    /// click elsewhere does nothing. A release with a piece in hand tries to
    /// move it from where it was picked up to the square of the release, takes
    /// a captured piece out of the registry, and empties the hand whatever came
    /// of the move. A release with an empty hand does nothing.
    pub fn update(&mut self, event: Event) -> (action: Action)
        requires
            old(self).wf(),
        ensures
            final(self).wf(),
            final(self).board.flip == old(self).board.flip,
            action == old(self).reaction(event),
            final(self).active_piece == (match action {
                Action::Pick(id) => Some(id),
                Action::Idle => old(self).active_piece,
                Action::Drop(_, _) => None,
            }),
            final(self).last_index_clicked == (match (event, action) {
                (Event::Click(index), Action::Pick(_)) => Some(index),
                _ => old(self).last_index_clicked,
            }),
            final(self).board.squares@ == (match (event, action) {
                (Event::Release(to), Action::Drop(id, Ok(_))) => old(self).board.after_move(
                    Some(id),
                    old(self).last_index_clicked.unwrap() as int,
                    to as int,
                ),
                _ => old(self).board.squares@,
            }),
            final(self).pieces@ == (match action {
                Action::Drop(_, Ok(MoveType::Take(taken))) => after_removal(
                    old(self).pieces@,
                    taken,
                ),
                _ => old(self).pieces@,
            }),
    {
        match event {
            Event::Click(index) => {
                if index >= 64 {
                    return Action::Idle;
                }
                match self.board.squares[index].piece_id {
                    Some(id) => {
                        self.last_index_clicked = Some(index);
                        self.active_piece = Some(id);
                        Action::Pick(id)
                    },
                    None => Action::Idle,
                }
            },
            Event::Release(to) => {
                let (id, from) = match (self.active_piece, self.last_index_clicked) {
                    (Some(id), Some(from)) => (id, from),
                    _ => {
                        return Action::Idle;
                    },
                };
                let ghost before = self.board;
                let outcome = self.board.move_piece(Some(id), &self.pieces, from, to);
                if let Ok(MoveType::Take(taken)) = outcome {
                    proof {
                        assert(before.squares@[to as int].piece_id == Some(taken));
                        assert forall|i: int| 0 <= i < 64 implies match (
                        #[trigger] self.board.squares@[i]).piece_id {
                            Some(other) => piece_with_id(
                                after_removal(self.pieces@, taken),
                                other,
                            ) is Some,
                            None => true,
                        } by {
                            if let Some(other) = self.board.squares@[i].piece_id {
                                if i != to && i != from {
                                    assert(before.squares@[i].piece_id != before.squares@[to as int].piece_id);
                                }
                                lemma_removal_spares_others(self.pieces@, taken, other);
                            }
                        }
                    }
                    Piece::remove_id_from_pieces(&mut self.pieces, taken);
                }
                self.active_piece = None;
                Action::Drop(id, outcome)
            },
        }
    }

    /// What `update` answers to an event.
    pub open spec fn reaction(&self, event: Event) -> Action {
        match event {
            Event::Click(index) => if index < 64 {
                match self.board.squares@[index as int].piece_id {
                    Some(id) => Action::Pick(id),
                    None => Action::Idle,
                }
            } else {
                Action::Idle
            },
            Event::Release(to) => match self.active_piece {
                Some(id) => Action::Drop(
                    id,
                    self.board.move_verdict(
                        Some(id),
                        self.pieces@,
                        self.last_index_clicked.unwrap() as int,
                        to as int,
                    ),
                ),
                None => Action::Idle,
            },
        }
    }
}

} // verus!
