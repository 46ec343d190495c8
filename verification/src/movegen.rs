//! Pseudo-legal move generation: stepping pieces, sliding pieces and pawns.

use crate::board::{index_of, on_board, Board};
use crate::piece::{piece_with_id, Color, Kind, Piece};
use vstd::prelude::*;

verus! {

/// The rank step of a pawn: White walks up the board, Black down.
pub open spec fn forward(color: Color) -> int {
    if color == Color::White {
        1
    } else {
        -1
    }
}

/// How much board is left for a walk that stands on `(file, rank)` and heads
/// in direction `(df, dr)`. It shrinks with every step that stays on the board.
pub open spec fn room(file: int, rank: int, df: int, dr: int) -> int {
    if df > 0 {
        8 - file
    } else if df < 0 {
        file + 1
    } else if dr > 0 {
        8 - rank
    } else {
        rank + 1
    }
}

/// The eight jumps of a knight.
pub open spec fn knight_offsets() -> Seq<(i16, i16)> {
    seq![
        (1i16, 2i16),
        (2i16, 1i16),
        (1i16, -2i16),
        (2i16, -1i16),
        (-1i16, 2i16),
        (-2i16, 1i16),
        (-1i16, -2i16),
        (-2i16, -1i16),
    ]
}

/// The eight neighbors of a king.
pub open spec fn king_offsets() -> Seq<(i16, i16)> {
    seq![
        (0i16, 1i16),
        (1i16, 1i16),
        (1i16, 0i16),
        (0i16, -1i16),
        (-1i16, -1i16),
        (-1i16, 0i16),
        (-1i16, 1i16),
        (1i16, -1i16),
    ]
}

/// The four diagonals.
pub open spec fn bishop_directions() -> Seq<(i16, i16)> {
    seq![(1i16, 1i16), (1i16, -1i16), (-1i16, -1i16), (-1i16, 1i16)]
}

/// The four orthogonals.
pub open spec fn rook_directions() -> Seq<(i16, i16)> {
    seq![(1i16, 0i16), (0i16, -1i16), (-1i16, 0i16), (0i16, 1i16)]
}

/// Diagonals, then orthogonals.
pub open spec fn queen_directions() -> Seq<(i16, i16)> {
    bishop_directions() + rook_directions()
}

/// Whether all the squares of a list lie on the board.
pub open spec fn all_on_board(squares: Seq<(i16, i16)>) -> bool {
    forall|j: int|
        0 <= j < squares.len() ==> on_board((#[trigger] squares[j]).0 as int, squares[j].1 as int)
}

impl Board {
    /// The identity standing on a square.
    pub open spec fn occupant(&self, file: int, rank: int) -> Option<u8> {
        self.squares@[index_of(file, rank)].piece_id
    }

    /// Every identity on the board is one that the registry holds.
    pub open spec fn resolves_in(&self, pieces: Seq<Piece>) -> bool {
        forall|i: int|
            0 <= i < self.squares@.len() ==> match (#[trigger] self.squares@[i]).piece_id {
                Some(id) => piece_with_id(pieces, id) is Some,
                None => true,
            }
    }

    /// Nobody stands on the square.
    pub open spec fn empty_at(&self, file: int, rank: int) -> bool {
        self.occupant(file, rank) is None
    }

    /// A piece of the given color stands on the square.
    pub open spec fn allied_at(&self, pieces: Seq<Piece>, color: Color, file: int, rank: int) -> bool {
        match self.occupant(file, rank) {
            Some(id) => match piece_with_id(pieces, id) {
                Some(other) => other.color == color,
                None => false,
            },
            None => false,
        }
    }

    /// A piece of the other color stands on the square.
    pub open spec fn enemy_at(&self, pieces: Seq<Piece>, color: Color, file: int, rank: int) -> bool {
        match self.occupant(file, rank) {
            Some(id) => match piece_with_id(pieces, id) {
                Some(other) => other.color != color,
                None => false,
            },
            None => false,
        }
    }

    /// The squares a stepping piece of `color` on `(file, rank)` reaches with
    /// the given offsets, in the order of the offsets: those on the board that
    /// hold no piece of its own color.
    pub open spec fn steps(
        &self,
        pieces: Seq<Piece>,
        color: Color,
        file: int,
        rank: int,
        offsets: Seq<(i16, i16)>,
    ) -> Seq<(i16, i16)>
        decreases offsets.len(),
    {
        if offsets.len() == 0 {
            Seq::empty()
        } else {
            let before = self.steps(pieces, color, file, rank, offsets.drop_last());
            let f = file + offsets.last().0;
            let r = rank + offsets.last().1;
            if on_board(f, r) && !self.allied_at(pieces, color, f, r) {
                before.push((f as i16, r as i16))
            } else {
                before
            }
        }
    }

    /// The squares a sliding piece of `color` reaches beyond `(file, rank)` in
    /// direction `(df, dr)`, nearest first: the empty squares up to the edge or
    /// the first occupied square, and that square too if an enemy stands on it.
    pub open spec fn ray(
        &self,
        pieces: Seq<Piece>,
        color: Color,
        file: int,
        rank: int,
        df: int,
        dr: int,
    ) -> Seq<(i16, i16)>
        decreases room(file, rank, df, dr),
    {
        let f = file + df;
        let r = rank + dr;
        if (df == 0 && dr == 0) || !on_board(f, r) {
            Seq::empty()
        } else if self.empty_at(f, r) {
            seq![(f as i16, r as i16)] + self.ray(pieces, color, f, r, df, dr)
        } else if self.enemy_at(pieces, color, f, r) {
            seq![(f as i16, r as i16)]
        } else {
            Seq::empty()
        }
    }

    /// The rays of all the given directions, one after the other.
    pub open spec fn lines(
        &self,
        pieces: Seq<Piece>,
        color: Color,
        file: int,
        rank: int,
        directions: Seq<(i16, i16)>,
    ) -> Seq<(i16, i16)>
        decreases directions.len(),
    {
        if directions.len() == 0 {
            Seq::empty()
        } else {
            self.lines(pieces, color, file, rank, directions.drop_last()) + self.ray(
                pieces,
                color,
                file,
                rank,
                directions.last().0 as int,
                directions.last().1 as int,
            )
        }
    }

    /// A diagonal square of a pawn: a destination only with an enemy on it.
    pub open spec fn pawn_attack(
        &self,
        pieces: Seq<Piece>,
        color: Color,
        file: int,
        rank: int,
    ) -> Seq<(i16, i16)> {
        if on_board(file, rank) && self.enemy_at(pieces, color, file, rank) {
            seq![(file as i16, rank as i16)]
        } else {
            Seq::empty()
        }
    }

    /// The square ahead of a pawn: a destination only while nobody is on it.
    pub open spec fn pawn_advance(&self, file: int, rank: int) -> Seq<(i16, i16)> {
        if on_board(file, rank) && self.empty_at(file, rank) {
            seq![(file as i16, rank as i16)]
        } else {
            Seq::empty()
        }
    }

    /// The destinations of a pawn: the capture to the left, the capture to the
    /// right, then the single step ahead.
    pub open spec fn pawn_moves(
        &self,
        pieces: Seq<Piece>,
        color: Color,
        file: int,
        rank: int,
    ) -> Seq<(i16, i16)> {
        let ahead = rank + forward(color);
        self.pawn_attack(pieces, color, file - 1, ahead) + self.pawn_attack(
            pieces,
            color,
            file + 1,
            ahead,
        ) + self.pawn_advance(file, ahead)
    }

    /// The pseudo-legal destinations of `piece` standing on `(file, rank)`.
    pub open spec fn destinations(
        &self,
        pieces: Seq<Piece>,
        piece: Piece,
        file: int,
        rank: int,
    ) -> Seq<(i16, i16)> {
        match piece.kind {
            Kind::Pawn => self.pawn_moves(pieces, piece.color, file, rank),
            Kind::Bishop => self.lines(pieces, piece.color, file, rank, bishop_directions()),
            Kind::Knight => self.steps(pieces, piece.color, file, rank, knight_offsets()),
            Kind::Rook => self.lines(pieces, piece.color, file, rank, rook_directions()),
            Kind::Queen => self.lines(pieces, piece.color, file, rank, queen_directions()),
            Kind::King => self.steps(pieces, piece.color, file, rank, king_offsets()),
        }
    }

    /// The same destinations as pairs of file and rank in `0..8`.
    pub open spec fn legal_moves(
        &self,
        pieces: Seq<Piece>,
        piece: Piece,
        file: int,
        rank: int,
    ) -> Seq<(u8, u8)> {
        self.destinations(pieces, piece, file, rank).map_values(
            |m: (i16, i16)| (m.0 as u8, m.1 as u8),
        )
    }

    /// Tells whether every identity on the board is one that `pieces` holds.
    pub fn check_resolves(&self, pieces: &Vec<Piece>) -> (ok: bool)
        ensures
            ok == self.resolves_in(pieces@),
    {
        let mut i: usize = 0;
        while i < self.squares.len()
            invariant
                i <= self.squares@.len(),
                forall|j: int|
                    0 <= j < i ==> match (#[trigger] self.squares@[j]).piece_id {
                        Some(id) => piece_with_id(pieces@, id) is Some,
                        None => true,
                    },
            decreases self.squares@.len() - i,
        {
            if let Some(id) = self.squares[i].piece_id {
                if Piece::get_piece_from_id(pieces, id).is_none() {
                    return false;
                }
            }
            i += 1;
        }
        true
    }

    /// The pseudo-legal destinations of `piece` standing on `(file, rank)`, as
    /// files and ranks.
    pub fn generate_legal_moves(
        &self,
        pieces: &Vec<Piece>,
        piece: &Piece,
        file: u8,
        rank: u8,
    ) -> (moves: Vec<(u8, u8)>)
        requires
            self.wf(),
            self.resolves_in(pieces@),
        ensures
            moves@ == self.legal_moves(pieces@, *piece, file as int, rank as int),
            moves@.no_duplicates(),
            forall|m: (u8, u8)| #[trigger]
                moves@.contains(m) <==> self.is_target(
                    pieces@,
                    *piece,
                    file as int,
                    rank as int,
                    m.0 as int,
                    m.1 as int,
                ),
    {
        let legal_moves: Vec<(i16, i16)> = match piece.kind {
            Kind::Pawn => self.generate_pawn(pieces, piece, file, rank),
            Kind::Bishop => {
                let deltas: Vec<(i16, i16)> = vec![(1, 1), (1, -1), (-1, -1), (-1, 1)];
                self.generate_line(deltas, pieces, piece, file, rank)
            },
            Kind::Knight => {
                let pos: Vec<(i16, i16)> = vec![
                    (1, 2),
                    (2, 1),
                    (1, -2),
                    (2, -1),
                    (-1, 2),
                    (-2, 1),
                    (-1, -2),
                    (-2, -1),
                ];
                self.generate_custom(pos, pieces, piece, file, rank)
            },
            Kind::Rook => {
                let deltas: Vec<(i16, i16)> = vec![(1, 0), (0, -1), (-1, 0), (0, 1)];
                self.generate_line(deltas, pieces, piece, file, rank)
            },
            Kind::Queen => {
                let deltas: Vec<(i16, i16)> = vec![
                    (1, 1),
                    (1, -1),
                    (-1, -1),
                    (-1, 1),
                    (1, 0),
                    (0, -1),
                    (-1, 0),
                    (0, 1),
                ];
                proof {
                    assert(deltas@ =~= queen_directions());
                }
                self.generate_line(deltas, pieces, piece, file, rank)
            },
            Kind::King => {
                let pos: Vec<(i16, i16)> = vec![
                    (0, 1),
                    (1, 1),
                    (1, 0),
                    (0, -1),
                    (-1, -1),
                    (-1, 0),
                    (-1, 1),
                    (1, -1),
                ];
                self.generate_custom(pos, pieces, piece, file, rank)
            },
        };
        let ghost all = self.destinations(pieces@, *piece, file as int, rank as int);
        proof {
            self.lemma_destinations_on_board(pieces@, *piece, file as int, rank as int);
        }
        let mut moves: Vec<(u8, u8)> = Vec::new();
        let mut k: usize = 0;
        while k < legal_moves.len()
            invariant
                k <= legal_moves@.len(),
                legal_moves@ == all,
                all_on_board(all),
                moves@ == all.take(k as int).map_values(|m: (i16, i16)| (m.0 as u8, m.1 as u8)),
            decreases legal_moves@.len() - k,
        {
            let (f, r) = legal_moves[k];
            moves.push((f as u8, r as u8));
            proof {
                assert(all.take(k + 1) =~= all.take(k as int).push(all[k as int]));
                assert(moves@ =~= all.take(k + 1).map_values(
                    |m: (i16, i16)| (m.0 as u8, m.1 as u8),
                ));
            }
            k += 1;
        }
        proof {
            assert(all.take(k as int) =~= all);
            self.lemma_destinations_distinct(pieces@, *piece, file as int, rank as int);
            self.lemma_legal_moves_are_targets(pieces@, *piece, file as int, rank as int);
        }
        moves
    }

    /// The destinations of a pawn: its captures, then its step ahead.
    pub fn generate_pawn(&self, pieces: &Vec<Piece>, piece: &Piece, file: u8, rank: u8) -> (moves:
        Vec<(i16, i16)>)
        requires
            self.wf(),
            self.resolves_in(pieces@),
        ensures
            moves@ == self.pawn_moves(pieces@, piece.color, file as int, rank as int),
    {
        let mut legal_moves: Vec<(i16, i16)> = Vec::new();
        let ahead: i32 = if piece.color == Color::White {
            rank as i32 + 1
        } else {
            rank as i32 - 1
        };
        let left: i32 = file as i32 - 1;
        let right: i32 = file as i32 + 1;
        if Board::is_inside_board(left, ahead) && self.is_attacking(pieces, piece, left, ahead) {
            legal_moves.push((left as i16, ahead as i16));
        }
        if Board::is_inside_board(right, ahead) && self.is_attacking(pieces, piece, right, ahead) {
            legal_moves.push((right as i16, ahead as i16));
        }
        if Board::is_inside_board(file as i32, ahead) && !self.is_attacking(
            pieces,
            piece,
            file as i32,
            ahead,
        ) && !self.is_allied(pieces, piece, file as i32, ahead) {
            legal_moves.push((file as i16, ahead as i16));
        }
        proof {
            assert(legal_moves@ =~= self.pawn_moves(
                pieces@,
                piece.color,
                file as int,
                rank as int,
            ));
        }
        legal_moves
    }

    /// The squares that the offsets in `custom` lead to from `(file, rank)`,
    /// without those off the board and those held by a piece of the same color.
    pub fn generate_custom(
        &self,
        custom: Vec<(i16, i16)>,
        pieces: &Vec<Piece>,
        piece: &Piece,
        file: u8,
        rank: u8,
    ) -> (moves: Vec<(i16, i16)>)
        requires
            self.wf(),
            self.resolves_in(pieces@),
        ensures
            moves@ == self.steps(pieces@, piece.color, file as int, rank as int, custom@),
    {
        let mut legal_moves: Vec<(i16, i16)> = Vec::new();
        let mut first = true;
        let mut k: usize = 0;
        while k < custom.len()
            invariant
                self.wf(),
                k <= custom@.len(),
                legal_moves@ == self.steps(
                    pieces@,
                    piece.color,
                    file as int,
                    rank as int,
                    custom@.take(k as int),
                ),
            decreases custom@.len() - k,
        {
            let (df, dr) = custom[k];
            let f: i32 = file as i32 + df as i32;
            let r: i32 = rank as i32 + dr as i32;
            proof {
                assert(custom@.take(k + 1).drop_last() =~= custom@.take(k as int));
            }
            if self.is_legal(pieces, piece, &mut first, f, r, false) {
                legal_moves.push((f as i16, r as i16));
            }
            k += 1;
        }
        proof {
            assert(custom@.take(k as int) =~= custom@);
        }
        legal_moves
    }

    /// The rays from `(file, rank)` in the directions of `deltas`, one after
    /// the other. Each ray ends before a piece of the same color, on a piece of
    /// the other color, or at the edge of the board.
    pub fn generate_line(
        &self,
        deltas: Vec<(i16, i16)>,
        pieces: &Vec<Piece>,
        piece: &Piece,
        file: u8,
        rank: u8,
    ) -> (moves: Vec<(i16, i16)>)
        requires
            self.wf(),
            self.resolves_in(pieces@),
        ensures
            moves@ == self.lines(pieces@, piece.color, file as int, rank as int, deltas@),
    {
        let mut legal_moves: Vec<(i16, i16)> = Vec::new();
        let mut k: usize = 0;
        while k < deltas.len()
            invariant
                self.wf(),
                self.resolves_in(pieces@),
                k <= deltas@.len(),
                legal_moves@ == self.lines(
                    pieces@,
                    piece.color,
                    file as int,
                    rank as int,
                    deltas@.take(k as int),
                ),
            decreases deltas@.len() - k,
        {
            let (df, dr) = deltas[k];
            let ghost before = legal_moves@;
            let ghost whole = self.ray(
                pieces@,
                piece.color,
                file as int,
                rank as int,
                df as int,
                dr as int,
            );
            let mut first = true;
            let mut f: i32 = file as i32;
            let mut r: i32 = rank as i32;
            if df != 0 || dr != 0 {
                loop
                    invariant
                        self.wf(),
                        self.resolves_in(pieces@),
                        df != 0 || dr != 0,
                        0 <= f <= 255,
                        0 <= r <= 255,
                        whole == self.ray(
                            pieces@,
                            piece.color,
                            file as int,
                            rank as int,
                            df as int,
                            dr as int,
                        ),
                        first ==> before + whole == legal_moves@ + self.ray(
                            pieces@,
                            piece.color,
                            f as int,
                            r as int,
                            df as int,
                            dr as int,
                        ),
                        !first ==> before + whole == legal_moves@,
                    ensures
                        before + whole == legal_moves@,
                    decreases room(f as int, r as int, df as int, dr as int),
                {
                    let nf: i32 = f + df as i32;
                    let nr: i32 = r + dr as i32;
                    let ghost was_first = first;
                    proof {
                        if on_board(nf as int, nr as int) {
                            self.lemma_occupied(pieces@, piece.color, nf as int, nr as int);
                        }
                    }
                    if !self.is_legal(pieces, piece, &mut first, nf, nr, true) {
                        proof {
                            if was_first {
                                assert(before + whole =~= legal_moves@);
                            }
                        }
                        break ;
                    }
                    proof {
                        let rest = self.ray(
                            pieces@,
                            piece.color,
                            nf as int,
                            nr as int,
                            df as int,
                            dr as int,
                        );
                        if first {
                            assert(legal_moves@ + (seq![(nf as i16, nr as i16)] + rest)
                                =~= legal_moves@.push((nf as i16, nr as i16)) + rest);
                        } else {
                            assert(legal_moves@ + seq![(nf as i16, nr as i16)]
                                =~= legal_moves@.push((nf as i16, nr as i16)));
                        }
                    }
                    legal_moves.push((nf as i16, nr as i16));
                    f = nf;
                    r = nr;
                }
            } else {
                proof {
                    assert(before + whole =~= legal_moves@);
                }
            }
            proof {
                assert(deltas@.take(k + 1).drop_last() =~= deltas@.take(k as int));
            }
            k += 1;
        }
        proof {
            assert(deltas@.take(k as int) =~= deltas@);
        }
        legal_moves
    }

    /// On a board whose identities all resolve, a square of the board is
    /// empty, holds an ally or holds an enemy, and only one of the three.
    pub proof fn lemma_occupied(&self, pieces: Seq<Piece>, color: Color, file: int, rank: int)
        requires
            self.wf(),
            self.resolves_in(pieces),
            on_board(file, rank),
        ensures
            self.empty_at(file, rank) || self.allied_at(pieces, color, file, rank) || self.enemy_at(
                pieces,
                color,
                file,
                rank,
            ),
            !(self.empty_at(file, rank) && self.allied_at(pieces, color, file, rank)),
            !(self.empty_at(file, rank) && self.enemy_at(pieces, color, file, rank)),
            !(self.allied_at(pieces, color, file, rank) && self.enemy_at(
                pieces,
                color,
                file,
                rank,
            )),
    {
        assert(self.squares@[index_of(file, rank)].piece_id == self.occupant(file, rank));
    }

    /// Every square that `steps` gives lies on the board.
    pub proof fn lemma_steps_on_board(
        &self,
        pieces: Seq<Piece>,
        color: Color,
        file: int,
        rank: int,
        offsets: Seq<(i16, i16)>,
    )
        ensures
            all_on_board(self.steps(pieces, color, file, rank, offsets)),
        decreases offsets.len(),
    {
        if offsets.len() > 0 {
            self.lemma_steps_on_board(pieces, color, file, rank, offsets.drop_last());
        }
    }

    /// Every square that `ray` gives lies on the board.
    pub proof fn lemma_ray_on_board(
        &self,
        pieces: Seq<Piece>,
        color: Color,
        file: int,
        rank: int,
        df: int,
        dr: int,
    )
        ensures
            all_on_board(self.ray(pieces, color, file, rank, df, dr)),
        decreases room(file, rank, df, dr),
    {
        let f = file + df;
        let r = rank + dr;
        if !(df == 0 && dr == 0) && on_board(f, r) && self.empty_at(f, r) {
            self.lemma_ray_on_board(pieces, color, f, r, df, dr);
        }
    }

    /// Every square that `lines` gives lies on the board.
    pub proof fn lemma_lines_on_board(
        &self,
        pieces: Seq<Piece>,
        color: Color,
        file: int,
        rank: int,
        directions: Seq<(i16, i16)>,
    )
        ensures
            all_on_board(self.lines(pieces, color, file, rank, directions)),
        decreases directions.len(),
    {
        if directions.len() > 0 {
            self.lemma_lines_on_board(pieces, color, file, rank, directions.drop_last());
            self.lemma_ray_on_board(
                pieces,
                color,
                file,
                rank,
                directions.last().0 as int,
                directions.last().1 as int,
            );
        }
    }

    /// Every destination lies on the board.
    pub proof fn lemma_destinations_on_board(
        &self,
        pieces: Seq<Piece>,
        piece: Piece,
        file: int,
        rank: int,
    )
        ensures
            all_on_board(self.destinations(pieces, piece, file, rank)),
    {
        match piece.kind {
            Kind::Pawn => {},
            Kind::Bishop => {
                self.lemma_lines_on_board(pieces, piece.color, file, rank, bishop_directions());
            },
            Kind::Knight => {
                self.lemma_steps_on_board(pieces, piece.color, file, rank, knight_offsets());
            },
            Kind::Rook => {
                self.lemma_lines_on_board(pieces, piece.color, file, rank, rook_directions());
            },
            Kind::Queen => {
                self.lemma_lines_on_board(pieces, piece.color, file, rank, queen_directions());
            },
            Kind::King => {
                self.lemma_steps_on_board(pieces, piece.color, file, rank, king_offsets());
            },
        }
    }

    fn is_inside_board(file: i32, rank: i32) -> (inside: bool)
        ensures
            inside == on_board(file as int, rank as int),
    {
        file >= 0 && rank >= 0 && file < 8 && rank < 8
    }

    fn is_allied(&self, pieces: &Vec<Piece>, piece: &Piece, file: i32, rank: i32) -> (allied: bool)
        requires
            self.wf(),
            on_board(file as int, rank as int),
        ensures
            allied == self.allied_at(pieces@, piece.color, file as int, rank as int),
    {
        let index: usize = (file + 8 * rank) as usize;
        match self.squares[index].piece_id {
            Some(id) => match Piece::get_piece_from_id(pieces, id) {
                Some(other) => other.color == piece.color,
                None => false,
            },
            None => false,
        }
    }

    fn is_attacking(&self, pieces: &Vec<Piece>, piece: &Piece, file: i32, rank: i32) -> (attacking:
        bool)
        requires
            self.wf(),
            on_board(file as int, rank as int),
        ensures
            attacking == self.enemy_at(pieces@, piece.color, file as int, rank as int),
    {
        let index: usize = (file + 8 * rank) as usize;
        match self.squares[index].piece_id {
            Some(id) => match Piece::get_piece_from_id(pieces, id) {
                Some(other) => other.color != piece.color,
                None => false,
            },
            None => false,
        }
    }

    /// Judges the next candidate square of a walk. With `check_first`, `first`
    /// says that the walk has met nobody yet; it falls once an enemy is taken,
    /// and nothing is legal after that.
    fn is_legal(
        &self,
        pieces: &Vec<Piece>,
        piece: &Piece,
        first: &mut bool,
        file: i32,
        rank: i32,
        check_first: bool,
    ) -> (legal: bool)
        requires
            self.wf(),
        ensures
            legal == (on_board(file as int, rank as int) && !self.allied_at(
                pieces@,
                piece.color,
                file as int,
                rank as int,
            ) && (check_first ==> *old(first))),
            *final(first) == (*old(first) && !(check_first && legal && self.enemy_at(
                pieces@,
                piece.color,
                file as int,
                rank as int,
            ))),
    {
        if !Board::is_inside_board(file, rank) {
            return false;
        }
        if check_first && !*first {
            return false;
        }
        if self.is_allied(pieces, piece, file, rank) {
            return false;
        }
        if check_first && self.is_attacking(pieces, piece, file, rank) {
            *first = false;
        }
        true
    }
}

} // verus!
