//! How far rays go: the ray-blocking rule and what follows from it.

use crate::board::{on_board, Board};
use crate::movegen::{forward, knight_offsets, room, rook_directions};
use crate::piece::{Color, Kind, Piece};
use vstd::prelude::*;

verus! {

/// The coordinate `k` steps of size `step` away from `start`.
pub open spec fn along(start: int, step: int, k: int) -> int {
    start + k * step
}

/// Walking one step and then `k` more is walking `k + 1` steps.
pub proof fn lemma_along_step(start: int, step: int, k: int)
    ensures
        along(start + step, step, k) == along(start, step, k + 1),
        along(start, step, 0) == start,
        along(start, step, 1) == start + step,
{
    assert((k + 1) * step == k * step + step) by (nonlinear_arith);
}

impl Board {
    /// A piece of `color` may come to stand on the square: it lies on the
    /// board and is empty or held by an enemy.
    pub open spec fn enterable(&self, pieces: Seq<Piece>, color: Color, file: int, rank: int) -> bool {
        on_board(file, rank) && (self.empty_at(file, rank) || self.enemy_at(
            pieces,
            color,
            file,
            rank,
        ))
    }

    /// The first `n` squares beyond `(file, rank)` in direction `(df, dr)` lie
    /// on the board and are empty.
    pub open spec fn clear_for(&self, file: int, rank: int, df: int, dr: int, n: int) -> bool {
        forall|j: int|
            1 <= j <= n ==> on_board(#[trigger] along(file, df, j), along(rank, dr, j))
                && self.empty_at(along(file, df, j), along(rank, dr, j))
    }

    /// A ray of `n` squares is the right length: the way to its last square is
    /// clear, that square can be entered, and the ray cannot go on, because it
    /// has taken an enemy or because the square after it cannot be entered.
    pub open spec fn ray_ends_after(
        &self,
        pieces: Seq<Piece>,
        color: Color,
        file: int,
        rank: int,
        df: int,
        dr: int,
        n: int,
    ) -> bool {
        &&& 0 <= n
        &&& self.clear_for(file, rank, df, dr, n - 1)
        &&& n > 0 ==> self.enterable(pieces, color, along(file, df, n), along(rank, dr, n))
        &&& (n > 0 && self.enemy_at(pieces, color, along(file, df, n), along(rank, dr, n)))
            || !self.enterable(pieces, color, along(file, df, n + 1), along(rank, dr, n + 1))
    }

    /// The ray-blocking rule. The squares of a ray are the first, second,
    /// third, ... square in its direction with no gap, and the ray ends
    /// where `ray_ends_after` says.
    pub proof fn lemma_ray_prefix(
        &self,
        pieces: Seq<Piece>,
        color: Color,
        file: int,
        rank: int,
        df: int,
        dr: int,
    )
        requires
            df != 0 || dr != 0,
        ensures
            forall|i: int|
                0 <= i < self.ray(pieces, color, file, rank, df, dr).len() ==> (
                #[trigger] self.ray(pieces, color, file, rank, df, dr)[i]) == (
                    along(file, df, i + 1) as i16,
                    along(rank, dr, i + 1) as i16,
                ),
            self.ray_ends_after(
                pieces,
                color,
                file,
                rank,
                df,
                dr,
                self.ray(pieces, color, file, rank, df, dr).len() as int,
            ),
        decreases room(file, rank, df, dr),
    {
        let whole = self.ray(pieces, color, file, rank, df, dr);
        let n = whole.len() as int;
        let f = file + df;
        let r = rank + dr;
        lemma_along_step(file, df, 0);
        lemma_along_step(rank, dr, 0);
        if on_board(f, r) && self.empty_at(f, r) {
            let rest = self.ray(pieces, color, f, r, df, dr);
            self.lemma_ray_prefix(pieces, color, f, r, df, dr);
            assert(n == rest.len() + 1);
            assert forall|i: int| 0 <= i < n implies (#[trigger] whole[i]) == (
                along(file, df, i + 1) as i16,
                along(rank, dr, i + 1) as i16,
            ) by {
                if i > 0 {
                    assert(whole[i] == rest[i - 1]);
                    lemma_along_step(file, df, i);
                    lemma_along_step(rank, dr, i);
                }
            }
            assert forall|j: int| 1 <= j <= n - 1 implies on_board(
                #[trigger] along(file, df, j),
                along(rank, dr, j),
            ) && self.empty_at(along(file, df, j), along(rank, dr, j)) by {
                lemma_along_step(file, df, j - 1);
                lemma_along_step(rank, dr, j - 1);
                if j > 1 {
                    assert(on_board(along(f, df, j - 1), along(r, dr, j - 1)));
                }
            }
            lemma_along_step(file, df, n - 1);
            lemma_along_step(rank, dr, n - 1);
            lemma_along_step(file, df, n);
            lemma_along_step(rank, dr, n);
        } else {
            lemma_along_step(file, df, 1);
            lemma_along_step(rank, dr, 1);
        }
    }

    /// The length that `ray_ends_after` allows is the length of the ray: a
    /// ray is as long as the rule says and no longer.
    pub proof fn lemma_ray_length(
        &self,
        pieces: Seq<Piece>,
        color: Color,
        file: int,
        rank: int,
        df: int,
        dr: int,
        n: int,
    )
        requires
            df != 0 || dr != 0,
            self.ray_ends_after(pieces, color, file, rank, df, dr, n),
        ensures
            self.ray(pieces, color, file, rank, df, dr).len() == n,
        decreases n,
    {
        let f = file + df;
        let r = rank + dr;
        lemma_along_step(file, df, 0);
        lemma_along_step(rank, dr, 0);
        if n == 0 {
        } else if n == 1 {
            if self.empty_at(f, r) {
                lemma_along_step(file, df, 1);
                lemma_along_step(rank, dr, 1);
                lemma_along_step(f, df, 0);
                lemma_along_step(r, dr, 0);
                assert(self.ray_ends_after(pieces, color, f, r, df, dr, 0));
                self.lemma_ray_length(pieces, color, f, r, df, dr, 0);
            }
        } else {
            assert(on_board(along(file, df, 1), along(rank, dr, 1)) && self.empty_at(
                along(file, df, 1),
                along(rank, dr, 1),
            ));
            assert forall|j: int| 1 <= j <= n - 2 implies on_board(
                #[trigger] along(f, df, j),
                along(r, dr, j),
            ) && self.empty_at(along(f, df, j), along(r, dr, j)) by {
                lemma_along_step(file, df, j);
                lemma_along_step(rank, dr, j);
                assert(on_board(along(file, df, j + 1), along(rank, dr, j + 1)));
            }
            lemma_along_step(file, df, n - 1);
            lemma_along_step(rank, dr, n - 1);
            lemma_along_step(file, df, n);
            lemma_along_step(rank, dr, n);
            assert(self.ray_ends_after(pieces, color, f, r, df, dr, n - 1));
            self.lemma_ray_length(pieces, color, f, r, df, dr, n - 1);
        }
    }

    /// A ray whose way is clear up to a piece of the same color, `k` squares
    /// away, has the `k - 1` squares before that piece and no more.
    pub proof fn lemma_ray_before_friend(
        &self,
        pieces: Seq<Piece>,
        color: Color,
        file: int,
        rank: int,
        df: int,
        dr: int,
        k: int,
    )
        requires
            df != 0 || dr != 0,
            k >= 1,
            self.clear_for(file, rank, df, dr, k - 1),
            self.allied_at(pieces, color, along(file, df, k), along(rank, dr, k)),
        ensures
            self.ray(pieces, color, file, rank, df, dr).len() == k - 1,
    {
        if k > 1 {
            assert(on_board(along(file, df, k - 1), along(rank, dr, k - 1)));
        }
        self.lemma_ray_length(pieces, color, file, rank, df, dr, k - 1);
    }

    /// A ray whose way is clear up to an enemy piece, `k` squares away, has
    /// the `k` squares up to and with that piece and no more.
    pub proof fn lemma_ray_onto_enemy(
        &self,
        pieces: Seq<Piece>,
        color: Color,
        file: int,
        rank: int,
        df: int,
        dr: int,
        k: int,
    )
        requires
            df != 0 || dr != 0,
            k >= 1,
            self.clear_for(file, rank, df, dr, k - 1),
            on_board(along(file, df, k), along(rank, dr, k)),
            self.enemy_at(pieces, color, along(file, df, k), along(rank, dr, k)),
        ensures
            self.ray(pieces, color, file, rank, df, dr).len() == k,
            self.ray(pieces, color, file, rank, df, dr)[k - 1] == (
                along(file, df, k) as i16,
                along(rank, dr, k) as i16,
            ),
    {
        self.lemma_ray_length(pieces, color, file, rank, df, dr, k);
        self.lemma_ray_prefix(pieces, color, file, rank, df, dr);
    }

    /// A ray whose way is clear for `n` squares, with the edge of the board
    /// right after them, has those `n` squares and no more.
    pub proof fn lemma_ray_to_edge(
        &self,
        pieces: Seq<Piece>,
        color: Color,
        file: int,
        rank: int,
        df: int,
        dr: int,
        n: int,
    )
        requires
            df != 0 || dr != 0,
            n >= 0,
            self.clear_for(file, rank, df, dr, n),
            !on_board(along(file, df, n + 1), along(rank, dr, n + 1)),
        ensures
            self.ray(pieces, color, file, rank, df, dr).len() == n,
    {
        if n > 0 {
            assert(on_board(along(file, df, n), along(rank, dr, n)));
        }
        self.lemma_ray_length(pieces, color, file, rank, df, dr, n);
    }

    /// One more direction adds its ray behind the rays of the others.
    pub proof fn lemma_lines_push(
        &self,
        pieces: Seq<Piece>,
        color: Color,
        file: int,
        rank: int,
        directions: Seq<(i16, i16)>,
        direction: (i16, i16),
    )
        ensures
            self.lines(pieces, color, file, rank, directions.push(direction)) == self.lines(
                pieces,
                color,
                file,
                rank,
                directions,
            ) + self.ray(pieces, color, file, rank, direction.0 as int, direction.1 as int),
    {
        assert(directions.push(direction).drop_last() =~= directions);
    }

    /// The rays of a rook are, in this order, those to the right, down, to
    /// the left and up.
    pub proof fn lemma_rook_lines(&self, pieces: Seq<Piece>, color: Color, file: int, rank: int)
        ensures
            self.lines(pieces, color, file, rank, rook_directions()) == self.ray(
                pieces,
                color,
                file,
                rank,
                1,
                0,
            ) + self.ray(pieces, color, file, rank, 0, -1) + self.ray(
                pieces,
                color,
                file,
                rank,
                -1,
                0,
            ) + self.ray(pieces, color, file, rank, 0, 1),
    {
        let d0 = Seq::<(i16, i16)>::empty();
        let d1 = d0.push((1i16, 0i16));
        let d2 = d1.push((0i16, -1i16));
        let d3 = d2.push((-1i16, 0i16));
        assert(rook_directions() =~= d3.push((0i16, 1i16)));
        self.lemma_lines_push(pieces, color, file, rank, d0, (1i16, 0i16));
        self.lemma_lines_push(pieces, color, file, rank, d1, (0i16, -1i16));
        self.lemma_lines_push(pieces, color, file, rank, d2, (-1i16, 0i16));
        self.lemma_lines_push(pieces, color, file, rank, d3, (0i16, 1i16));
        assert(self.lines(pieces, color, file, rank, d0) =~= Seq::<(i16, i16)>::empty());
        assert(self.lines(pieces, color, file, rank, d1) =~= self.ray(
            pieces,
            color,
            file,
            rank,
            1,
            0,
        ));
    }

    /// A rook with nothing else on the board has fourteen destinations, seven
    /// along its file and seven along its rank, wherever it stands.
    pub proof fn lemma_lone_rook(&self, pieces: Seq<Piece>, piece: Piece, file: int, rank: int)
        requires
            piece.kind == Kind::Rook,
            on_board(file, rank),
            forall|f: int, r: int|
                on_board(f, r) && !(f == file && r == rank) ==> #[trigger] self.empty_at(f, r),
        ensures
            self.legal_moves(pieces, piece, file, rank).len() == 14,
            self.ray(pieces, piece.color, file, rank, 1, 0).len() + self.ray(
                pieces,
                piece.color,
                file,
                rank,
                -1,
                0,
            ).len() == 7,
            self.ray(pieces, piece.color, file, rank, 0, 1).len() + self.ray(
                pieces,
                piece.color,
                file,
                rank,
                0,
                -1,
            ).len() == 7,
    {
        let color = piece.color;
        self.lemma_rook_lines(pieces, color, file, rank);
        assert forall|j: int| 1 <= j <= 7 - file implies on_board(
            #[trigger] along(file, 1, j),
            along(rank, 0, j),
        ) && self.empty_at(along(file, 1, j), along(rank, 0, j)) by {}
        self.lemma_ray_to_edge(pieces, color, file, rank, 1, 0, 7 - file);
        assert forall|j: int| 1 <= j <= rank implies on_board(
            #[trigger] along(file, 0, j),
            along(rank, -1, j),
        ) && self.empty_at(along(file, 0, j), along(rank, -1, j)) by {}
        self.lemma_ray_to_edge(pieces, color, file, rank, 0, -1, rank);
        assert forall|j: int| 1 <= j <= file implies on_board(
            #[trigger] along(file, -1, j),
            along(rank, 0, j),
        ) && self.empty_at(along(file, -1, j), along(rank, 0, j)) by {}
        self.lemma_ray_to_edge(pieces, color, file, rank, -1, 0, file);
        assert forall|j: int| 1 <= j <= 7 - rank implies on_board(
            #[trigger] along(file, 0, j),
            along(rank, 1, j),
        ) && self.empty_at(along(file, 0, j), along(rank, 1, j)) by {}
        self.lemma_ray_to_edge(pieces, color, file, rank, 0, 1, 7 - rank);
    }

    /// Offsets that all lead to squares of the board without a piece of the
    /// same color give one destination each.
    pub proof fn lemma_steps_all_kept(
        &self,
        pieces: Seq<Piece>,
        color: Color,
        file: int,
        rank: int,
        offsets: Seq<(i16, i16)>,
    )
        requires
            forall|i: int|
                0 <= i < offsets.len() ==> on_board(
                    file + (#[trigger] offsets[i]).0,
                    rank + offsets[i].1,
                ) && !self.allied_at(pieces, color, file + offsets[i].0, rank + offsets[i].1),
        ensures
            self.steps(pieces, color, file, rank, offsets).len() == offsets.len(),
        decreases offsets.len(),
    {
        if offsets.len() > 0 {
            let fewer = offsets.drop_last();
            assert forall|i: int| 0 <= i < fewer.len() implies on_board(
                file + (#[trigger] fewer[i]).0,
                rank + fewer[i].1,
            ) && !self.allied_at(pieces, color, file + fewer[i].0, rank + fewer[i].1) by {
                assert(fewer[i] == offsets[i]);
            }
            self.lemma_steps_all_kept(pieces, color, file, rank, fewer);
            assert(offsets.last() == offsets[offsets.len() - 1]);
        }
    }

    /// A knight at least two squares away from every edge, with no piece of
    /// its own color a jump away, has eight destinations.
    pub proof fn lemma_central_knight(
        &self,
        pieces: Seq<Piece>,
        piece: Piece,
        file: int,
        rank: int,
    )
        requires
            piece.kind == Kind::Knight,
            2 <= file <= 5,
            2 <= rank <= 5,
            forall|f: int, r: int|
                on_board(f, r) && !(f == file && r == rank) ==> !#[trigger] self.allied_at(
                    pieces,
                    piece.color,
                    f,
                    r,
                ),
        ensures
            self.legal_moves(pieces, piece, file, rank).len() == 8,
    {
        let offsets = knight_offsets();
        assert forall|i: int| 0 <= i < offsets.len() implies on_board(
            file + (#[trigger] offsets[i]).0,
            rank + offsets[i].1,
        ) && !self.allied_at(pieces, piece.color, file + offsets[i].0, rank + offsets[i].1) by {
            assert(-2 <= offsets[i].0 <= 2 && -2 <= offsets[i].1 <= 2 && offsets[i] != (0i16, 0i16));
        }
        self.lemma_steps_all_kept(pieces, piece.color, file, rank, offsets);
    }

    /// A pawn with an enemy on one of the two squares diagonally ahead, no
    /// enemy on the other, and the square straight ahead on the board has two
    /// destinations if that square is empty and one if a piece stands on it.
    pub proof fn lemma_pawn_with_one_capture(
        &self,
        pieces: Seq<Piece>,
        piece: Piece,
        file: int,
        rank: int,
        side: int,
    )
        requires
            piece.kind == Kind::Pawn,
            side == 1 || side == -1,
            on_board(file, rank + forward(piece.color)),
            on_board(file + side, rank + forward(piece.color)),
            self.enemy_at(pieces, piece.color, file + side, rank + forward(piece.color)),
            !(on_board(file - side, rank + forward(piece.color)) && self.enemy_at(
                pieces,
                piece.color,
                file - side,
                rank + forward(piece.color),
            )),
        ensures
            self.legal_moves(pieces, piece, file, rank).len() == (if self.empty_at(
                file,
                rank + forward(piece.color),
            ) {
                2int
            } else {
                1int
            }),
    {
    }
}

} // verus!
