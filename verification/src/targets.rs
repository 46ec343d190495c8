//! What the destinations of a piece are, said without reference to how they are found.

use crate::board::{on_board, Board};
use crate::movegen::{
    bishop_directions, forward, king_offsets, knight_offsets, queen_directions, rook_directions,
};
use crate::piece::{Color, Kind, Piece};
use crate::reach::along;
use vstd::prelude::*;

verus! {

/// Each component of a direction is -1, 0 or 1, and not both are 0.
pub open spec fn is_unit_direction(direction: (i16, i16)) -> bool {
    &&& -1 <= direction.0 <= 1
    &&& -1 <= direction.1 <= 1
    &&& direction != (0i16, 0i16)
}

/// All the directions of a list are unit directions.
pub open spec fn all_unit_directions(directions: Seq<(i16, i16)>) -> bool {
    forall|i: int| 0 <= i < directions.len() ==> is_unit_direction(#[trigger] directions[i])
}

/// The fixed lists: no offset stays in place, no offset or direction comes
/// twice, and the directions are unit directions.
pub proof fn lemma_fixed_lists()
    ensures
        knight_offsets().no_duplicates(),
        king_offsets().no_duplicates(),
        !knight_offsets().contains((0i16, 0i16)),
        !king_offsets().contains((0i16, 0i16)),
        bishop_directions().no_duplicates(),
        rook_directions().no_duplicates(),
        queen_directions().no_duplicates(),
        all_unit_directions(bishop_directions()),
        all_unit_directions(rook_directions()),
        all_unit_directions(queen_directions()),
{
    assert(queen_directions() =~= seq![
        (1i16, 1i16),
        (1i16, -1i16),
        (-1i16, -1i16),
        (-1i16, 1i16),
        (1i16, 0i16),
        (0i16, -1i16),
        (-1i16, 0i16),
        (0i16, 1i16),
    ]);
}

/// Steps of unit size in two directions that end on the same coordinate
/// have the same direction.
pub proof fn lemma_unit_steps_agree(a: int, b: int, j: int, k: int)
    requires
        -1 <= a <= 1,
        -1 <= b <= 1,
        j >= 1,
        k >= 1,
        j * a == k * b,
    ensures
        a == b,
{
    assert(j * 1 == j && j * 0 == 0 && j * (-1) == -j);
    assert(k * 1 == k && k * 0 == 0 && k * (-1) == -k);
}

/// Two numbers of steps in one direction that end on the same square are
/// the same number.
pub proof fn lemma_steps_agree(a: int, b: int, j: int, k: int)
    requires
        a != 0 || b != 0,
        j * a == k * a,
        j * b == k * b,
    ensures
        j == k,
{
    assert(j * a == k * a && a != 0 ==> j == k) by (nonlinear_arith);
    assert(j * b == k * b && b != 0 ==> j == k) by (nonlinear_arith);
}

impl Board {
    /// `(f, r)` is one step from `(file, rank)` by one of the offsets, on the
    /// board and not held by a piece of `color`.
    pub open spec fn steps_to(
        &self,
        pieces: Seq<Piece>,
        color: Color,
        file: int,
        rank: int,
        offsets: Seq<(i16, i16)>,
        f: int,
        r: int,
    ) -> bool {
        &&& on_board(f, r)
        &&& !self.allied_at(pieces, color, f, r)
        &&& exists|i: int|
            0 <= i < offsets.len() && f == file + (#[trigger] offsets[i]).0 && r == rank
                + offsets[i].1
    }

    /// `(f, r)` is the `k`-th square from `(file, rank)` in direction
    /// `(df, dr)`, the way to it is clear, and a piece of `color` may enter it.
    pub open spec fn slides_in(
        &self,
        pieces: Seq<Piece>,
        color: Color,
        file: int,
        rank: int,
        df: int,
        dr: int,
        k: int,
        f: int,
        r: int,
    ) -> bool {
        &&& k >= 1
        &&& f == along(file, df, k)
        &&& r == along(rank, dr, k)
        &&& self.enterable(pieces, color, f, r)
        &&& self.clear_for(file, rank, df, dr, k - 1)
    }

    /// A sliding piece of `color` on `(file, rank)` comes to `(f, r)` along
    /// the direction `(df, dr)`.
    pub open spec fn slides_to(
        &self,
        pieces: Seq<Piece>,
        color: Color,
        file: int,
        rank: int,
        df: int,
        dr: int,
        f: int,
        r: int,
    ) -> bool {
        (df != 0 || dr != 0) && exists|k: int| #[trigger]
            self.slides_in(pieces, color, file, rank, df, dr, k, f, r)
    }

    /// The squares of `steps` are those that `steps_to` names.
    pub proof fn lemma_steps_targets(
        &self,
        pieces: Seq<Piece>,
        color: Color,
        file: int,
        rank: int,
        offsets: Seq<(i16, i16)>,
    )
        ensures
            forall|e: (i16, i16)| #[trigger]
                self.steps(pieces, color, file, rank, offsets).contains(e) <==> self.steps_to(
                    pieces,
                    color,
                    file,
                    rank,
                    offsets,
                    e.0 as int,
                    e.1 as int,
                ),
        decreases offsets.len(),
    {
        let all = self.steps(pieces, color, file, rank, offsets);
        if offsets.len() > 0 {
            let fewer = offsets.drop_last();
            let before = self.steps(pieces, color, file, rank, fewer);
            let last = offsets.len() - 1;
            let f = file + offsets[last].0;
            let r = rank + offsets[last].1;
            let kept = on_board(f, r) && !self.allied_at(pieces, color, f, r);
            self.lemma_steps_targets(pieces, color, file, rank, fewer);
            assert forall|e: (i16, i16)| #[trigger] all.contains(e) implies self.steps_to(
                pieces,
                color,
                file,
                rank,
                offsets,
                e.0 as int,
                e.1 as int,
            ) by {
                let j = choose|j: int| 0 <= j < all.len() && all[j] == e;
                if j < before.len() {
                    assert(before[j] == e);
                    assert(before.contains(e));
                    let i = choose|i: int|
                        0 <= i < fewer.len() && e.0 as int == file + (#[trigger] fewer[i]).0
                            && e.1 as int == rank + fewer[i].1;
                    assert(offsets[i] == fewer[i]);
                } else {
                    assert(e.0 as int == file + offsets[last].0);
                }
            }
            assert forall|e: (i16, i16)|
                self.steps_to(
                    pieces,
                    color,
                    file,
                    rank,
                    offsets,
                    e.0 as int,
                    e.1 as int,
                ) implies #[trigger] all.contains(e) by {
                let i = choose|i: int|
                    0 <= i < offsets.len() && e.0 as int == file + (#[trigger] offsets[i]).0
                        && e.1 as int == rank + offsets[i].1;
                if i < last {
                    assert(fewer[i] == offsets[i]);
                    assert(before.contains(e));
                    let j = choose|j: int| 0 <= j < before.len() && before[j] == e;
                    assert(all[j] == e);
                } else {
                    assert(kept);
                    assert(all[before.len() as int] == e);
                }
            }
        }
    }

    /// The squares of `ray` are those that `slides_to` names.
    pub proof fn lemma_ray_targets(
        &self,
        pieces: Seq<Piece>,
        color: Color,
        file: int,
        rank: int,
        df: int,
        dr: int,
    )
        ensures
            forall|e: (i16, i16)| #[trigger]
                self.ray(pieces, color, file, rank, df, dr).contains(e) <==> self.slides_to(
                    pieces,
                    color,
                    file,
                    rank,
                    df,
                    dr,
                    e.0 as int,
                    e.1 as int,
                ),
    {
        let all = self.ray(pieces, color, file, rank, df, dr);
        let n = all.len() as int;
        if df != 0 || dr != 0 {
            self.lemma_ray_prefix(pieces, color, file, rank, df, dr);
            assert forall|e: (i16, i16)| #[trigger] all.contains(e) implies self.slides_to(
                pieces,
                color,
                file,
                rank,
                df,
                dr,
                e.0 as int,
                e.1 as int,
            ) by {
                let j = choose|j: int| 0 <= j < all.len() && all[j] == e;
                if j + 1 < n {
                    assert(on_board(along(file, df, j + 1), along(rank, dr, j + 1)));
                }
                assert(self.slides_in(
                    pieces,
                    color,
                    file,
                    rank,
                    df,
                    dr,
                    j + 1,
                    e.0 as int,
                    e.1 as int,
                ));
            }
            assert forall|e: (i16, i16)|
                self.slides_to(
                    pieces,
                    color,
                    file,
                    rank,
                    df,
                    dr,
                    e.0 as int,
                    e.1 as int,
                ) implies #[trigger] all.contains(e) by {
                let k = choose|k: int| #[trigger]
                    self.slides_in(pieces, color, file, rank, df, dr, k, e.0 as int, e.1 as int);
                if k > n {
                    if n > 0 {
                        assert(on_board(along(file, df, n), along(rank, dr, n)));
                    }
                    if n + 1 < k {
                        assert(on_board(along(file, df, n + 1), along(rank, dr, n + 1)));
                    }
                    assert(false);
                }
                assert(all[k - 1] == e);
            }
        }
    }

    /// A sliding piece of `color` on `(file, rank)` comes to `(f, r)` along
    /// one of the directions.
    pub open spec fn lines_to(
        &self,
        pieces: Seq<Piece>,
        color: Color,
        file: int,
        rank: int,
        directions: Seq<(i16, i16)>,
        f: int,
        r: int,
    ) -> bool {
        exists|i: int|
            0 <= i < directions.len() && self.slides_to(
                pieces,
                color,
                file,
                rank,
                (#[trigger] directions[i]).0 as int,
                directions[i].1 as int,
                f,
                r,
            )
    }

    /// A pawn of `color` on `(file, rank)` comes to `(f, r)`: one rank ahead,
    /// either beside its file onto an enemy or on its file onto an empty square.
    pub open spec fn pawn_to(
        &self,
        pieces: Seq<Piece>,
        color: Color,
        file: int,
        rank: int,
        f: int,
        r: int,
    ) -> bool {
        &&& on_board(f, r)
        &&& r == rank + forward(color)
        &&& ((f == file - 1 || f == file + 1) && self.enemy_at(pieces, color, f, r)) || (f == file
            && self.empty_at(f, r))
    }

    /// What it means that `(f, r)` is a pseudo-legal destination of `piece`
    /// standing on `(file, rank)`.
    pub open spec fn is_target(
        &self,
        pieces: Seq<Piece>,
        piece: Piece,
        file: int,
        rank: int,
        f: int,
        r: int,
    ) -> bool {
        match piece.kind {
            Kind::Pawn => self.pawn_to(pieces, piece.color, file, rank, f, r),
            Kind::Bishop => self.lines_to(
                pieces,
                piece.color,
                file,
                rank,
                bishop_directions(),
                f,
                r,
            ),
            Kind::Knight => self.steps_to(pieces, piece.color, file, rank, knight_offsets(), f, r),
            Kind::Rook => self.lines_to(pieces, piece.color, file, rank, rook_directions(), f, r),
            Kind::Queen => self.lines_to(pieces, piece.color, file, rank, queen_directions(), f, r),
            Kind::King => self.steps_to(pieces, piece.color, file, rank, king_offsets(), f, r),
        }
    }

    /// The squares of `lines` are those that `lines_to` names.
    pub proof fn lemma_lines_targets(
        &self,
        pieces: Seq<Piece>,
        color: Color,
        file: int,
        rank: int,
        directions: Seq<(i16, i16)>,
    )
        ensures
            forall|e: (i16, i16)| #[trigger]
                self.lines(pieces, color, file, rank, directions).contains(e) <==> self.lines_to(
                    pieces,
                    color,
                    file,
                    rank,
                    directions,
                    e.0 as int,
                    e.1 as int,
                ),
        decreases directions.len(),
    {
        let all = self.lines(pieces, color, file, rank, directions);
        if directions.len() > 0 {
            let fewer = directions.drop_last();
            let before = self.lines(pieces, color, file, rank, fewer);
            let last = directions.len() - 1;
            let df = directions[last].0 as int;
            let dr = directions[last].1 as int;
            let end = self.ray(pieces, color, file, rank, df, dr);
            self.lemma_lines_targets(pieces, color, file, rank, fewer);
            self.lemma_ray_targets(pieces, color, file, rank, df, dr);
            assert forall|e: (i16, i16)| #[trigger] all.contains(e) implies self.lines_to(
                pieces,
                color,
                file,
                rank,
                directions,
                e.0 as int,
                e.1 as int,
            ) by {
                let j = choose|j: int| 0 <= j < all.len() && all[j] == e;
                if j < before.len() {
                    assert(before[j] == e);
                    assert(before.contains(e));
                    let i = choose|i: int|
                        0 <= i < fewer.len() && self.slides_to(
                            pieces,
                            color,
                            file,
                            rank,
                            (#[trigger] fewer[i]).0 as int,
                            fewer[i].1 as int,
                            e.0 as int,
                            e.1 as int,
                        );
                    assert(directions[i] == fewer[i]);
                } else {
                    assert(end[j - before.len()] == e);
                    assert(end.contains(e));
                    assert(directions[last].0 as int == df);
                }
            }
            assert forall|e: (i16, i16)|
                self.lines_to(
                    pieces,
                    color,
                    file,
                    rank,
                    directions,
                    e.0 as int,
                    e.1 as int,
                ) implies #[trigger] all.contains(e) by {
                let i = choose|i: int|
                    0 <= i < directions.len() && self.slides_to(
                        pieces,
                        color,
                        file,
                        rank,
                        (#[trigger] directions[i]).0 as int,
                        directions[i].1 as int,
                        e.0 as int,
                        e.1 as int,
                    );
                if i < last {
                    assert(fewer[i] == directions[i]);
                    assert(before.contains(e));
                    let j = choose|j: int| 0 <= j < before.len() && before[j] == e;
                    assert(all[j] == e);
                } else {
                    assert(end.contains(e));
                    let j = choose|j: int| 0 <= j < end.len() && end[j] == e;
                    assert(all[(before.len() + j) as int] == e);
                }
            }
        }
    }

    /// The squares of `pawn_moves` are those that `pawn_to` names.
    pub proof fn lemma_pawn_targets(&self, pieces: Seq<Piece>, color: Color, file: int, rank: int)
        ensures
            forall|e: (i16, i16)| #[trigger]
                self.pawn_moves(pieces, color, file, rank).contains(e) <==> self.pawn_to(
                    pieces,
                    color,
                    file,
                    rank,
                    e.0 as int,
                    e.1 as int,
                ),
    {
        let ahead = rank + forward(color);
        let left = self.pawn_attack(pieces, color, file - 1, ahead);
        let right = self.pawn_attack(pieces, color, file + 1, ahead);
        let straight = self.pawn_advance(file, ahead);
        let all = self.pawn_moves(pieces, color, file, rank);
        assert forall|e: (i16, i16)| #[trigger] all.contains(e) implies self.pawn_to(
            pieces,
            color,
            file,
            rank,
            e.0 as int,
            e.1 as int,
        ) by {
            let j = choose|j: int| 0 <= j < all.len() && all[j] == e;
            if j < left.len() {
                assert(left[j] == e);
            } else if j < left.len() + right.len() {
                assert(right[j - left.len()] == e);
            } else {
                assert(straight[j - left.len() - right.len()] == e);
            }
        }
        assert forall|e: (i16, i16)|
            self.pawn_to(pieces, color, file, rank, e.0 as int, e.1 as int) implies #[trigger] all.contains(
            e,
        ) by {
            if e.0 as int == file - 1 {
                assert(all[0] == e);
            } else if e.0 as int == file + 1 {
                assert(all[left.len() as int] == e);
            } else {
                assert(all[(left.len() + right.len()) as int] == e);
            }
        }
    }

    /// The destinations of a piece are the squares that `is_target` names,
    /// all of them and no others.
    pub proof fn lemma_destinations_are_targets(
        &self,
        pieces: Seq<Piece>,
        piece: Piece,
        file: int,
        rank: int,
    )
        ensures
            forall|e: (i16, i16)| #[trigger]
                self.destinations(pieces, piece, file, rank).contains(e) <==> self.is_target(
                    pieces,
                    piece,
                    file,
                    rank,
                    e.0 as int,
                    e.1 as int,
                ),
    {
        let color = piece.color;
        match piece.kind {
            Kind::Pawn => self.lemma_pawn_targets(pieces, color, file, rank),
            Kind::Bishop => self.lemma_lines_targets(
                pieces,
                color,
                file,
                rank,
                bishop_directions(),
            ),
            Kind::Knight => self.lemma_steps_targets(pieces, color, file, rank, knight_offsets()),
            Kind::Rook => self.lemma_lines_targets(pieces, color, file, rank, rook_directions()),
            Kind::Queen => self.lemma_lines_targets(pieces, color, file, rank, queen_directions()),
            Kind::King => self.lemma_steps_targets(pieces, color, file, rank, king_offsets()),
        }
    }

    /// A destination is never the square the piece stands on.
    pub proof fn lemma_target_leaves_origin(
        &self,
        pieces: Seq<Piece>,
        piece: Piece,
        file: int,
        rank: int,
        f: int,
        r: int,
    )
        requires
            self.is_target(pieces, piece, file, rank, f, r),
        ensures
            !(f == file && r == rank),
    {
        let color = piece.color;
        lemma_fixed_lists();
        if f == file && r == rank {
            match piece.kind {
                Kind::Pawn => {},
                Kind::Knight => {
                    let i = choose|i: int|
                        0 <= i < knight_offsets().len() && f == file + (
                        #[trigger] knight_offsets()[i]).0 && r == rank + knight_offsets()[i].1;
                    assert(knight_offsets()[i] == (0i16, 0i16));
                },
                Kind::King => {
                    let i = choose|i: int|
                        0 <= i < king_offsets().len() && f == file + (
                        #[trigger] king_offsets()[i]).0 && r == rank + king_offsets()[i].1;
                    assert(king_offsets()[i] == (0i16, 0i16));
                },
                _ => {
                    let directions = match piece.kind {
                        Kind::Bishop => bishop_directions(),
                        Kind::Rook => rook_directions(),
                        _ => queen_directions(),
                    };
                    let i = choose|i: int|
                        0 <= i < directions.len() && self.slides_to(
                            pieces,
                            color,
                            file,
                            rank,
                            (#[trigger] directions[i]).0 as int,
                            directions[i].1 as int,
                            f,
                            r,
                        );
                    let df = directions[i].0 as int;
                    let dr = directions[i].1 as int;
                    let k = choose|k: int| #[trigger]
                        self.slides_in(pieces, color, file, rank, df, dr, k, f, r);
                    lemma_steps_agree(df, dr, k, 0);
                },
            }
        }
    }

    /// A destination lies on the board and never holds a piece of the
    /// mover's own color.
    pub proof fn lemma_target_is_no_friend(
        &self,
        pieces: Seq<Piece>,
        piece: Piece,
        file: int,
        rank: int,
        f: int,
        r: int,
    )
        requires
            self.is_target(pieces, piece, file, rank, f, r),
        ensures
            on_board(f, r),
            !self.allied_at(pieces, piece.color, f, r),
    {
        let color = piece.color;
        match piece.kind {
            Kind::Pawn => {},
            Kind::Knight => {},
            Kind::King => {},
            _ => {
                let directions = match piece.kind {
                    Kind::Bishop => bishop_directions(),
                    Kind::Rook => rook_directions(),
                    _ => queen_directions(),
                };
                let i = choose|i: int|
                    0 <= i < directions.len() && self.slides_to(
                        pieces,
                        color,
                        file,
                        rank,
                        (#[trigger] directions[i]).0 as int,
                        directions[i].1 as int,
                        f,
                        r,
                    );
                let df = directions[i].0 as int;
                let dr = directions[i].1 as int;
                let k = choose|k: int| #[trigger]
                    self.slides_in(pieces, color, file, rank, df, dr, k, f, r);
            },
        }
    }

    /// On a board whose identities all resolve, a destination is an empty
    /// square or a square with an enemy on it.
    pub proof fn lemma_target_is_empty_or_enemy(
        &self,
        pieces: Seq<Piece>,
        piece: Piece,
        file: int,
        rank: int,
        f: int,
        r: int,
    )
        requires
            self.wf(),
            self.resolves_in(pieces),
            self.is_target(pieces, piece, file, rank, f, r),
        ensures
            self.enterable(pieces, piece.color, f, r),
    {
        self.lemma_target_is_no_friend(pieces, piece, file, rank, f, r);
        self.lemma_occupied(pieces, piece.color, f, r);
    }

    /// Offsets that are all different lead to squares that are all different.
    pub proof fn lemma_steps_distinct(
        &self,
        pieces: Seq<Piece>,
        color: Color,
        file: int,
        rank: int,
        offsets: Seq<(i16, i16)>,
    )
        requires
            offsets.no_duplicates(),
        ensures
            self.steps(pieces, color, file, rank, offsets).no_duplicates(),
        decreases offsets.len(),
    {
        if offsets.len() > 0 {
            let fewer = offsets.drop_last();
            let before = self.steps(pieces, color, file, rank, fewer);
            let last = offsets.len() - 1;
            let f = file + offsets[last].0;
            let r = rank + offsets[last].1;
            self.lemma_steps_distinct(pieces, color, file, rank, fewer);
            self.lemma_steps_targets(pieces, color, file, rank, fewer);
            if on_board(f, r) && !self.allied_at(pieces, color, f, r) {
                let e = (f as i16, r as i16);
                if before.contains(e) {
                    let i = choose|i: int|
                        0 <= i < fewer.len() && e.0 as int == file + (#[trigger] fewer[i]).0
                            && e.1 as int == rank + fewer[i].1;
                    assert(offsets[i] == offsets[last]);
                }
                assert forall|i: int, j: int|
                    0 <= i < before.len() + 1 && 0 <= j < before.len() + 1 && i != j implies before.push(
                    e,
                )[i] != before.push(e)[j] by {
                    if i < before.len() {
                        assert(before.contains(before[i]));
                    }
                    if j < before.len() {
                        assert(before.contains(before[j]));
                    }
                }
            }
        }
    }

    /// No square comes twice in a ray.
    pub proof fn lemma_ray_distinct(
        &self,
        pieces: Seq<Piece>,
        color: Color,
        file: int,
        rank: int,
        df: int,
        dr: int,
    )
        ensures
            self.ray(pieces, color, file, rank, df, dr).no_duplicates(),
    {
        let all = self.ray(pieces, color, file, rank, df, dr);
        let n = all.len() as int;
        if df != 0 || dr != 0 {
            self.lemma_ray_prefix(pieces, color, file, rank, df, dr);
            self.lemma_ray_on_board(pieces, color, file, rank, df, dr);
            assert forall|i: int, j: int| 0 <= i < n && 0 <= j < n && i != j implies all[i]
                != all[j] by {
                if all[i] == all[j] {
                    assert(on_board(all[i].0 as int, all[i].1 as int));
                    assert(on_board(all[j].0 as int, all[j].1 as int));
                    if i + 1 < n {
                        assert(on_board(along(file, df, i + 1), along(rank, dr, i + 1)));
                    }
                    if j + 1 < n {
                        assert(on_board(along(file, df, j + 1), along(rank, dr, j + 1)));
                    }
                    lemma_steps_agree(df, dr, i + 1, j + 1);
                }
            }
        }
    }

    /// Rays in unit directions that are all different share no square, so no
    /// square comes twice in their lines.
    pub proof fn lemma_lines_distinct(
        &self,
        pieces: Seq<Piece>,
        color: Color,
        file: int,
        rank: int,
        directions: Seq<(i16, i16)>,
    )
        requires
            directions.no_duplicates(),
            all_unit_directions(directions),
        ensures
            self.lines(pieces, color, file, rank, directions).no_duplicates(),
        decreases directions.len(),
    {
        if directions.len() > 0 {
            let fewer = directions.drop_last();
            let before = self.lines(pieces, color, file, rank, fewer);
            let last = directions.len() - 1;
            let df = directions[last].0 as int;
            let dr = directions[last].1 as int;
            let end = self.ray(pieces, color, file, rank, df, dr);
            assert(is_unit_direction(directions[last]));
            assert forall|i: int| 0 <= i < fewer.len() implies is_unit_direction(
                #[trigger] fewer[i],
            ) by {
                assert(fewer[i] == directions[i]);
            }
            self.lemma_lines_distinct(pieces, color, file, rank, fewer);
            self.lemma_ray_distinct(pieces, color, file, rank, df, dr);
            self.lemma_lines_targets(pieces, color, file, rank, fewer);
            self.lemma_ray_targets(pieces, color, file, rank, df, dr);
            assert forall|i: int, j: int| 0 <= i < before.len() && 0 <= j < end.len() implies before[i]
                != end[j] by {
                let e = before[i];
                if e == end[j] {
                    assert(before.contains(e));
                    assert(end.contains(e));
                    let d = choose|d: int|
                        0 <= d < fewer.len() && self.slides_to(
                            pieces,
                            color,
                            file,
                            rank,
                            (#[trigger] fewer[d]).0 as int,
                            fewer[d].1 as int,
                            e.0 as int,
                            e.1 as int,
                        );
                    let af = fewer[d].0 as int;
                    let ar = fewer[d].1 as int;
                    assert(is_unit_direction(fewer[d]));
                    let a = choose|a: int| #[trigger]
                        self.slides_in(
                            pieces,
                            color,
                            file,
                            rank,
                            af,
                            ar,
                            a,
                            e.0 as int,
                            e.1 as int,
                        );
                    let b = choose|b: int| #[trigger]
                        self.slides_in(
                            pieces,
                            color,
                            file,
                            rank,
                            df,
                            dr,
                            b,
                            e.0 as int,
                            e.1 as int,
                        );
                    lemma_unit_steps_agree(af, df, a, b);
                    lemma_unit_steps_agree(ar, dr, a, b);
                    assert(directions[d] == directions[last]);
                }
            }
            vstd::seq_lib::lemma_no_dup_in_concat(before, end);
        }
    }

    /// No square comes twice among the destinations of a piece.
    pub proof fn lemma_destinations_distinct(
        &self,
        pieces: Seq<Piece>,
        piece: Piece,
        file: int,
        rank: int,
    )
        ensures
            self.destinations(pieces, piece, file, rank).no_duplicates(),
            self.legal_moves(pieces, piece, file, rank).no_duplicates(),
    {
        let color = piece.color;
        lemma_fixed_lists();
        match piece.kind {
            Kind::Pawn => {},
            Kind::Bishop => self.lemma_lines_distinct(
                pieces,
                color,
                file,
                rank,
                bishop_directions(),
            ),
            Kind::Knight => self.lemma_steps_distinct(pieces, color, file, rank, knight_offsets()),
            Kind::Rook => self.lemma_lines_distinct(pieces, color, file, rank, rook_directions()),
            Kind::Queen => self.lemma_lines_distinct(pieces, color, file, rank, queen_directions()),
            Kind::King => self.lemma_steps_distinct(pieces, color, file, rank, king_offsets()),
        }
        let all = self.destinations(pieces, piece, file, rank);
        let moves = self.legal_moves(pieces, piece, file, rank);
        self.lemma_destinations_on_board(pieces, piece, file, rank);
        assert forall|i: int, j: int|
            0 <= i < moves.len() && 0 <= j < moves.len() && i != j implies moves[i]
            != moves[j] by {
            assert(on_board(all[i].0 as int, all[i].1 as int));
            assert(on_board(all[j].0 as int, all[j].1 as int));
            assert(all[i] != all[j]);
        }
    }

    /// The destinations as files and ranks are the squares that `is_target`
    /// names, all of them and no others.
    pub proof fn lemma_legal_moves_are_targets(
        &self,
        pieces: Seq<Piece>,
        piece: Piece,
        file: int,
        rank: int,
    )
        ensures
            forall|m: (u8, u8)| #[trigger]
                self.legal_moves(pieces, piece, file, rank).contains(m) <==> self.is_target(
                    pieces,
                    piece,
                    file,
                    rank,
                    m.0 as int,
                    m.1 as int,
                ),
    {
        let all = self.destinations(pieces, piece, file, rank);
        let moves = self.legal_moves(pieces, piece, file, rank);
        self.lemma_destinations_on_board(pieces, piece, file, rank);
        self.lemma_destinations_are_targets(pieces, piece, file, rank);
        assert forall|m: (u8, u8)| #[trigger] moves.contains(m) implies self.is_target(
            pieces,
            piece,
            file,
            rank,
            m.0 as int,
            m.1 as int,
        ) by {
            let j = choose|j: int| 0 <= j < moves.len() && moves[j] == m;
            assert(on_board(all[j].0 as int, all[j].1 as int));
            assert(all.contains(all[j]));
        }
        assert forall|m: (u8, u8)|
            self.is_target(pieces, piece, file, rank, m.0 as int, m.1 as int) implies #[trigger] moves.contains(
            m,
        ) by {
            self.lemma_target_is_no_friend(pieces, piece, file, rank, m.0 as int, m.1 as int);
            let e = (m.0 as i16, m.1 as i16);
            assert(all.contains(e));
            let j = choose|j: int| 0 <= j < all.len() && all[j] == e;
            assert(moves[j] == m);
        }
    }
}

} // verus!
