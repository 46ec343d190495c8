//! Pieces and the registry that holds the pieces in play.

use vstd::prelude::*;

verus! {

/// The side a piece belongs to.
#[derive(Clone, Copy, PartialEq, Eq, Structural, Debug, Hash)]
pub enum Color {
    White,
    Black,
}

/// The six kinds of chess piece.
#[derive(Clone, Copy, PartialEq, Eq, Structural, Debug, Hash)]
pub enum Kind {
    Pawn,
    Bishop,
    Knight,
    Rook,
    Queen,
    King,
}

/// A piece in play. `id` is the only handle that joins a piece to the square
/// it stands on.
#[derive(Clone, Copy, PartialEq, Eq, Structural, Debug)]
pub struct Piece {
    pub kind: Kind,
    pub id: u8,
    pub color: Color,
}

/// The identities of the pieces of a registry, in registry order.
pub open spec fn ids(pieces: Seq<Piece>) -> Seq<u8> {
    pieces.map_values(|p: Piece| p.id)
}

/// Where the first piece with this identity stands in the registry.
pub open spec fn first_index_of(pieces: Seq<Piece>, id: u8) -> Option<int> {
    ids(pieces).index_of_first(id)
}

/// Where the last piece with this identity stands in the registry.
pub open spec fn last_index_of(pieces: Seq<Piece>, id: u8) -> Option<int> {
    ids(pieces).index_of_last(id)
}

/// The piece that an identity resolves to: the first one that carries it.
pub open spec fn piece_with_id(pieces: Seq<Piece>, id: u8) -> Option<Piece> {
    match first_index_of(pieces, id) {
        Some(i) => Some(pieces[i]),
        None => None,
    }
}

/// The registry without the first piece that carries `id`; the registry
/// itself if no piece does.
pub open spec fn after_removal(pieces: Seq<Piece>, id: u8) -> Seq<Piece> {
    match first_index_of(pieces, id) {
        Some(i) => pieces.remove(i),
        None => pieces,
    }
}

/// Whether the registry holds a piece with this identity.
pub open spec fn holds_id(pieces: Seq<Piece>, id: u8) -> bool {
    ids(pieces).contains(id)
}

/// What `first_index_of` means: `Some(i)` exactly for the least `i` whose
/// piece carries `id`, `None` exactly when no piece does.
pub proof fn lemma_first_index_of(pieces: Seq<Piece>, id: u8)
    ensures
        match first_index_of(pieces, id) {
            Some(i) => {
                &&& 0 <= i < pieces.len()
                &&& pieces[i].id == id
                &&& forall|j: int| 0 <= j < i ==> (#[trigger] pieces[j]).id != id
            },
            None => forall|j: int| 0 <= j < pieces.len() ==> (#[trigger] pieces[j]).id != id,
        },
        first_index_of(pieces, id) is Some <==> holds_id(pieces, id),
{
    let s = ids(pieces);
    s.index_of_first_ensures(id);
    match s.index_of_first(id) {
        Some(i) => {
            assert forall|j: int| 0 <= j < i implies (#[trigger] pieces[j]).id != id by {
                assert(s[j] != id);
            }
        },
        None => {
            assert forall|j: int| 0 <= j < pieces.len() implies (#[trigger] pieces[j]).id
                != id by {
                assert(s[j] == pieces[j].id);
            }
        },
    }
}

/// What `last_index_of` means: `Some(i)` exactly for the greatest `i` whose
/// piece carries `id`, `None` exactly when no piece does.
pub proof fn lemma_last_index_of(pieces: Seq<Piece>, id: u8)
    ensures
        match last_index_of(pieces, id) {
            Some(i) => {
                &&& 0 <= i < pieces.len()
                &&& pieces[i].id == id
                &&& forall|j: int| i < j < pieces.len() ==> (#[trigger] pieces[j]).id != id
            },
            None => forall|j: int| 0 <= j < pieces.len() ==> (#[trigger] pieces[j]).id != id,
        },
        last_index_of(pieces, id) is Some <==> holds_id(pieces, id),
{
    let s = ids(pieces);
    s.index_of_last_ensures(id);
    match s.index_of_last(id) {
        Some(i) => {
            assert forall|j: int| i < j < pieces.len() implies (#[trigger] pieces[j]).id
                != id by {
                assert(s[j] != id);
            }
        },
        None => {
            assert forall|j: int| 0 <= j < pieces.len() implies (#[trigger] pieces[j]).id
                != id by {
                assert(s[j] == pieces[j].id);
            }
        },
    }
}

/// The pieces carry the identities 0, 1, 2, ... in registry order.
pub open spec fn numbered(pieces: Seq<Piece>) -> bool {
    forall|i: int| 0 <= i < pieces.len() ==> (#[trigger] pieces[i]).id == i
}

/// In a registry whose pieces are numbered in order, an identity below the
/// number of pieces resolves to the piece at that place.
pub proof fn lemma_numbered_resolves(pieces: Seq<Piece>, id: u8)
    requires
        numbered(pieces),
        id < pieces.len(),
    ensures
        piece_with_id(pieces, id) == Some(pieces[id as int]),
{
    lemma_first_index_of(pieces, id);
    assert(pieces[id as int].id == id);
}

/// Taking the first piece with one identity out of the registry changes
/// nothing for any other identity: it resolves to the same piece as before.
pub proof fn lemma_removal_spares_others(pieces: Seq<Piece>, removed: u8, other: u8)
    requires
        removed != other,
    ensures
        piece_with_id(after_removal(pieces, removed), other) == piece_with_id(pieces, other),
{
    lemma_first_index_of(pieces, removed);
    lemma_first_index_of(pieces, other);
    let rest = after_removal(pieces, removed);
    lemma_first_index_of(rest, other);
    match first_index_of(pieces, removed) {
        Some(gone) => {
            assert forall|j: int| 0 <= j < rest.len() implies #[trigger] rest[j] == (if j < gone {
                pieces[j]
            } else {
                pieces[j + 1]
            }) by {}
            match first_index_of(pieces, other) {
                Some(at) => {
                    let to = if at < gone {
                        at
                    } else {
                        at - 1
                    };
                    assert(rest[to] == pieces[at]);
                    match first_index_of(rest, other) {
                        Some(now) => {
                            let from = if now < gone {
                                now
                            } else {
                                now + 1
                            };
                            assert(rest[now] == pieces[from]);
                            if now < to {
                                assert(pieces[from].id != other);
                            }
                            if to < now {
                                assert(rest[to].id != other);
                            }
                        },
                        None => {
                            assert(rest[to].id != other);
                        },
                    }
                },
                None => {
                    match first_index_of(rest, other) {
                        Some(now) => {
                            let from = if now < gone {
                                now
                            } else {
                                now + 1
                            };
                            assert(rest[now] == pieces[from]);
                            assert(pieces[from].id != other);
                        },
                        None => {},
                    }
                },
            }
        },
        None => {},
    }
}

/// The name of the picture file of a piece: `w` or `b` for White or Black,
/// then the letter of the kind, with `N` for the knight.
pub open spec fn image_name_of(kind: Kind, color: Color) -> &'static str {
    match (color, kind) {
        (Color::White, Kind::Pawn) => "wP.png",
        (Color::White, Kind::Bishop) => "wB.png",
        (Color::White, Kind::Knight) => "wN.png",
        (Color::White, Kind::Rook) => "wR.png",
        (Color::White, Kind::Queen) => "wQ.png",
        (Color::White, Kind::King) => "wK.png",
        (Color::Black, Kind::Pawn) => "bP.png",
        (Color::Black, Kind::Bishop) => "bB.png",
        (Color::Black, Kind::Knight) => "bN.png",
        (Color::Black, Kind::Rook) => "bR.png",
        (Color::Black, Kind::Queen) => "bQ.png",
        (Color::Black, Kind::King) => "bK.png",
    }
}

impl Piece {
    /// The name of the file that holds the picture of this piece.
    pub fn image_name(&self) -> (name: &'static str)
        ensures
            name@ == image_name_of(self.kind, self.color)@,
    {
        match (self.color, self.kind) {
            (Color::White, Kind::Pawn) => "wP.png",
            (Color::White, Kind::Bishop) => "wB.png",
            (Color::White, Kind::Knight) => "wN.png",
            (Color::White, Kind::Rook) => "wR.png",
            (Color::White, Kind::Queen) => "wQ.png",
            (Color::White, Kind::King) => "wK.png",
            (Color::Black, Kind::Pawn) => "bP.png",
            (Color::Black, Kind::Bishop) => "bB.png",
            (Color::Black, Kind::Knight) => "bN.png",
            (Color::Black, Kind::Rook) => "bR.png",
            (Color::Black, Kind::Queen) => "bQ.png",
            (Color::Black, Kind::King) => "bK.png",
        }
    }

    pub fn new(kind: Kind, color: Color, id: u8) -> (piece: Piece)
        ensures
            piece == (Piece { kind, id, color }),
    {
        Piece { kind, id, color }
    }

    /// The color of the last piece in the registry that carries `id`.
    pub fn find_color_for_id(pieces: &Vec<Piece>, id: u8) -> (color: Option<Color>)
        ensures
            color == match last_index_of(pieces@, id) {
                Some(i) => Some(pieces@[i].color),
                None => None,
            },
    {
        let mut color: Option<Color> = None;
        let ghost mut last: Option<int> = None;
        let mut k: usize = 0;
        while k < pieces.len()
            invariant
                k <= pieces@.len(),
                match last {
                    Some(i) => {
                        &&& 0 <= i < k
                        &&& pieces@[i].id == id
                        &&& color == Some(pieces@[i].color)
                        &&& forall|j: int| i < j < k ==> (#[trigger] pieces@[j]).id != id
                    },
                    None => color is None && forall|j: int|
                        0 <= j < k ==> (#[trigger] pieces@[j]).id != id,
                },
            decreases pieces@.len() - k,
        {
            if pieces[k].id == id {
                color = Some(pieces[k].color);
                proof {
                    last = Some(k as int);
                }
            }
            k += 1;
        }
        proof {
            lemma_last_index_of(pieces@, id);
        }
        color
    }

    /// Takes the first piece that carries `id` out of the registry; the
    /// others keep their order. A registry without such a piece stays as it is.
    pub fn remove_id_from_pieces(pieces: &mut Vec<Piece>, id: u8)
        ensures
            final(pieces)@ == after_removal(old(pieces)@, id),
    {
        let mut k: usize = 0;
        while k < pieces.len()
            invariant
                k <= pieces@.len(),
                pieces@ == old(pieces)@,
                forall|j: int| 0 <= j < k ==> (#[trigger] pieces@[j]).id != id,
            decreases pieces@.len() - k,
        {
            if pieces[k].id == id {
                proof {
                    lemma_first_index_of(pieces@, id);
                }
                pieces.remove(k);
                return ;
            }
            k += 1;
        }
        proof {
            lemma_first_index_of(pieces@, id);
        }
    }

    /// The first piece in the registry that carries `id`.
    pub fn get_piece_from_id(pieces: &Vec<Piece>, id: u8) -> (found: Option<&Piece>)
        ensures
            match found {
                Some(piece) => piece_with_id(pieces@, id) == Some(*piece),
                None => piece_with_id(pieces@, id) is None,
            },
    {
        let mut k: usize = 0;
        while k < pieces.len()
            invariant
                k <= pieces@.len(),
                forall|j: int| 0 <= j < k ==> (#[trigger] pieces@[j]).id != id,
            decreases pieces@.len() - k,
        {
            if pieces[k].id == id {
                proof {
                    lemma_first_index_of(pieces@, id);
                }
                return Some(&pieces[k]);
            }
            k += 1;
        }
        proof {
            lemma_first_index_of(pieces@, id);
        }
        None
    }
}

} // verus!
