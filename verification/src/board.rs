//! The board: 64 squares addressed by index, file and rank.

use crate::error::ChessError;
use vstd::prelude::*;

verus! {

/// The cosmetic color of a square.
#[derive(Clone, Copy, PartialEq, Eq, Structural, Debug)]
pub enum Shade {
    Light,
    Dark,
}

/// One square of the board: its shade, its index and the identity of the
/// piece standing on it, if any.
#[derive(Clone, Copy, Debug)]
pub struct Square {
    pub color: Shade,
    pub index: u8,
    pub piece_id: Option<u8>,
}

/// The 8x8 grid, addressed by square index; index 0 is a1, index 7 is h1.
pub struct Board {
    pub squares: Vec<Square>,
    pub flip: bool,
}

/// The file of a square index.
pub open spec fn file_of(index: int) -> int {
    index % 8
}

/// The rank of a square index.
pub open spec fn rank_of(index: int) -> int {
    index / 8
}

/// The index of the square at a file and rank.
pub open spec fn index_of(file: int, rank: int) -> int {
    file + 8 * rank
}

/// Whether a file and rank name a square of the board.
pub open spec fn on_board(file: int, rank: int) -> bool {
    0 <= file < 8 && 0 <= rank < 8
}

/// The shade that the square with this index has.
pub open spec fn shade_of(index: int) -> Shade {
    if (index + index / 8) % 2 == 0 {
        Shade::Light
    } else {
        Shade::Dark
    }
}

/// A square index of the board goes to a file and rank of the board and
/// comes back as itself.
pub proof fn lemma_index_round_trip(index: int)
    requires
        0 <= index < 64,
    ensures
        on_board(file_of(index), rank_of(index)),
        index_of(file_of(index), rank_of(index)) == index,
{
}

/// A file and rank of the board go to a square index of the board and come
/// back as themselves.
pub proof fn lemma_file_rank_round_trip(file: int, rank: int)
    requires
        on_board(file, rank),
    ensures
        0 <= index_of(file, rank) < 64,
        file_of(index_of(file, rank)) == file,
        rank_of(index_of(file, rank)) == rank,
{
}

/// A square is light exactly when its file and rank add up to an even number.
pub proof fn lemma_shade_by_file_and_rank(index: int)
    requires
        0 <= index < 64,
    ensures
        shade_of(index) == Shade::Light <==> (file_of(index) + rank_of(index)) % 2 == 0,
        shade_of(index) == Shade::Dark <==> (file_of(index) + rank_of(index)) % 2 == 1,
{
}

/// The squares of a board with nobody on it.
pub open spec fn fresh_squares() -> Seq<Square> {
    Seq::new(64, |i: int| Square { color: shade_of(i), index: i as u8, piece_id: None })
}

impl Square {
    pub fn new(color: Shade, index: u8) -> (square: Square)
        ensures
            square == (Square { color, index, piece_id: None }),
    {
        Square { color, index, piece_id: None }
    }

    pub fn file_rank(&self) -> (fr: (u8, u8))
        ensures
            fr.0 == file_of(self.index as int),
            fr.1 == rank_of(self.index as int),
    {
        (self.index % 8, self.index / 8)
    }

    pub fn file_rank_to_index(file: u8, rank: u8) -> (index: u8)
        requires
            index_of(file as int, rank as int) <= u8::MAX,
        ensures
            index == index_of(file as int, rank as int),
    {
        file + 8 * rank
    }

    pub fn index_to_file_rank(index: u8) -> (fr: (u8, u8))
        ensures
            fr.0 == file_of(index as int),
            fr.1 == rank_of(index as int),
            index_of(fr.0 as int, fr.1 as int) == index,
    {
        (index % 8, index / 8)
    }
}

/// A board is seen as its occupancy: for each square index, the identity of
/// the piece on that square, if any.
impl View for Board {
    type V = Seq<Option<u8>>;

    open spec fn view(&self) -> Seq<Option<u8>> {
        Seq::new(self.squares@.len(), |i: int| self.squares@[i].piece_id)
    }
}

impl Board {
    /// The board has its 64 squares, each knowing its index and shade.
    pub open spec fn wf(&self) -> bool {
        &&& self.squares@.len() == 64
        &&& forall|i: int|
            0 <= i < 64 ==> (#[trigger] self.squares@[i]).index == i && self.squares@[i].color
                == shade_of(i)
    }

    /// No identity stands on two squares.
    pub open spec fn ids_distinct(&self) -> bool {
        forall|i: int, j: int|
            0 <= i < self.squares@.len() && 0 <= j < self.squares@.len() && i != j && (
            #[trigger] self.squares@[i]).piece_id is Some ==> self.squares@[i].piece_id != (
            #[trigger] self.squares@[j]).piece_id
    }

    /// No square is occupied.
    pub open spec fn is_empty(&self) -> bool {
        forall|i: int| 0 <= i < self.squares@.len() ==> (#[trigger] self.squares@[i]).piece_id is None
    }

    pub fn new(flip: bool) -> (board: Board)
        ensures
            board.squares@ == fresh_squares(),
            board@ == Seq::new(64, |i: int| None::<u8>),
            board.flip == flip,
            board.wf(),
            board.is_empty(),
            board.ids_distinct(),
    {
        let mut squares: Vec<Square> = Vec::new();
        let mut i: u8 = 0;
        while i < 64
            invariant
                i <= 64,
                squares@.len() == i,
                forall|j: int|
                    0 <= j < i ==> (#[trigger] squares@[j]) == (Square {
                        color: shade_of(j),
                        index: j as u8,
                        piece_id: None,
                    }),
            decreases 64 - i,
        {
            if (i + i / 8) % 2 == 0 {
                squares.push(Square::new(Shade::Light, i));
            } else {
                squares.push(Square::new(Shade::Dark, i));
            }
            i += 1;
        }
        proof {
            assert(squares@ =~= fresh_squares());
        }
        let board = Board { squares, flip };
        proof {
            assert(board@ =~= Seq::new(64, |i: int| None::<u8>));
        }
        board
    }

    /// Tells whether the board has its 64 squares, each with its index and
    /// shade.
    pub fn is_wf(&self) -> (ok: bool)
        ensures
            ok == self.wf(),
    {
        if self.squares.len() != 64 {
            return false;
        }
        let mut i: u8 = 0;
        while i < 64
            invariant
                i <= 64,
                self.squares@.len() == 64,
                forall|j: int|
                    0 <= j < i ==> (#[trigger] self.squares@[j]).index == j && self.squares@[j].color
                        == shade_of(j),
            decreases 64 - i,
        {
            let square = &self.squares[i as usize];
            let shade = if (i + i / 8) % 2 == 0 {
                Shade::Light
            } else {
                Shade::Dark
            };
            if square.index != i || square.color != shade {
                return false;
            }
            i += 1;
        }
        true
    }

    /// Tells whether no identity stands on two squares.
    pub fn has_distinct_ids(&self) -> (ok: bool)
        ensures
            ok == self.ids_distinct(),
    {
        let n = self.squares.len();
        let mut i: usize = 0;
        while i < n
            invariant
                n == self.squares@.len(),
                i <= n,
                forall|a: int, b: int|
                    0 <= a < i && 0 <= b < n && a != b && (#[trigger] self.squares@[a]).piece_id
                        is Some ==> self.squares@[a].piece_id != (#[trigger] self.squares@[b]).piece_id,
            decreases n - i,
        {
            if let Some(id) = self.squares[i].piece_id {
                let mut j: usize = 0;
                while j < n
                    invariant
                        n == self.squares@.len(),
                        i < n,
                        j <= n,
                        self.squares@[i as int].piece_id == Some(id),
                        forall|b: int|
                            0 <= b < j && b != i ==> (#[trigger] self.squares@[b]).piece_id != Some(
                                id,
                            ),
                    decreases n - j,
                {
                    if j != i {
                        if let Some(other) = self.squares[j].piece_id {
                            if other == id {
                                return false;
                            }
                        }
                    }
                    j += 1;
                }
            }
            i += 1;
        }
        true
    }

    pub fn get_square_at_file_rank(&self, file: u8, rank: u8) -> (result: Result<
        &Square,
        ChessError,
    >)
        requires
            self.wf(),
        ensures
            match result {
                Ok(square) => on_board(file as int, rank as int) && *square
                    == self.squares@[index_of(file as int, rank as int)],
                Err(e) => !on_board(file as int, rank as int) && e == ChessError::OutOfRange,
            },
    {
        if file < 8 && rank < 8 {
            let index: usize = (file + 8 * rank) as usize;
            Ok(&self.squares[index])
        } else {
            Err(ChessError::OutOfRange)
        }
    }
}

} // verus!
