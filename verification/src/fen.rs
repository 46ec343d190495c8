//! Reading a position text onto the board.

use crate::board::{Board, Square};
use crate::error::ChessError;
use crate::piece::{lemma_numbered_resolves, numbered, Color, Kind, Piece};
use vstd::prelude::*;

verus! {

/// Whether a character of a position text stands for a run of empty squares.
pub open spec fn is_digit(c: char) -> bool {
    '0' <= c && c <= '9'
}

/// How many squares a digit skips.
pub open spec fn digit_value(c: char) -> int {
    c as int - '0' as int
}

/// The kind that a piece letter stands for, in either case.
pub open spec fn kind_of_letter(c: char) -> Option<Kind> {
    if c == 'p' || c == 'P' {
        Some(Kind::Pawn)
    } else if c == 'n' || c == 'N' {
        Some(Kind::Knight)
    } else if c == 'b' || c == 'B' {
        Some(Kind::Bishop)
    } else if c == 'r' || c == 'R' {
        Some(Kind::Rook)
    } else if c == 'q' || c == 'Q' {
        Some(Kind::Queen)
    } else if c == 'k' || c == 'K' {
        Some(Kind::King)
    } else {
        None
    }
}

/// The color that the case of a piece letter stands for: lower case is
/// White, anything else is Black.
pub open spec fn color_of_letter(c: char) -> Color {
    if 'a' <= c && c <= 'z' {
        Color::White
    } else {
        Color::Black
    }
}

/// Where a scan of a position text stands: the index of the next square, the
/// pieces met so far, and the squares with those pieces on them.
pub struct Scan {
    pub index: int,
    pub pieces: Seq<Piece>,
    pub squares: Seq<Square>,
}

/// One character further. A separator changes nothing, a digit skips squares,
/// a piece letter puts a new piece, whose identity is the number of pieces
/// before it, on the next square. A letter that finds the board full, or a
/// character that is none of these, ends the scan.
pub open spec fn scan_char(before: Scan, c: char) -> Result<Scan, ChessError> {
    if c == '/' {
        Ok(before)
    } else if is_digit(c) {
        Ok(
            Scan {
                index: before.index + digit_value(c),
                pieces: before.pieces,
                squares: before.squares,
            },
        )
    } else {
        match kind_of_letter(c) {
            None => Err(ChessError::InvalidFenCharacter(c)),
            Some(kind) => if before.index >= before.squares.len() {
                Err(ChessError::OutOfRange)
            } else {
                let id = before.pieces.len() as u8;
                Ok(
                    Scan {
                        index: before.index + 1,
                        pieces: before.pieces.push(Piece { kind, id, color: color_of_letter(c) }),
                        squares: before.squares.update(
                            before.index,
                            Square {
                                color: before.squares[before.index].color,
                                index: before.squares[before.index].index,
                                piece_id: Some(id),
                            },
                        ),
                    },
                )
            },
        }
    }
}

/// The scan of a whole position text, from its first character on, over the
/// given squares. The first character that cannot be taken decides the error.
pub open spec fn scan(start: Seq<Square>, text: Seq<char>) -> Result<Scan, ChessError>
    decreases text.len(),
{
    if text.len() == 0 {
        Ok(Scan { index: 0, pieces: Seq::empty(), squares: start })
    } else {
        match scan(start, text.drop_last()) {
            Ok(before) => scan_char(before, text.last()),
            Err(e) => Err(e),
        }
    }
}

/// The squares that a text of separators and digits alone skips.
pub open spec fn skipped(text: Seq<char>) -> int
    decreases text.len(),
{
    if text.len() == 0 {
        0
    } else if is_digit(text.last()) {
        skipped(text.drop_last()) + digit_value(text.last())
    } else {
        skipped(text.drop_last())
    }
}

/// A text that holds no letter, only separators and digits, is read without
/// error, names no piece and leaves every square as it was.
pub proof fn lemma_scan_without_pieces(start: Seq<Square>, text: Seq<char>)
    requires
        forall|i: int| 0 <= i < text.len() ==> text[i] == '/' || is_digit(#[trigger] text[i]),
    ensures
        scan(start, text) == Ok::<Scan, ChessError>(
            Scan { index: skipped(text), pieces: Seq::empty(), squares: start },
        ),
    decreases text.len(),
{
    if text.len() > 0 {
        let before = text.drop_last();
        assert forall|i: int| 0 <= i < before.len() implies before[i] == '/' || is_digit(
            #[trigger] before[i],
        ) by {
            assert(before[i] == text[i]);
        }
        lemma_scan_without_pieces(start, before);
        assert(text.last() == text[text.len() - 1]);
    }
}

/// A scan in progress over a board: it has not left the squares' layout, its
/// pieces are numbered in the order they were met, each stands on a square
/// of its own below the running index, and no other square has changed.
pub open spec fn scan_inv(start: Seq<Square>, now: Scan) -> bool {
    &&& 0 <= now.index
    &&& now.squares.len() == start.len()
    &&& now.pieces.len() <= now.index
    &&& now.pieces.len() <= start.len()
    &&& numbered(now.pieces)
    &&& forall|j: int|
        0 <= j < start.len() ==> (#[trigger] now.squares[j]).color == start[j].color
            && now.squares[j].index == start[j].index
    &&& forall|j: int|
        0 <= j < start.len() ==> (#[trigger] now.squares[j]).piece_id == start[j].piece_id || (j
            < now.index && now.squares[j].piece_id is Some && now.squares[j].piece_id.unwrap()
            < now.pieces.len())
    &&& forall|i: int, j: int|
        0 <= i < j < start.len() && (#[trigger] now.squares[i]).piece_id != start[i].piece_id && (
        #[trigger] now.squares[j]).piece_id != start[j].piece_id
            ==> now.squares[i].piece_id.unwrap() < now.squares[j].piece_id.unwrap()
}

/// A scan keeps `scan_inv` from its start to wherever it has come.
pub proof fn lemma_scan_inv(start: Seq<Square>, text: Seq<char>)
    requires
        start.len() <= 64,
    ensures
        scan(start, text) matches Ok(now) ==> scan_inv(start, now),
    decreases text.len(),
{
    if text.len() > 0 {
        lemma_scan_inv(start, text.drop_last());
        if let Ok(before) = scan(start, text.drop_last()) {
            lemma_scan_char_inv(start, before, text.last());
        }
    }
}

/// One character keeps `scan_inv`.
pub proof fn lemma_scan_char_inv(start: Seq<Square>, before: Scan, c: char)
    requires
        start.len() <= 64,
        scan_inv(start, before),
    ensures
        scan_char(before, c) matches Ok(now) ==> scan_inv(start, now),
{
}

fn letter_kind(c: char) -> (kind: Option<Kind>)
    ensures
        kind == kind_of_letter(c),
{
    if c == 'p' || c == 'P' {
        Some(Kind::Pawn)
    } else if c == 'n' || c == 'N' {
        Some(Kind::Knight)
    } else if c == 'b' || c == 'B' {
        Some(Kind::Bishop)
    } else if c == 'r' || c == 'R' {
        Some(Kind::Rook)
    } else if c == 'q' || c == 'Q' {
        Some(Kind::Queen)
    } else if c == 'k' || c == 'K' {
        Some(Kind::King)
    } else {
        None
    }
}

fn letter_color(c: char) -> (color: Color)
    ensures
        color == color_of_letter(c),
{
    if c >= 'a' && c <= 'z' {
        Color::White
    } else {
        Color::Black
    }
}

fn digit_of(c: char) -> (value: Option<usize>)
    ensures
        value == (if is_digit(c) {
            Some(digit_value(c) as usize)
        } else {
            None
        }),
        is_digit(c) ==> 0 <= digit_value(c) <= 9,
{
    if c >= '0' && c <= '9' {
        Some((c as u32 - '0' as u32) as usize)
    } else {
        None
    }
}

impl Board {
    /// Reads a position text onto the board and returns the pieces it names,
    /// numbered from 0 in the order they stand in the text. A text that
    /// cannot be read leaves the board as it was.
    pub fn load_fen(&mut self, fen: String) -> (result: Result<Vec<Piece>, ChessError>)
        requires
            old(self).wf(),
        ensures
            final(self).wf(),
            final(self).flip == old(self).flip,
            match scan(old(self).squares@, fen@) {
                Ok(end) => {
                    &&& result matches Ok(pieces) && pieces@ == end.pieces
                    &&& final(self).squares@ == end.squares
                },
                Err(e) => {
                    &&& result == Err::<Vec<Piece>, ChessError>(e)
                    &&& final(self).squares@ == old(self).squares@
                },
            },
            result matches Ok(pieces) ==> numbered(pieces@),
            result matches Ok(pieces) ==> old(self).is_empty() ==> final(self).resolves_in(pieces@)
                && final(self).ids_distinct(),
    {
        let mut squares: Vec<Square> = Vec::new();
        let mut k: usize = 0;
        while k < 64
            invariant
                self.wf(),
                k <= 64,
                squares@ == self.squares@.take(k as int),
            decreases 64 - k,
        {
            squares.push(self.squares[k]);
            proof {
                assert(squares@ =~= self.squares@.take(k + 1));
            }
            k += 1;
        }
        proof {
            assert(squares@ =~= self.squares@);
        }
        let mut pieces: Vec<Piece> = Vec::new();
        let mut index: usize = 0;
        let ghost start = self.squares@;
        let ghost mut now = Scan { index: 0, pieces: Seq::empty(), squares: start };
        for c in iter: fen.as_str().chars()
            invariant
                iter.seq() == fen@,
                self.wf(),
                start == self.squares@,
                start.len() == 64,
                scan(start, fen@.take(iter.index())) == Ok::<Scan, ChessError>(now),
                scan_inv(start, now),
                index == (if now.index < 64 {
                    now.index
                } else {
                    64
                }),
                pieces@ == now.pieces,
                squares@ == now.squares,
        {
            proof {
                assert(fen@.take(iter.index() + 1).drop_last() =~= fen@.take(iter.index()));
                lemma_scan_char_inv(start, now, c);
            }
            if c == '/' {
            } else if let Some(skip) = digit_of(c) {
                index = if index + skip < 64 {
                    index + skip
                } else {
                    64
                };
            } else {
                let kind = match letter_kind(c) {
                    Some(kind) => kind,
                    None => {
                        proof {
                            lemma_scan_stays_failed(start, fen@, iter.index() + 1);
                        }
                        return Err(ChessError::InvalidFenCharacter(c));
                    },
                };
                if index >= 64 {
                    proof {
                        lemma_scan_stays_failed(start, fen@, iter.index() + 1);
                    }
                    return Err(ChessError::OutOfRange);
                }
                let id: u8 = pieces.len() as u8;
                pieces.push(Piece::new(kind, letter_color(c), id));
                let square = squares[index];
                squares.set(
                    index,
                    Square { color: square.color, index: square.index, piece_id: Some(id) },
                );
                index += 1;
            }
            proof {
                now = scan_char(now, c)->Ok_0;
            }
        }
        proof {
            assert(fen@.take(fen@.len() as int) =~= fen@);
            if self.is_empty() {
                assert forall|j: int| 0 <= j < 64 implies match (#[trigger] squares@[j]).piece_id {
                    Some(id) => crate::piece::piece_with_id(pieces@, id) is Some,
                    None => true,
                } by {
                    assert(start[j].piece_id is None);
                    if let Some(id) = squares@[j].piece_id {
                        lemma_numbered_resolves(pieces@, id);
                    }
                }
                assert forall|i: int, j: int|
                    0 <= i < 64 && 0 <= j < 64 && i != j && (
                    #[trigger] squares@[i]).piece_id is Some implies squares@[i].piece_id != (
                #[trigger] squares@[j]).piece_id by {
                    assert(start[i].piece_id is None);
                    assert(start[j].piece_id is None);
                }
            }
        }
        self.squares = squares;
        Ok(pieces)
    }
}

/// Once a scan has failed on a prefix of a text, it fails in the same way on
/// every longer prefix and on the whole text.
pub proof fn lemma_scan_stays_failed(start: Seq<Square>, text: Seq<char>, n: int)
    requires
        0 <= n <= text.len(),
        scan(start, text.take(n)) is Err,
    ensures
        scan(start, text) == scan(start, text.take(n)),
    decreases text.len() - n,
{
    if n < text.len() {
        assert(text.take(n + 1).drop_last() =~= text.take(n));
        lemma_scan_stays_failed(start, text, n + 1);
    } else {
        assert(text.take(n) =~= text);
    }
}

} // verus!
