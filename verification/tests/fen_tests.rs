use chess_engine::board::Board;
use chess_engine::error::ChessError;
use chess_engine::piece::{Color, Kind, Piece};

fn occupied(board: &Board) -> Vec<(usize, u8)> {
    let mut found = Vec::new();
    for (i, square) in board.squares.iter().enumerate() {
        if let Some(id) = square.piece_id {
            found.push((i, id));
        }
    }
    found
}

#[test]
fn empty_position_gives_empty_board_and_registry() {
    let mut board = Board::new(false);
    let pieces = board.load_fen(String::from("8/8/8/8/8/8/8/8")).unwrap();
    assert_eq!(pieces.len(), 0);
    assert!(occupied(&board).is_empty());
}

#[test]
fn empty_text_gives_empty_board_and_registry() {
    let mut board = Board::new(false);
    let pieces = board.load_fen(String::new()).unwrap();
    assert!(pieces.is_empty());
    assert!(occupied(&board).is_empty());
}

#[test]
fn rank_fragment_places_two_pawns() {
    let mut board = Board::new(false);
    let pieces = board.load_fen(String::from("p3p3")).unwrap();
    assert_eq!(pieces.len(), 2);
    assert_eq!(pieces[0], Piece::new(Kind::Pawn, Color::White, 0));
    assert_eq!(pieces[1], Piece::new(Kind::Pawn, Color::White, 1));
    assert_eq!(occupied(&board), vec![(0, 0), (4, 1)]);
}

#[test]
fn squares_after_a_fragment_are_skipped_too() {
    let mut board = Board::new(false);
    let pieces = board.load_fen(String::from("p3p3/k7")).unwrap();
    assert_eq!(pieces.len(), 3);
    assert_eq!(pieces[2], Piece::new(Kind::King, Color::White, 2));
    assert_eq!(occupied(&board), vec![(0, 0), (4, 1), (8, 2)]);
}

#[test]
fn letter_case_gives_the_color() {
    let mut board = Board::new(false);
    let pieces = board.load_fen(String::from("pnbrqkPNBRQK")).unwrap();
    let kinds = [Kind::Pawn, Kind::Knight, Kind::Bishop, Kind::Rook, Kind::Queen, Kind::King];
    assert_eq!(pieces.len(), 12);
    for i in 0..6 {
        assert_eq!(pieces[i], Piece::new(kinds[i], Color::White, i as u8));
        assert_eq!(pieces[i + 6], Piece::new(kinds[i], Color::Black, (i + 6) as u8));
    }
    for i in 0..12 {
        assert_eq!(board.squares[i].piece_id, Some(i as u8));
    }
}

#[test]
fn full_starting_position() {
    let mut board = Board::new(false);
    let text = "rnbqkbnr/pppppppp/8/8/8/8/PPPPPPPP/RNBQKBNR";
    let pieces = board.load_fen(String::from(text)).unwrap();
    assert_eq!(pieces.len(), 32);
    for (i, piece) in pieces.iter().enumerate() {
        assert_eq!(piece.id as usize, i);
        let expected = if i < 16 { Color::White } else { Color::Black };
        assert_eq!(piece.color, expected);
    }
    assert_eq!(pieces[4].kind, Kind::King);
    assert_eq!(pieces[8].kind, Kind::Pawn);
    assert_eq!(pieces[27].kind, Kind::Queen);
    for i in 0..16 {
        assert_eq!(board.squares[i].piece_id, Some(i as u8));
        assert_eq!(board.squares[48 + i].piece_id, Some(16 + i as u8));
    }
    for i in 16..48 {
        assert_eq!(board.squares[i].piece_id, None);
    }
}

#[test]
fn digits_add_up_without_a_separator() {
    let mut board = Board::new(false);
    let pieces = board.load_fen(String::from("99952q")).unwrap();
    assert_eq!(pieces.len(), 1);
    assert_eq!(occupied(&board), vec![(34, 0)]);
}

#[test]
fn zero_skips_nothing() {
    let mut board = Board::new(false);
    board.load_fen(String::from("0k0q")).unwrap();
    assert_eq!(occupied(&board), vec![(0, 0), (1, 1)]);
}

#[test]
fn short_ranks_shift_what_follows() {
    let mut board = Board::new(false);
    board.load_fen(String::from("3/r")).unwrap();
    assert_eq!(occupied(&board), vec![(3, 0)]);
}

#[test]
fn unknown_letter_is_refused() {
    let mut board = Board::new(false);
    assert_eq!(
        board.load_fen(String::from("8/3x4")).err(),
        Some(ChessError::InvalidFenCharacter('x'))
    );
    assert_eq!(
        board.load_fen(String::from("8 w")).err(),
        Some(ChessError::InvalidFenCharacter(' '))
    );
    assert_eq!(
        board.load_fen(String::from("k-")).err(),
        Some(ChessError::InvalidFenCharacter('-'))
    );
}

#[test]
fn first_bad_character_decides() {
    let mut board = Board::new(false);
    assert_eq!(
        board.load_fen(String::from("pzy")).err(),
        Some(ChessError::InvalidFenCharacter('z'))
    );
}

#[test]
fn piece_beyond_the_last_square_is_out_of_range() {
    let mut board = Board::new(false);
    assert_eq!(
        board.load_fen(String::from("8/8/8/8/8/8/8/8/p")).err(),
        Some(ChessError::OutOfRange)
    );
    assert_eq!(board.load_fen(String::from("99999999k")).err(), Some(ChessError::OutOfRange));
    assert!(board.load_fen(String::from("8/8/8/8/8/8/8/7k")).is_ok());
    assert_eq!(board.squares[63].piece_id, Some(0));
}

#[test]
fn digits_beyond_the_last_square_are_harmless() {
    let mut board = Board::new(false);
    let pieces = board.load_fen(String::from("k7/8/8/8/8/8/8/8/8/9")).unwrap();
    assert_eq!(pieces.len(), 1);
    assert_eq!(occupied(&board), vec![(0, 0)]);
}

#[test]
fn refused_text_leaves_the_board_alone() {
    let mut board = Board::new(false);
    board.load_fen(String::from("4q3")).unwrap();
    assert!(board.load_fen(String::from("kk?")).is_err());
    assert_eq!(occupied(&board), vec![(4, 0)]);
}

#[test]
fn loaded_board_resolves_in_its_registry() {
    let mut board = Board::new(false);
    let pieces = board.load_fen(String::from("r3k2r/8/8/8/8/8/8/R3K2R")).unwrap();
    assert!(board.check_resolves(&pieces));
    assert!(!board.check_resolves(&Vec::new()));
    assert!(Board::new(false).check_resolves(&Vec::new()));
}
