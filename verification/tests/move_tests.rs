use chess_engine::board::Board;
use chess_engine::error::ChessError;
use chess_engine::moves::MoveType;
use chess_engine::piece::Piece;

fn setup(text: &str) -> (Board, Vec<Piece>) {
    let mut board = Board::new(false);
    let pieces = board.load_fen(String::from(text)).unwrap();
    (board, pieces)
}

fn occupancy(board: &Board) -> Vec<Option<u8>> {
    board.squares.iter().map(|s| s.piece_id).collect()
}

#[test]
fn illegal_move_changes_nothing() {
    let (mut board, pieces) = setup("r7/8/1P6");
    let before = occupancy(&board);
    assert_eq!(board.move_piece(Some(0), &pieces, 0, 9), Err(ChessError::Illegal));
    assert_eq!(board.move_piece(Some(0), &pieces, 0, 0), Err(ChessError::Illegal));
    assert_eq!(board.move_piece(Some(0), &pieces, 0, 64), Err(ChessError::Illegal));
    assert_eq!(board.move_piece(Some(0), &pieces, 0, 1000), Err(ChessError::Illegal));
    assert_eq!(occupancy(&board), before);
}

#[test]
fn move_to_an_empty_square() {
    let (mut board, pieces) = setup("r7/8/1P6");
    assert_eq!(board.move_piece(Some(0), &pieces, 0, 5), Ok(MoveType::Empty));
    assert_eq!(board.squares[0].piece_id, None);
    assert_eq!(board.squares[5].piece_id, Some(0));
    assert_eq!(board.squares[17].piece_id, Some(1));
    assert_eq!(occupancy(&board).iter().filter(|o| o.is_some()).count(), 2);
}

#[test]
fn capture_reports_the_taken_piece() {
    let (mut board, pieces) = setup("r7/8/Q7");
    assert_eq!(board.move_piece(Some(0), &pieces, 0, 16), Ok(MoveType::Take(1)));
    assert_eq!(board.squares[0].piece_id, None);
    assert_eq!(board.squares[16].piece_id, Some(0));
    assert_eq!(occupancy(&board).iter().filter(|o| o.is_some()).count(), 1);
    assert_eq!(pieces.len(), 2);
}

#[test]
fn friend_cannot_be_taken() {
    let (mut board, pieces) = setup("r7/8/p7");
    let before = occupancy(&board);
    assert_eq!(board.move_piece(Some(0), &pieces, 0, 16), Err(ChessError::Illegal));
    assert_eq!(board.move_piece(Some(0), &pieces, 0, 24), Err(ChessError::Illegal));
    assert_eq!(occupancy(&board), before);
}

#[test]
fn missing_identity_is_no_active_piece() {
    let (mut board, pieces) = setup("r7");
    let before = occupancy(&board);
    assert_eq!(board.move_piece(None, &pieces, 0, 1), Err(ChessError::NoActivePiece));
    assert_eq!(board.move_piece(Some(5), &pieces, 0, 1), Err(ChessError::NoActivePiece));
    assert_eq!(board.move_piece(Some(5), &pieces, 99, 1), Err(ChessError::NoActivePiece));
    assert_eq!(occupancy(&board), before);
}

#[test]
fn origin_off_the_board_is_out_of_range() {
    let (mut board, pieces) = setup("r7");
    let before = occupancy(&board);
    assert_eq!(board.move_piece(Some(0), &pieces, 64, 1), Err(ChessError::OutOfRange));
    assert_eq!(board.move_piece(Some(0), &pieces, usize::MAX, 1), Err(ChessError::OutOfRange));
    assert_eq!(occupancy(&board), before);
}

#[test]
fn capture_then_removal_keeps_board_and_registry_together() {
    let (mut board, mut pieces) = setup("q7/8/8/8/8/8/8/7K");
    let outcome = board.move_piece(Some(0), &pieces, 0, 63).unwrap();
    assert_eq!(outcome, MoveType::Take(1));
    if let MoveType::Take(taken) = outcome {
        Piece::remove_id_from_pieces(&mut pieces, taken);
    }
    assert_eq!(pieces.len(), 1);
    assert!(board.check_resolves(&pieces));
    assert_eq!(board.move_piece(Some(0), &pieces, 63, 0), Ok(MoveType::Empty));
    assert_eq!(board.move_piece(Some(1), &pieces, 0, 1), Err(ChessError::NoActivePiece));
}

#[test]
fn pawn_moves_and_captures() {
    let (mut board, pieces) = setup("8/3p4/2P5");
    assert_eq!(board.move_piece(Some(0), &pieces, 11, 20), Err(ChessError::Illegal));
    assert_eq!(board.move_piece(Some(0), &pieces, 11, 27), Err(ChessError::Illegal));
    assert_eq!(board.move_piece(Some(0), &pieces, 11, 18), Ok(MoveType::Take(1)));
    assert_eq!(board.move_piece(Some(0), &pieces, 18, 26), Ok(MoveType::Empty));
    assert_eq!(board.squares[26].piece_id, Some(0));
}

#[test]
fn board_flag_survives_moves() {
    let mut board = Board::new(true);
    let pieces = board.load_fen(String::from("n7")).unwrap();
    board.move_piece(Some(0), &pieces, 0, 17).unwrap();
    assert!(board.flip);
}
