use chess_engine::chess::{Action, Chess, Event};
use chess_engine::error::ChessError;
use chess_engine::moves::MoveType;
use chess_engine::piece::{Color, Kind, Piece};

fn game(text: &str) -> Chess {
    let mut chess = Chess::new(false);
    chess.init(String::from(text)).unwrap();
    chess
}

fn occupancy(chess: &Chess) -> Vec<Option<u8>> {
    chess.board.squares.iter().map(|s| s.piece_id).collect()
}

#[test]
fn new_game_is_empty() {
    let chess = Chess::new(true);
    assert!(chess.board.flip);
    assert!(chess.pieces.is_empty());
    assert_eq!(chess.active_piece, None);
    assert_eq!(chess.last_index_clicked, None);
    assert!(occupancy(&chess).iter().all(|o| o.is_none()));
}

#[test]
fn init_sets_up_board_and_registry() {
    let chess = game("r3k3/8/8/8/8/8/8/4K2R");
    assert_eq!(chess.pieces.len(), 4);
    assert_eq!(chess.pieces[1], Piece::new(Kind::King, Color::White, 1));
    assert_eq!(chess.pieces[3], Piece::new(Kind::Rook, Color::Black, 3));
    assert_eq!(chess.board.squares[0].piece_id, Some(0));
    assert_eq!(chess.board.squares[4].piece_id, Some(1));
    assert_eq!(chess.board.squares[60].piece_id, Some(2));
    assert_eq!(chess.board.squares[63].piece_id, Some(3));
    assert!(chess.board.check_resolves(&chess.pieces));
}

#[test]
fn init_clears_what_was_there() {
    let mut chess = game("qqqq");
    chess.update(Event::Click(0));
    chess.init(String::from("8/k7")).unwrap();
    assert_eq!(chess.pieces.len(), 1);
    assert_eq!(chess.active_piece, None);
    assert_eq!(chess.last_index_clicked, None);
    assert_eq!(occupancy(&chess).iter().filter(|o| o.is_some()).count(), 1);
    assert_eq!(chess.board.squares[8].piece_id, Some(0));
}

#[test]
fn refused_init_keeps_the_game() {
    let mut chess = game("r7");
    chess.update(Event::Click(0));
    let before = occupancy(&chess);
    assert_eq!(chess.init(String::from("k!")), Err(ChessError::InvalidFenCharacter('!')));
    assert_eq!(occupancy(&chess), before);
    assert_eq!(chess.pieces.len(), 1);
    assert_eq!(chess.active_piece, Some(0));
    assert_eq!(chess.last_index_clicked, Some(0));
}

#[test]
fn click_picks_up_a_piece() {
    let mut chess = game("8/3n4");
    assert_eq!(chess.update(Event::Click(11)), Action::Pick(0));
    assert_eq!(chess.active_piece, Some(0));
    assert_eq!(chess.last_index_clicked, Some(11));
    assert_eq!(chess.legal_moves(), vec![(4, 3), (5, 2), (5, 0), (2, 3), (1, 2), (1, 0)]);
}

#[test]
fn click_on_nothing_is_idle() {
    let mut chess = game("8/3n4");
    assert_eq!(chess.update(Event::Click(12)), Action::Idle);
    assert_eq!(chess.update(Event::Click(64)), Action::Idle);
    assert_eq!(chess.update(Event::Click(usize::MAX)), Action::Idle);
    assert_eq!(chess.active_piece, None);
    assert!(chess.legal_moves().is_empty());
}

#[test]
fn release_without_a_piece_is_idle() {
    let mut chess = game("8/3n4");
    let before = occupancy(&chess);
    assert_eq!(chess.update(Event::Release(28)), Action::Idle);
    assert_eq!(occupancy(&chess), before);
}

#[test]
fn release_moves_the_piece_in_hand() {
    let mut chess = game("8/3n4");
    chess.update(Event::Click(11));
    assert_eq!(chess.update(Event::Release(28)), Action::Drop(0, Ok(MoveType::Empty)));
    assert_eq!(chess.board.squares[11].piece_id, None);
    assert_eq!(chess.board.squares[28].piece_id, Some(0));
    assert_eq!(chess.active_piece, None);
    assert_eq!(chess.pieces.len(), 1);
}

#[test]
fn release_on_a_wrong_square_puts_the_piece_back() {
    let mut chess = game("8/3n4");
    chess.update(Event::Click(11));
    let before = occupancy(&chess);
    assert_eq!(chess.update(Event::Release(12)), Action::Drop(0, Err(ChessError::Illegal)));
    assert_eq!(occupancy(&chess), before);
    assert_eq!(chess.active_piece, None);
    chess.update(Event::Click(11));
    assert_eq!(chess.update(Event::Release(11)), Action::Drop(0, Err(ChessError::Illegal)));
    chess.update(Event::Click(11));
    assert_eq!(chess.update(Event::Release(500)), Action::Drop(0, Err(ChessError::Illegal)));
    assert_eq!(occupancy(&chess), before);
}

#[test]
fn capture_takes_the_piece_out_of_the_registry() {
    let mut chess = game("r6R/8/8/8/8/8/8/K7");
    chess.update(Event::Click(0));
    assert_eq!(chess.update(Event::Release(7)), Action::Drop(0, Ok(MoveType::Take(1))));
    assert_eq!(chess.pieces.len(), 2);
    assert_eq!(chess.pieces[0].id, 0);
    assert_eq!(chess.pieces[1].id, 2);
    assert_eq!(chess.board.squares[0].piece_id, None);
    assert_eq!(chess.board.squares[7].piece_id, Some(0));
    assert!(chess.board.check_resolves(&chess.pieces));
    assert_eq!(occupancy(&chess).iter().filter(|o| o.is_some()).count(), 2);
}

#[test]
fn a_game_of_several_moves_keeps_every_piece_on_one_square() {
    let mut chess = game("rnbqkbnr/pppppppp/8/8/8/8/PPPPPPPP/RNBQKBNR");
    let plan = [(12usize, 20usize), (52, 44), (20, 28), (51, 43), (5, 33), (43, 35), (33, 60)];
    for (from, to) in plan {
        assert!(matches!(chess.update(Event::Click(from)), Action::Pick(_)));
        assert!(matches!(chess.update(Event::Release(to)), Action::Drop(_, Ok(_))));
    }
    assert_eq!(chess.pieces.len(), 31);
    let mut seen: Vec<u8> = occupancy(&chess).into_iter().flatten().collect();
    assert_eq!(seen.len(), 31);
    seen.sort();
    seen.dedup();
    assert_eq!(seen.len(), 31);
    assert!(chess.board.check_resolves(&chess.pieces));
}

#[test]
fn validity_check_of_a_game() {
    let mut chess = game("r6R");
    assert!(chess.is_wf());
    chess.update(Event::Click(7));
    assert!(chess.is_wf());
    chess.last_index_clicked = Some(3);
    assert!(!chess.is_wf());
    chess.last_index_clicked = Some(7);
    assert!(chess.is_wf());
    chess.pieces.pop();
    assert!(!chess.is_wf());
}
