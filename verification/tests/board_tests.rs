use chess_engine::board::{Board, Shade, Square};
use chess_engine::error::ChessError;

#[test]
fn index_and_file_rank_round_trip() {
    for index in 0u8..64 {
        let (file, rank) = Square::index_to_file_rank(index);
        assert!(file < 8 && rank < 8);
        assert_eq!(Square::file_rank_to_index(file, rank), index);
    }
}

#[test]
fn file_rank_and_index_round_trip() {
    for rank in 0u8..8 {
        for file in 0u8..8 {
            let index = Square::file_rank_to_index(file, rank);
            assert_eq!(Square::index_to_file_rank(index), (file, rank));
        }
    }
}

#[test]
fn index_formula_values() {
    assert_eq!(Square::file_rank_to_index(0, 0), 0);
    assert_eq!(Square::file_rank_to_index(7, 0), 7);
    assert_eq!(Square::file_rank_to_index(0, 1), 8);
    assert_eq!(Square::file_rank_to_index(3, 3), 27);
    assert_eq!(Square::file_rank_to_index(7, 7), 63);
    assert_eq!(Square::index_to_file_rank(27), (3, 3));
    assert_eq!(Square::index_to_file_rank(62), (6, 7));
    assert_eq!(Square::file_rank_to_index(7, 31), 255);
}

#[test]
fn square_knows_its_file_and_rank() {
    let square = Square::new(Shade::Dark, 13);
    assert_eq!(square.file_rank(), (5, 1));
    assert_eq!(square.index, 13);
    assert_eq!(square.color, Shade::Dark);
    assert_eq!(square.piece_id, None);
}

#[test]
fn new_board_has_64_empty_squares() {
    let board = Board::new(false);
    assert_eq!(board.squares.len(), 64);
    assert!(!board.flip);
    assert!(Board::new(true).flip);
    for (i, square) in board.squares.iter().enumerate() {
        assert_eq!(square.index as usize, i);
        assert_eq!(square.piece_id, None);
    }
}

#[test]
fn squares_alternate_in_shade() {
    let board = Board::new(false);
    for index in 0usize..64 {
        let light = (index + index / 8) % 2 == 0;
        let expected = if light { Shade::Light } else { Shade::Dark };
        assert_eq!(board.squares[index].color, expected);
        let (file, rank) = (index % 8, index / 8);
        assert_eq!(light, (file + rank) % 2 == 0);
    }
    assert_eq!(board.squares[0].color, Shade::Light);
    assert_eq!(board.squares[1].color, Shade::Dark);
    assert_eq!(board.squares[8].color, Shade::Dark);
    assert_eq!(board.squares[9].color, Shade::Light);
}

#[test]
fn shades_survive_loading_and_moving() {
    let mut board = Board::new(false);
    let fresh = Board::new(false);
    let pieces = board.load_fen(String::from("r7/Q7")).unwrap();
    board.move_piece(Some(0), &pieces, 0, 8).unwrap();
    for index in 0usize..64 {
        assert_eq!(board.squares[index].color, fresh.squares[index].color);
        assert_eq!(board.squares[index].index, fresh.squares[index].index);
    }
}

#[test]
fn square_lookup_by_file_and_rank() {
    let mut board = Board::new(false);
    board.load_fen(String::from("8/2k5")).unwrap();
    let square = board.get_square_at_file_rank(2, 1).unwrap();
    assert_eq!(square.index, 10);
    assert_eq!(square.piece_id, Some(0));
    let corner = board.get_square_at_file_rank(7, 7).unwrap();
    assert_eq!(corner.index, 63);
    assert_eq!(corner.piece_id, None);
}

#[test]
fn square_lookup_off_the_board_is_out_of_range() {
    let board = Board::new(false);
    assert_eq!(board.get_square_at_file_rank(8, 0).err(), Some(ChessError::OutOfRange));
    assert_eq!(board.get_square_at_file_rank(0, 8).err(), Some(ChessError::OutOfRange));
    assert_eq!(board.get_square_at_file_rank(255, 255).err(), Some(ChessError::OutOfRange));
    assert!(board.get_square_at_file_rank(7, 0).is_ok());
}

#[test]
fn validity_check_sees_a_broken_layout() {
    let mut board = Board::new(false);
    assert!(board.is_wf());
    board.squares[5].index = 6;
    assert!(!board.is_wf());
    board.squares[5].index = 5;
    assert!(board.is_wf());
    board.squares[5].color = Shade::Light;
    assert!(!board.is_wf());
    board.squares[5].color = Shade::Dark;
    board.squares.pop();
    assert!(!board.is_wf());
}

#[test]
fn distinct_ids_check_sees_a_piece_on_two_squares() {
    let mut board = Board::new(false);
    assert!(board.has_distinct_ids());
    board.load_fen(String::from("rnbq")).unwrap();
    assert!(board.has_distinct_ids());
    board.squares[40].piece_id = Some(2);
    assert!(!board.has_distinct_ids());
    board.squares[40].piece_id = Some(4);
    assert!(board.has_distinct_ids());
}
