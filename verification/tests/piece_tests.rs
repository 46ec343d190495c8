use chess_engine::piece::{Color, Kind, Piece};

fn registry() -> Vec<Piece> {
    vec![
        Piece::new(Kind::Rook, Color::White, 0),
        Piece::new(Kind::Pawn, Color::Black, 1),
        Piece::new(Kind::King, Color::White, 2),
    ]
}

#[test]
fn new_piece_keeps_its_parts() {
    let piece = Piece::new(Kind::Queen, Color::Black, 9);
    assert_eq!(piece.kind, Kind::Queen);
    assert_eq!(piece.color, Color::Black);
    assert_eq!(piece.id, 9);
}

#[test]
fn color_lookup_by_identity() {
    let pieces = registry();
    assert_eq!(Piece::find_color_for_id(&pieces, 0), Some(Color::White));
    assert_eq!(Piece::find_color_for_id(&pieces, 1), Some(Color::Black));
    assert_eq!(Piece::find_color_for_id(&pieces, 2), Some(Color::White));
    assert_eq!(Piece::find_color_for_id(&pieces, 3), None);
    assert_eq!(Piece::find_color_for_id(&Vec::new(), 0), None);
}

#[test]
fn color_lookup_takes_the_last_match() {
    let mut pieces = registry();
    pieces.push(Piece::new(Kind::Pawn, Color::Black, 0));
    assert_eq!(Piece::find_color_for_id(&pieces, 0), Some(Color::Black));
}

#[test]
fn piece_lookup_takes_the_first_match() {
    let mut pieces = registry();
    pieces.push(Piece::new(Kind::Pawn, Color::Black, 0));
    let found = Piece::get_piece_from_id(&pieces, 0).unwrap();
    assert_eq!(found.kind, Kind::Rook);
    assert_eq!(found.color, Color::White);
    assert_eq!(Piece::get_piece_from_id(&pieces, 2).unwrap().kind, Kind::King);
    assert!(Piece::get_piece_from_id(&pieces, 7).is_none());
}

#[test]
fn removal_takes_one_piece_and_keeps_the_order() {
    let mut pieces = registry();
    Piece::remove_id_from_pieces(&mut pieces, 1);
    assert_eq!(pieces.len(), 2);
    assert_eq!(pieces[0].id, 0);
    assert_eq!(pieces[1].id, 2);
    assert!(Piece::get_piece_from_id(&pieces, 1).is_none());
}

#[test]
fn removal_of_an_absent_identity_changes_nothing() {
    let mut pieces = registry();
    Piece::remove_id_from_pieces(&mut pieces, 200);
    assert_eq!(pieces, registry());
}

#[test]
fn removal_takes_only_the_first_of_two() {
    let mut pieces = registry();
    pieces.push(Piece::new(Kind::Pawn, Color::Black, 0));
    Piece::remove_id_from_pieces(&mut pieces, 0);
    assert_eq!(pieces.len(), 3);
    assert_eq!(pieces[0].id, 1);
    assert_eq!(pieces[2], Piece::new(Kind::Pawn, Color::Black, 0));
}

#[test]
fn image_names() {
    let names = [
        (Kind::Pawn, "P"),
        (Kind::Bishop, "B"),
        (Kind::Knight, "N"),
        (Kind::Rook, "R"),
        (Kind::Queen, "Q"),
        (Kind::King, "K"),
    ];
    for (kind, letter) in names {
        assert_eq!(Piece::new(kind, Color::White, 0).image_name(), format!("w{letter}.png"));
        assert_eq!(Piece::new(kind, Color::Black, 0).image_name(), format!("b{letter}.png"));
    }
    assert_eq!(Piece::new(Kind::Knight, Color::Black, 7).image_name(), "bN.png");
}
