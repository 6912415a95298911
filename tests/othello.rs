use chatgames::othello::{Game, OthelloOpError, Piece, PiecePosition};

fn at(g: &Game, r: usize, c: usize) -> Piece {
    g.get(PiecePosition::from(r, c))
}

#[test]
fn opening_position() {
    let g = Game::new();
    assert_eq!(at(&g, 3, 3), Piece::White);
    assert_eq!(at(&g, 4, 4), Piece::White);
    assert_eq!(at(&g, 3, 4), Piece::Black);
    assert_eq!(at(&g, 4, 3), Piece::Black);
    assert_eq!(g.count_pieces(), (2, 2));
    assert_eq!(g.turn, Piece::Black);
    assert!(g.is_able_to_put(Piece::Black));
    assert!(g.is_able_to_put(Piece::White));
}

#[test]
fn black_at_2_3_flips_the_run() {
    let mut g = Game::new();
    let before = g.cells.clone();
    assert_eq!(g.try_put(PiecePosition::from(2, 3), 1, String::from("b")), Ok(false));
    assert_eq!(at(&g, 2, 3), Piece::Black);
    assert_eq!(at(&g, 3, 3), Piece::Black);
    for i in 0..64 {
        if i != 2 * 8 + 3 && i != 3 * 8 + 3 {
            assert_eq!(g.cells[i], before[i]);
        }
    }
    assert_eq!(g.count_pieces(), (4, 1));
    assert_eq!(g.turn, Piece::White);
}

#[test]
fn diagonal_capture() {
    let mut g = Game::new();
    assert_eq!(g.try_put(PiecePosition::from(2, 3), 1, String::from("b")), Ok(false));
    assert_eq!(g.try_put(PiecePosition::from(2, 2), 2, String::from("w")), Ok(false));
    assert_eq!(at(&g, 2, 2), Piece::White);
    assert_eq!(at(&g, 3, 3), Piece::White);
    assert_eq!(at(&g, 2, 3), Piece::Black);
    assert_eq!(g.count_pieces(), (3, 3));
    assert_eq!(g.winner(), None);
}

#[test]
fn placement_without_capture_is_unplaceable() {
    let mut g = Game::new();
    let before = g.cells.clone();
    assert_eq!(
        g.try_put(PiecePosition::from(0, 0), 1, String::from("b")),
        Err(OthelloOpError::Unplaceable)
    );
    assert_eq!(
        g.try_put(PiecePosition::from(3, 3), 1, String::from("b")),
        Err(OthelloOpError::Unplaceable)
    );
    assert_eq!(g.cells, before);
    assert_eq!(g.turn, Piece::Black);
    assert!(g.players.first.is_none());
}

#[test]
fn other_user_on_bound_seat_is_refused() {
    let mut g = Game::new();
    assert_eq!(g.try_put(PiecePosition::from(2, 3), 1, String::from("b")), Ok(false));
    assert_eq!(g.try_put(PiecePosition::from(2, 2), 2, String::from("w")), Ok(false));
    assert_eq!(
        g.try_put(PiecePosition::from(1, 1), 2, String::from("w")),
        Err(OthelloOpError::NotYourTurn)
    );
}

#[test]
fn reverse_swaps_colours() {
    assert_eq!(Piece::Black.reverse(), Piece::White);
    assert_eq!(Piece::White.reverse(), Piece::Black);
    assert_eq!(Piece::Empty.reverse(), Piece::Empty);
}

#[test]
fn parse_othello_buttons() {
    assert_eq!(PiecePosition::try_parse_callback("othello_7_7"), Some(PiecePosition::from(7, 7)));
    assert_eq!(PiecePosition::try_parse_callback("othello_8_0"), None);
    assert_eq!(PiecePosition::try_parse_callback("othello-1-1"), None);
}
