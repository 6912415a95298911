use chatgames::tictactoe::{Game, GameState, Piece, PiecePosition, TicTacToeOpError};

fn put(g: &mut Game, row: usize, col: usize, id: i64) -> Result<GameState, TicTacToeOpError> {
    let name = format!("user{}", id);
    g.try_put(PiecePosition::from(row, col), id, name)
}

#[test]
fn full_board_without_line_is_draw() {
    let mut g = Game::new();
    let moves = [(0, 0), (0, 1), (0, 2), (1, 1), (1, 0), (1, 2), (2, 1), (2, 0)];
    for (k, (r, c)) in moves.iter().enumerate() {
        let id = if k % 2 == 0 { 1 } else { 2 };
        assert_eq!(put(&mut g, *r, *c, id), Ok(GameState::OnGoing));
    }
    assert_eq!(put(&mut g, 2, 2, 1), Ok(GameState::Draw));
}

#[test]
fn completed_row_wins_at_once() {
    let mut g = Game::new();
    assert_eq!(put(&mut g, 0, 0, 1), Ok(GameState::OnGoing));
    assert_eq!(put(&mut g, 1, 0, 2), Ok(GameState::OnGoing));
    assert_eq!(put(&mut g, 0, 1, 1), Ok(GameState::OnGoing));
    assert_eq!(put(&mut g, 1, 1, 2), Ok(GameState::OnGoing));
    assert_eq!(put(&mut g, 0, 2, 1), Ok(GameState::Win(Piece::Cross)));
}

#[test]
fn completed_diagonal_wins_for_nought() {
    let mut g = Game::new();
    assert_eq!(put(&mut g, 0, 1, 1), Ok(GameState::OnGoing));
    assert_eq!(put(&mut g, 0, 2, 2), Ok(GameState::OnGoing));
    assert_eq!(put(&mut g, 0, 0, 1), Ok(GameState::OnGoing));
    assert_eq!(put(&mut g, 1, 1, 2), Ok(GameState::OnGoing));
    assert_eq!(put(&mut g, 2, 2, 1), Ok(GameState::OnGoing));
    assert_eq!(put(&mut g, 2, 0, 2), Ok(GameState::Win(Piece::Nought)));
}

#[test]
fn taken_cell_is_refused() {
    let mut g = Game::new();
    assert_eq!(put(&mut g, 1, 1, 1), Ok(GameState::OnGoing));
    assert_eq!(put(&mut g, 1, 1, 2), Err(TicTacToeOpError::CellNotEmpty));
    assert_eq!(g.turn, Piece::Nought);
    assert_eq!(g.get(PiecePosition::from(1, 1)), Piece::Cross);
}

#[test]
fn bound_seat_refuses_other_user() {
    let mut g = Game::new();
    assert_eq!(put(&mut g, 0, 0, 1), Ok(GameState::OnGoing));
    assert_eq!(put(&mut g, 0, 1, 2), Ok(GameState::OnGoing));
    assert_eq!(put(&mut g, 0, 2, 2), Err(TicTacToeOpError::NotYourTurn));
    assert_eq!(g.players.first.as_ref().map(|p| p.0), Some(1));
    assert_eq!(g.players.second.as_ref().map(|p| p.1.clone()), Some(String::from("user2")));
}

#[test]
fn parse_tictactoe_buttons() {
    assert_eq!(PiecePosition::try_parse_callback("tictactoe_1_2"), Some(PiecePosition::from(1, 2)));
    assert_eq!(PiecePosition::try_parse_callback("tictactoe_+0_2"), Some(PiecePosition::from(0, 2)));
    assert_eq!(PiecePosition::try_parse_callback("tictactoe_3_0"), None);
    assert_eq!(PiecePosition::try_parse_callback("tictactoe_1"), None);
    assert_eq!(PiecePosition::try_parse_callback("tictactoe_1_2_0"), None);
    assert_eq!(PiecePosition::try_parse_callback("tictactoe_a_2"), None);
    assert_eq!(PiecePosition::try_parse_callback("othello_1_2"), None);
    assert_eq!(PiecePosition::try_parse_callback(""), None);
}
