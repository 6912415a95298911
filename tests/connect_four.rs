use chatgames::connect_four::{parse_callback_data, ConnectFourError, Game, GameState, Piece};

#[test]
fn column_takes_six_then_refuses() {
    let mut g = Game::new(6, 7).unwrap();
    for k in 0..6 {
        let id = if k % 2 == 0 { 1 } else { 2 };
        assert_eq!(g.put(0, id, format!("u{}", id)), Ok(GameState::OnGoing));
    }
    for r in 0..6 {
        assert_ne!(g.get(r, 0), Piece::Empty);
    }
    assert_eq!(g.get(5, 0), Piece::PlayerA);
    assert_eq!(g.get(0, 0), Piece::PlayerB);
    assert_eq!(g.put(0, 1, String::from("u1")), Err(ConnectFourError::ColumnFilled));
    assert_eq!(g.filled[0], 6);
}

#[test]
fn diagonal_of_four_wins_at_once() {
    let mut g = Game::new(6, 7).unwrap();
    let cols = [0, 1, 1, 2, 2, 3, 2, 3, 3, 6];
    for (k, c) in cols.iter().enumerate() {
        let id = if k % 2 == 0 { 1 } else { 2 };
        assert_eq!(g.put(*c, id, format!("u{}", id)), Ok(GameState::OnGoing));
    }
    assert_eq!(g.put(3, 1, String::from("u1")), Ok(GameState::Win(Piece::PlayerA)));
    assert_eq!(g.get(2, 3), Piece::PlayerA);
}

#[test]
fn pieces_fall_to_the_bottom() {
    let mut g = Game::new(6, 7).unwrap();
    assert_eq!(g.put(4, 1, String::from("a")), Ok(GameState::OnGoing));
    assert_eq!(g.get(5, 4), Piece::PlayerA);
    assert_eq!(g.get(4, 4), Piece::Empty);
    assert_eq!(g.put(4, 2, String::from("b")), Ok(GameState::OnGoing));
    assert_eq!(g.get(4, 4), Piece::PlayerB);
}

#[test]
fn other_user_on_bound_seat_is_refused_in_connect_four() {
    let mut g = Game::new(6, 7).unwrap();
    assert_eq!(g.put(0, 1, String::from("a")), Ok(GameState::OnGoing));
    assert_eq!(g.put(1, 2, String::from("b")), Ok(GameState::OnGoing));
    assert_eq!(g.put(2, 2, String::from("b")), Err(ConnectFourError::NotYourTurn));
    assert_eq!(g.get(5, 2), Piece::Empty);
}

#[test]
fn small_board_fills_to_a_draw() {
    let mut g = Game::new(1, 2).unwrap();
    assert_eq!(g.put(0, 1, String::from("a")), Ok(GameState::OnGoing));
    assert_eq!(g.put(1, 2, String::from("b")), Ok(GameState::Draw));
}

#[test]
fn empty_board_size_is_refused() {
    assert!(Game::new(0, 7).is_none());
    assert!(Game::new(6, 0).is_none());
    assert!(Game::new(usize::MAX, 2).is_none());
}

#[test]
fn parse_connect_four_buttons() {
    assert_eq!(parse_callback_data("connectfour-3"), Some(3));
    assert_eq!(parse_callback_data("connectfour-"), None);
    assert_eq!(parse_callback_data("connectfour-1-2"), None);
    assert_eq!(parse_callback_data("connectfour-18446744073709551616"), None);
    assert_eq!(parse_callback_data("connectfour-18446744073709551615"), Some(usize::MAX));
    assert_eq!(parse_callback_data("reversi-3"), None);
}
