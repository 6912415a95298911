use chatgames::binding::{PlayerBinding, Side};
use chatgames::connect_four;
use chatgames::minesweeper;
use chatgames::othello;
use chatgames::session::{MoveError, SessionKey, SessionStore};
use chatgames::tictactoe::{self, GameState, PiecePosition, TicTacToeOpError};

fn key(chat: i64, message: i64) -> SessionKey {
    SessionKey { chat, message }
}

#[test]
fn get_or_create_keeps_the_first_game() {
    let mut store: SessionStore<tictactoe::Game> = SessionStore::new();
    assert!(!store.contains(key(1, 10)));
    assert!(store.get_or_create(key(1, 10), tictactoe::Game::new(), 100));
    assert!(!store.get_or_create(key(1, 10), tictactoe::Game::new(), 200));
    assert_eq!(store.get(key(1, 10)).unwrap().created_at, 100);
    assert!(store.get_or_create(key(1, 11), tictactoe::Game::new(), 200));
    assert!(store.contains(key(1, 11)));
    assert!(store.get(key(2, 10)).is_none());
}

#[test]
fn remove_returns_the_game() {
    let mut store: SessionStore<tictactoe::Game> = SessionStore::new();
    store.get_or_create(key(1, 10), tictactoe::Game::new(), 5);
    let s = store.remove(key(1, 10)).unwrap();
    assert_eq!(s.key, key(1, 10));
    assert_eq!(s.created_at, 5);
    assert!(store.remove(key(1, 10)).is_none());
    assert!(!store.contains(key(1, 10)));
}

#[test]
fn sweep_respects_the_lifetime_window() {
    let mut store: SessionStore<tictactoe::Game> = SessionStore::new();
    store.get_or_create(key(1, 1), tictactoe::Game::new(), 1000);
    store.get_or_create(key(1, 2), tictactoe::Game::new(), 5000);
    store.collect_garbage(1000 + 3600 - 1, 3600);
    assert!(store.contains(key(1, 1)));
    store.collect_garbage(1000 + 3600 + 1, 3600);
    assert!(!store.contains(key(1, 1)));
    assert!(store.contains(key(1, 2)));
    store.collect_garbage(1000 + 3600, 3600);
    assert!(store.contains(key(1, 2)));
}

#[test]
fn sweep_keeps_sessions_created_after_it() {
    let mut store: SessionStore<tictactoe::Game> = SessionStore::new();
    store.get_or_create(key(3, 3), tictactoe::Game::new(), 500);
    store.collect_garbage(100, 0);
    assert!(store.contains(key(3, 3)));
    store.collect_garbage(500, 0);
    assert!(!store.contains(key(3, 3)));
}

#[test]
fn moves_on_missing_or_off_board_are_refused() {
    let mut store: SessionStore<tictactoe::Game> = SessionStore::new();
    assert_eq!(
        tictactoe::play(&mut store, key(1, 1), PiecePosition::from(0, 0), 7, String::from("a")).map(|r| r.0),
        Err(MoveError::SessionNotFound)
    );
    store.get_or_create(key(1, 1), tictactoe::Game::new(), 0);
    assert_eq!(
        tictactoe::play(&mut store, key(1, 1), PiecePosition::from(3, 0), 7, String::from("a")).map(|r| r.0),
        Err(MoveError::OutOfBoard)
    );
    assert!(store.contains(key(1, 1)));
}

#[test]
fn serialized_moves_replay_to_the_same_board() {
    let mut store: SessionStore<tictactoe::Game> = SessionStore::new();
    store.get_or_create(key(1, 1), tictactoe::Game::new(), 0);
    let requests = [
        (0usize, 0usize, 1i64),
        (0, 0, 2),
        (1, 1, 2),
        (1, 1, 1),
        (2, 2, 3),
        (2, 2, 1),
    ];
    let mut accepted = Vec::new();
    for (r, c, id) in requests.iter() {
        let res = tictactoe::play(&mut store, key(1, 1), PiecePosition::from(*r, *c), *id, format!("u{}", id))
            .map(|r| r.0);
        if res.is_ok() {
            accepted.push((*r, *c, *id));
        }
    }
    assert_eq!(accepted, vec![(0, 0, 1), (1, 1, 2), (2, 2, 1)]);
    let mut g = tictactoe::Game::new();
    for (r, c, id) in accepted.iter() {
        assert!(g.try_put(PiecePosition::from(*r, *c), *id, format!("u{}", id)).is_ok());
    }
    let stored = &store.get(key(1, 1)).unwrap().game;
    assert_eq!(stored.cells, g.cells);
    assert_eq!(stored.turn, g.turn);
}

#[test]
fn finished_game_leaves_the_store() {
    let mut store: SessionStore<tictactoe::Game> = SessionStore::new();
    store.get_or_create(key(9, 9), tictactoe::Game::new(), 0);
    let moves = [(0, 0, 1), (1, 0, 2), (0, 1, 1), (1, 1, 2)];
    for (r, c, id) in moves.iter() {
        assert_eq!(
            tictactoe::play(&mut store, key(9, 9), PiecePosition::from(*r, *c), *id, String::from("x")).map(|r| r.0),
            Ok(GameState::OnGoing)
        );
    }
    assert_eq!(
        tictactoe::play(&mut store, key(9, 9), PiecePosition::from(1, 2), 2, String::from("x")).map(|r| r.0),
        Err(MoveError::Game(TicTacToeOpError::NotYourTurn))
    );
    let (state, ended) =
        tictactoe::play(&mut store, key(9, 9), PiecePosition::from(0, 2), 1, String::from("x")).unwrap();
    assert_eq!(state, GameState::Win(tictactoe::Piece::Cross));
    assert_eq!(ended.unwrap().get(PiecePosition::from(0, 2)), tictactoe::Piece::Cross);
    assert!(!store.contains(key(9, 9)));
    assert_eq!(
        tictactoe::play(&mut store, key(9, 9), PiecePosition::from(2, 2), 2, String::from("x")).map(|r| r.0),
        Err(MoveError::SessionNotFound)
    );
}

#[test]
fn other_games_through_the_store() {
    let mut reversi: SessionStore<othello::Game> = SessionStore::new();
    reversi.get_or_create(key(1, 2), othello::Game::new(), 0);
    assert_eq!(
        othello::play(&mut reversi, key(1, 2), othello::PiecePosition::from(0, 0), 1, String::from("b")).map(|r| r.0),
        Err(MoveError::Game(othello::OthelloOpError::Unplaceable))
    );
    assert_eq!(
        othello::play(&mut reversi, key(1, 2), othello::PiecePosition::from(2, 3), 1, String::from("b")).map(|r| r.0),
        Ok(false)
    );
    assert_eq!(
        othello::play(&mut reversi, key(1, 2), othello::PiecePosition::from(8, 3), 1, String::from("b")).map(|r| r.0),
        Err(MoveError::OutOfBoard)
    );

    let mut four: SessionStore<connect_four::Game> = SessionStore::new();
    four.get_or_create(key(1, 3), connect_four::Game::new(6, 7).unwrap(), 0);
    assert_eq!(
        connect_four::play(&mut four, key(1, 3), 7, 1, String::from("a")).map(|r| r.0),
        Err(MoveError::OutOfBoard)
    );
    assert_eq!(
        connect_four::play(&mut four, key(1, 3), 6, 1, String::from("a")).map(|r| r.0),
        Ok(connect_four::GameState::OnGoing)
    );

    let mut mines: SessionStore<minesweeper::Game> = SessionStore::new();
    let mut layout = vec![false; 9];
    layout[4] = true;
    mines.get_or_create(key(1, 4), minesweeper::Game::from_layout((3, 3), &layout).unwrap(), 0);
    assert_eq!(
        minesweeper::play(&mut mines, key(1, 4), 0, 3, String::from("m")).map(|r| r.0),
        Err(MoveError::OutOfBoard)
    );
    let (state, ended) = minesweeper::play(&mut mines, key(1, 4), 1, 1, String::from("m")).unwrap();
    assert_eq!(state, minesweeper::GameState::Failed);
    assert_eq!(ended.unwrap().get(1, 1).mask_type, minesweeper::MaskType::Exploded);
    assert!(!mines.contains(key(1, 4)));
}

#[test]
fn binding_is_fixed_once_made() {
    let mut b = PlayerBinding::new();
    assert!(b.admits_user(Side::First, 5));
    assert!(b.bind_or_check(Side::First, 5, String::from("five")));
    assert!(!b.bind_or_check(Side::First, 6, String::from("six")));
    assert!(b.bind_or_check(Side::First, 5, String::from("again")));
    assert_eq!(b.first, Some((5, String::from("five"))));
    assert!(b.second.is_none());
    b.bind(Side::Second, 6, String::from("six"));
    b.bind(Side::Second, 7, String::from("seven"));
    assert_eq!(b.second, Some((6, String::from("six"))));
}
