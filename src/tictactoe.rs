//! Tic-tac-toe on a 3×3 board: Cross moves first, Nought second.

use vstd::prelude::*;
use vstd::string::StringSliceAdditionalSpecFns;
use crate::callback::{parse_tagged, tagged_numbers};
use crate::binding::{PlayerBinding, Side};
use crate::session::{answer_of, MoveError, Session, SessionKey, SessionStore};

verus! {

#[derive(Clone, Copy, Debug, PartialEq, Eq, Structural)]
pub enum Piece {
    Cross,
    Nought,
    Empty,
}

/// State of a board after a move.
#[derive(Clone, Copy, Debug, PartialEq, Eq, Structural)]
pub enum GameState {
    OnGoing,
    Draw,
    Win(Piece),
}

/// Why a move was refused; the board is left unchanged.
#[derive(Clone, Copy, Debug, PartialEq, Eq, Structural)]
pub enum TicTacToeOpError {
    /// The target cell already holds a piece.
    CellNotEmpty,
    /// The seat whose turn it is belongs to another user.
    NotYourTurn,
}

/// A cell of the board.
#[derive(Clone, Copy, Debug, PartialEq, Eq, Structural)]
pub struct PiecePosition {
    pub row: usize,
    pub col: usize,
}

/// The cell named by a button's data `tictactoe_<row>_<col>`, when it lies
/// on the board.
pub open spec fn position_of(data: Seq<u8>) -> Option<PiecePosition> {
    match tagged_numbers(data, "tictactoe".spec_bytes(), 95, 2) {
        Some(v) => if v[0] < 3 && v[1] < 3 {
            Some(PiecePosition { row: v[0], col: v[1] })
        } else {
            None
        },
        None => None,
    }
}

impl PiecePosition {
    pub fn from(row: usize, col: usize) -> (r: Self)
        ensures
            r.row == row,
            r.col == col,
    {
        PiecePosition { row, col }
    }

    /// Reads a button's data as `position_of` says.
    pub fn try_parse_callback(data: &str) -> (r: Option<Self>)
        ensures
            r == position_of(data.spec_bytes()),
    {
        match parse_tagged(data, "tictactoe", 95, 2) {
            Some(v) => {
                if v[0] < 3 && v[1] < 3 {
                    Some(PiecePosition { row: v[0], col: v[1] })
                } else {
                    None
                }
            },
            None => None,
        }
    }
}

pub open spec fn cell_index(row: int, col: int) -> int {
    row * 3 + col
}

/// Index of the `k`-th cell of line `l`: rows 0..3, columns 3..6, the two
/// diagonals 6 and 7.
pub open spec fn line_cell(l: int, k: int) -> int {
    if l < 3 {
        cell_index(l, k)
    } else if l < 6 {
        cell_index(k, l - 3)
    } else if l == 6 {
        cell_index(k, k)
    } else {
        cell_index(k, 2 - k)
    }
}

/// Line `l` holds three equal pieces.
pub open spec fn line_complete(cells: Seq<Piece>, l: int) -> bool {
    &&& cells[line_cell(l, 0)] != Piece::Empty
    &&& cells[line_cell(l, 0)] == cells[line_cell(l, 1)]
    &&& cells[line_cell(l, 0)] == cells[line_cell(l, 2)]
}

/// The piece of the first complete line among lines `l..8`.
pub open spec fn winner_from(cells: Seq<Piece>, l: int) -> Option<Piece>
    decreases 8 - l,
{
    if l >= 8 {
        None
    } else if line_complete(cells, l) {
        Some(cells[line_cell(l, 0)])
    } else {
        winner_from(cells, l + 1)
    }
}

pub open spec fn is_full(cells: Seq<Piece>) -> bool {
    forall|i: int| 0 <= i < 9 ==> cells[i] != Piece::Empty
}

/// Win for the owner of a complete line; else a draw on a full board; else on going.
pub open spec fn evaluate(cells: Seq<Piece>) -> GameState {
    match winner_from(cells, 0) {
        Some(p) => GameState::Win(p),
        None => if is_full(cells) {
            GameState::Draw
        } else {
            GameState::OnGoing
        },
    }
}

pub open spec fn side_of(turn: Piece) -> Side {
    if turn == Piece::Cross {
        Side::First
    } else {
        Side::Second
    }
}

pub open spec fn next_piece(turn: Piece) -> Piece {
    if turn == Piece::Cross {
        Piece::Nought
    } else {
        Piece::Cross
    }
}

fn line_cell_exec(l: usize, k: usize) -> (r: usize)
    requires
        l < 8,
        k < 3,
    ensures
        r == line_cell(l as int, k as int),
        r < 9,
{
    if l < 3 {
        l * 3 + k
    } else if l < 6 {
        k * 3 + (l - 3)
    } else if l == 6 {
        k * 3 + k
    } else {
        k * 3 + (2 - k)
    }
}

/// What a game is, as values: the board, whose turn it is, the seats.
pub struct GameView {
    pub cells: Seq<Piece>,
    pub turn: Piece,
    pub players: PlayerBinding,
}

/// The game and the answer after user `id` (shown as `name`) asks to
/// place the piece whose turn it is at `pos`: refused with `NotYourTurn`
/// when the mover's seat is bound to another user, with `CellNotEmpty`
/// when the cell is taken; else the cell is set, the turn passes, a free
/// seat of the mover is bound to the user, and the state of the new board
/// is returned.
pub open spec fn put_spec(g: GameView, pos: PiecePosition, id: i64, name: String) -> (GameView, Result<
    GameState,
    TicTacToeOpError,
>) {
    let i = cell_index(pos.row as int, pos.col as int);
    let side = side_of(g.turn);
    if !g.players.admits(side, id) {
        (g, Err(TicTacToeOpError::NotYourTurn))
    } else if g.cells[i] != Piece::Empty {
        (g, Err(TicTacToeOpError::CellNotEmpty))
    } else {
        let cells = g.cells.update(i, g.turn);
        (
            GameView {
                cells,
                turn: next_piece(g.turn),
                players: g.players.bound_after(side, id, name),
            },
            Ok(evaluate(cells)),
        )
    }
}

/// A game: the board, whose turn it is, and who plays which piece.
#[derive(Clone, Debug)]
pub struct Game {
    pub cells: Vec<Piece>,
    pub turn: Piece,
    pub players: PlayerBinding,
}

impl Game {
    pub open spec fn view(&self) -> GameView {
        GameView { cells: self.cells@, turn: self.turn, players: self.players }
    }

    pub open spec fn wf(&self) -> bool {
        &&& self.cells@.len() == 9
        &&& self.turn != Piece::Empty
    }

    /// An empty board, Cross to move, no seat bound.
    pub fn new() -> (r: Self)
        ensures
            r.wf(),
            forall|i: int| 0 <= i < 9 ==> r.cells@[i] == Piece::Empty,
            r.turn == Piece::Cross,
            r.players.first is None,
            r.players.second is None,
    {
        let mut cells: Vec<Piece> = Vec::new();
        let mut i: usize = 0;
        while i < 9
            invariant
                i <= 9,
                cells@.len() == i,
                forall|j: int| 0 <= j < i ==> cells@[j] == Piece::Empty,
            decreases 9 - i,
        {
            cells.push(Piece::Empty);
            i += 1;
        }
        Game { cells, turn: Piece::Cross, players: PlayerBinding::new() }
    }

    /// The piece at a cell.
    pub fn get(&self, pos: PiecePosition) -> (r: Piece)
        requires
            self.wf(),
            pos.row < 3,
            pos.col < 3,
        ensures
            r == self.cells@[cell_index(pos.row as int, pos.col as int)],
    {
        self.cells[pos.row * 3 + pos.col]
    }

    /// State of the board: checks the three rows, three columns and two diagonals.
    pub fn get_game_state(&self) -> (r: GameState)
        requires
            self.wf(),
        ensures
            r == evaluate(self.cells@),
    {
        let mut l: usize = 0;
        while l < 8
            invariant
                self.wf(),
                l <= 8,
                winner_from(self.cells@, 0) == winner_from(self.cells@, l as int),
            decreases 8 - l,
        {
            let a = self.cells[line_cell_exec(l, 0)];
            if a != Piece::Empty && a == self.cells[line_cell_exec(l, 1)] && a
                == self.cells[line_cell_exec(l, 2)] {
                return GameState::Win(a);
            }
            l += 1;
        }
        let mut i: usize = 0;
        while i < 9
            invariant
                self.wf(),
                i <= 9,
                winner_from(self.cells@, 0) is None,
                forall|j: int| 0 <= j < i ==> self.cells@[j] != Piece::Empty,
            decreases 9 - i,
        {
            if self.cells[i] == Piece::Empty {
                return GameState::OnGoing;
            }
            i += 1;
        }
        GameState::Draw
    }

    /// User `id` (shown as `name`) places the piece whose turn it is at `pos`.
    /// On success the cell is set, the turn passes, a free seat of the mover
    /// is bound to the user, and the state of the new board is returned.
    pub fn try_put(&mut self, pos: PiecePosition, id: i64, name: String) -> (r: Result<
        GameState,
        TicTacToeOpError,
    >)
        requires
            old(self).wf(),
            pos.row < 3,
            pos.col < 3,
        ensures
            final(self).wf(),
            (final(self).view(), r) == put_spec(old(self).view(), pos, id, name),
    {
        let side = if self.turn == Piece::Cross {
            Side::First
        } else {
            Side::Second
        };
        if !self.players.admits_user(side, id) {
            return Err(TicTacToeOpError::NotYourTurn);
        }
        let i = pos.row * 3 + pos.col;
        if self.cells[i] != Piece::Empty {
            return Err(TicTacToeOpError::CellNotEmpty);
        }
        let turn = self.turn;
        self.cells.set(i, turn);
        self.turn = if turn == Piece::Cross {
            Piece::Nought
        } else {
            Piece::Cross
        };
        self.players.bind(side, id, name);
        Ok(self.get_game_state())
    }
}


/// The first complete line from `l` on gives the winner; with none, there
/// is no winner.
proof fn lemma_winner_from(cells: Seq<Piece>, l: int)
    requires
        0 <= l <= 8,
    ensures
        winner_from(cells, l) is None <==> forall|l2: int| l <= l2 < 8 ==> !#[trigger] line_complete(cells, l2),
        winner_from(cells, l) matches Some(p) ==> exists|l2: int|
            l <= l2 < 8 && #[trigger] line_complete(cells, l2) && p == cells[line_cell(l2, 0)],
    decreases 8 - l,
{
    if l < 8 {
        lemma_winner_from(cells, l + 1);
    }
}

/// A full board without a complete line is a draw.
pub proof fn lemma_full_board_is_draw(cells: Seq<Piece>)
    requires
        cells.len() == 9,
        is_full(cells),
        forall|l: int| 0 <= l < 8 ==> !#[trigger] line_complete(cells, l),
    ensures
        evaluate(cells) == GameState::Draw,
{
    lemma_winner_from(cells, 0);
}

/// A board without a complete line is not won.
pub proof fn lemma_no_line_no_win(cells: Seq<Piece>)
    requires
        cells.len() == 9,
        forall|l: int| 0 <= l < 8 ==> !#[trigger] line_complete(cells, l),
    ensures
        !(evaluate(cells) is Win),
{
    lemma_winner_from(cells, 0);
}

/// The move that completes a line on a board without one wins for the
/// mover, at once.
pub proof fn lemma_completing_move_wins(g: GameView, pos: PiecePosition, id: i64, name: String, l: int)
    requires
        g.cells.len() == 9,
        g.turn != Piece::Empty,
        pos.row < 3,
        pos.col < 3,
        0 <= l < 8,
        forall|l2: int| 0 <= l2 < 8 ==> !#[trigger] line_complete(g.cells, l2),
        put_spec(g, pos, id, name).1 is Ok,
        line_complete(put_spec(g, pos, id, name).0.cells, l),
    ensures
        put_spec(g, pos, id, name).1 == Ok::<GameState, TicTacToeOpError>(GameState::Win(g.turn)),
{
    let after = put_spec(g, pos, id, name).0.cells;
    let i = cell_index(pos.row as int, pos.col as int);
    lemma_winner_from(after, 0);
    let p = winner_from(after, 0)->Some_0;
    let l2 = choose|l2: int| 0 <= l2 < 8 && #[trigger] line_complete(after, l2) && p == after[line_cell(l2, 0)];
    assert(!line_complete(g.cells, l2));
    assert(line_cell(l2, 0) == i || line_cell(l2, 1) == i || line_cell(l2, 2) == i);
}

/// The running games, as values: under each key the game and its creation time.
pub open spec fn store_model(m: Map<SessionKey, Session<Game>>) -> Map<SessionKey, (GameView, u64)> {
    m.map_values(|s: Session<Game>| (s.game.view(), s.created_at))
}

pub open spec fn games_wf(m: Map<SessionKey, Session<Game>>) -> bool {
    forall|k: SessionKey| #[trigger] m.contains_key(k) ==> m[k].game.wf()
}

/// The games and the answer after user `id` (shown as `name`) asks to
/// move at `pos` in the game under `key`: a game that ends with the move
/// is removed, one that goes on is kept with the move made, and a refused
/// move changes nothing.
pub open spec fn play_spec(
    model: Map<SessionKey, (GameView, u64)>,
    key: SessionKey,
    pos: PiecePosition,
    id: i64,
    name: String,
) -> (Map<SessionKey, (GameView, u64)>, Result<GameState, MoveError<TicTacToeOpError>>) {
    if !model.contains_key(key) {
        (model, Err(MoveError::SessionNotFound))
    } else if pos.row >= 3 || pos.col >= 3 {
        (model, Err(MoveError::OutOfBoard))
    } else {
        let (g, t) = model[key];
        let (g2, res) = put_spec(g, pos, id, name);
        match res {
            Err(e) => (model, Err(MoveError::Game(e))),
            Ok(st) => (
                if st == GameState::OnGoing {
                    model.insert(key, (g2, t))
                } else {
                    model.remove(key)
                },
                Ok(st),
            ),
        }
    }
}

/// Makes the move of user `id` (shown as `name`) at `pos` in the game
/// under `key`, as `play_spec` says; a game that ends is handed back.
pub fn play(store: &mut SessionStore<Game>, key: SessionKey, pos: PiecePosition, id: i64, name: String) -> (r: Result<
    (GameState, Option<Game>),
    MoveError<TicTacToeOpError>,
>)
    requires
        old(store).wf(),
        games_wf(old(store).view()),
    ensures
        final(store).wf(),
        games_wf(final(store).view()),
        ({
            let (m2, a) = play_spec(store_model(old(store).view()), key, pos, id, name);
            store_model(final(store).view()) == m2 && answer_of(r) == a
        }),
        r matches Ok((st, ended)) ==> (ended is Some <==> st != GameState::OnGoing) && (ended matches Some(g) ==> g.wf()
            && g.view() == put_spec(store_model(old(store).view())[key].0, pos, id, name).0),
{
    let ghost m0 = store.view();
    match store.remove(key) {
        None => {
            proof {
                assert(store.view() =~= m0);
            }
            Err(MoveError::SessionNotFound)
        },
        Some(s) => {
            let ghost m1 = store.view();
            let Session { key: _, game, created_at } = s;
            let mut game = game;
            proof {
                assert(m0.contains_key(key));
                assert(m1 == m0.remove(key));
            }
            if pos.row >= 3 || pos.col >= 3 {
                store.get_or_create(key, game, created_at);
                proof {
                    assert(store_model(store.view()) =~= store_model(m0));
                }
                return Err(MoveError::OutOfBoard);
            }
            let res = game.try_put(pos, id, name);
            match res {
                Err(e) => {
                    store.get_or_create(key, game, created_at);
                    proof {
                        assert(store_model(store.view()) =~= store_model(m0));
                    }
                    Err(MoveError::Game(e))
                },
                Ok(st) => {
                    if st == GameState::OnGoing {
                        store.get_or_create(key, game, created_at);
                        proof {
                            assert(store_model(store.view()) =~= store_model(m0).insert(
                                key,
                                (game.view(), created_at),
                            ));
                        }
                        Ok((st, None))
                    } else {
                        proof {
                            assert(store_model(store.view()) =~= store_model(m0).remove(key));
                        }
                        Ok((st, Some(game)))
                    }
                },
            }
        },
    }
}

/// Move requests applied to the running games in the order they took the
/// store: `(key, cell, user id, name)` each.
pub open spec fn replay(
    m: Map<SessionKey, (GameView, u64)>,
    moves: Seq<(SessionKey, PiecePosition, i64, String)>,
) -> Map<SessionKey, (GameView, u64)>
    decreases moves.len(),
{
    if moves.len() == 0 {
        m
    } else {
        let q = moves[0];
        replay(play_spec(m, q.0, q.1, q.2, q.3).0, moves.subrange(1, moves.len() as int))
    }
}

/// The requests of `moves` that are accepted when applied in order to `m`.
pub open spec fn accepted(
    m: Map<SessionKey, (GameView, u64)>,
    moves: Seq<(SessionKey, PiecePosition, i64, String)>,
) -> Seq<(SessionKey, PiecePosition, i64, String)>
    decreases moves.len(),
{
    if moves.len() == 0 {
        moves
    } else {
        let q = moves[0];
        let rest = accepted(play_spec(m, q.0, q.1, q.2, q.3).0, moves.subrange(1, moves.len() as int));
        if play_spec(m, q.0, q.1, q.2, q.3).1 is Ok {
            seq![q].add(rest)
        } else {
            rest
        }
    }
}

/// Every request of `moves` is accepted when applied in order to `m`.
pub open spec fn all_accepted(
    m: Map<SessionKey, (GameView, u64)>,
    moves: Seq<(SessionKey, PiecePosition, i64, String)>,
) -> bool
    decreases moves.len(),
{
    if moves.len() == 0 {
        true
    } else {
        let q = moves[0];
        play_spec(m, q.0, q.1, q.2, q.3).1 is Ok && all_accepted(
            play_spec(m, q.0, q.1, q.2, q.3).0,
            moves.subrange(1, moves.len() as int),
        )
    }
}

/// Requests serialized by the store's lock: a refused request changes
/// nothing, so the games equal those built by replaying the accepted
/// requests alone, one after the other, and each of those is accepted again
/// in that replay.
pub proof fn lemma_serialized_moves(
    m: Map<SessionKey, (GameView, u64)>,
    moves: Seq<(SessionKey, PiecePosition, i64, String)>,
)
    ensures
        replay(m, moves) == replay(m, accepted(m, moves)),
        all_accepted(m, accepted(m, moves)),
    decreases moves.len(),
{
    if moves.len() > 0 {
        let q = moves[0];
        let rest = moves.subrange(1, moves.len() as int);
        let m2 = play_spec(m, q.0, q.1, q.2, q.3).0;
        lemma_serialized_moves(m2, rest);
        if play_spec(m, q.0, q.1, q.2, q.3).1 is Ok {
            let acc = seq![q].add(accepted(m2, rest));
            assert(acc[0] == q);
            assert(acc.subrange(1, acc.len() as int) =~= accepted(m2, rest));
        }
    }
}

} // verus!
