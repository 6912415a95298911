//! Connect four on a board of `height` rows and `width` columns (6×7 by
//! default): pieces drop to the lowest empty row of a column. Row 0 is the
//! top row.

use vstd::prelude::*;
use vstd::string::StringSliceAdditionalSpecFns;
use crate::callback::{parse_tagged, tagged_numbers};
use crate::binding::{PlayerBinding, Side};
use crate::session::{answer_of, MoveError, Session, SessionKey, SessionStore};
use crate::grid::{in_map, index_of, lemma_index, lemma_update_at};

verus! {

#[derive(Clone, Copy, Debug, PartialEq, Eq, Structural)]
pub enum Piece {
    PlayerA,
    PlayerB,
    Empty,
}

/// State of a board.
#[derive(Clone, Copy, Debug, PartialEq, Eq, Structural)]
pub enum GameState {
    OnGoing,
    Draw,
    Win(Piece),
}

/// Why a move was refused; the board is left unchanged.
#[derive(Clone, Copy, Debug, PartialEq, Eq, Structural)]
pub enum ConnectFourError {
    /// The top row of the column is taken.
    ColumnFilled,
    /// The seat whose turn it is belongs to another user.
    NotYourTurn,
}

/// The column named by a button's data `connectfour-<col>`.
pub open spec fn column_of(data: Seq<u8>) -> Option<usize> {
    match tagged_numbers(data, "connectfour".spec_bytes(), 45, 1) {
        Some(v) => Some(v[0]),
        None => None,
    }
}

/// Reads a button's data as `column_of` says.
pub fn parse_callback_data(data: &str) -> (r: Option<usize>)
    ensures
        r == column_of(data.spec_bytes()),
{
    match parse_tagged(data, "connectfour", 45, 1) {
        Some(v) => Some(v[0]),
        None => None,
    }
}

pub open spec fn at(cells: Seq<Piece>, w: int, r: int, c: int) -> Piece {
    cells[r * w + c]
}

/// Row step of direction `d`: 0 along a row, 1 down a column, 2 down to
/// the right, 3 down to the left.
pub open spec fn dir_r(d: int, i: int) -> int {
    if d == 0 {
        0
    } else {
        i
    }
}

/// Column step of direction `d`.
pub open spec fn dir_c(d: int, i: int) -> int {
    if d == 0 || d == 2 {
        i
    } else if d == 1 {
        0
    } else {
        -i
    }
}

/// Four cells from `(r, c)` along `d` lie on the board and hold `p`.
pub open spec fn four_at(cells: Seq<Piece>, h: int, w: int, r: int, c: int, d: int, p: Piece) -> bool {
    forall|i: int|
        0 <= i < 4 ==> in_map(h, w, r + #[trigger] dir_r(d, i), c + dir_c(d, i)) && at(
            cells,
            w,
            r + dir_r(d, i),
            c + dir_c(d, i),
        ) == p
}

/// `p` has four in a row somewhere: along a row, a column or a diagonal.
pub open spec fn has_four(cells: Seq<Piece>, h: int, w: int, p: Piece) -> bool {
    exists|r: int, c: int, d: int| 0 <= d < 4 && #[trigger] four_at(cells, h, w, r, c, d, p)
}

pub open spec fn is_full(cells: Seq<Piece>, h: int, w: int) -> bool {
    forall|r: int, c: int| in_map(h, w, r, c) ==> #[trigger] at(cells, w, r, c) != Piece::Empty
}

/// A win for a player with four in a row (PlayerA first); else a draw on
/// a full board; else on going.
pub open spec fn evaluate(cells: Seq<Piece>, h: int, w: int) -> GameState {
    if has_four(cells, h, w, Piece::PlayerA) {
        GameState::Win(Piece::PlayerA)
    } else if has_four(cells, h, w, Piece::PlayerB) {
        GameState::Win(Piece::PlayerB)
    } else if is_full(cells, h, w) {
        GameState::Draw
    } else {
        GameState::OnGoing
    }
}

pub open spec fn side_of(turn: Piece) -> Side {
    if turn == Piece::PlayerA {
        Side::First
    } else {
        Side::Second
    }
}

pub open spec fn next_piece(turn: Piece) -> Piece {
    if turn == Piece::PlayerA {
        Piece::PlayerB
    } else {
        Piece::PlayerA
    }
}

/// What a game is, as values.
pub struct GameView {
    pub cells: Seq<Piece>,
    pub filled: Seq<usize>,
    pub height: usize,
    pub width: usize,
    pub turn: Piece,
    pub players: PlayerBinding,
}

/// The game and the answer after user `id` (shown as `name`) asks to
/// drop the piece whose turn it is into column `col`: refused with
/// `NotYourTurn` when the mover's seat is bound to another user, with
/// `ColumnFilled` when the top cell of the column is taken; else the piece
/// lands in the lowest empty row, the turn passes, a free seat of the
/// mover is bound to the user, and the state of the new board is returned.
pub open spec fn put_spec(g: GameView, col: usize, id: i64, name: String) -> (GameView, Result<
    GameState,
    ConnectFourError,
>) {
    let (h, w, c) = (g.height as int, g.width as int, col as int);
    let side = side_of(g.turn);
    if !g.players.admits(side, id) {
        (g, Err(ConnectFourError::NotYourTurn))
    } else if at(g.cells, w, 0, c) != Piece::Empty {
        (g, Err(ConnectFourError::ColumnFilled))
    } else {
        let r = h - 1 - g.filled[c];
        let cells = g.cells.update(r * w + c, g.turn);
        (
            GameView {
                cells,
                filled: g.filled.update(c, (g.filled[c] + 1) as usize),
                height: g.height,
                width: g.width,
                turn: next_piece(g.turn),
                players: g.players.bound_after(side, id, name),
            },
            Ok(evaluate(cells, h, w)),
        )
    }
}

/// A game: the board, the number of pieces in each column, whose turn it
/// is, and who plays which piece.
#[derive(Clone, Debug)]
pub struct Game {
    pub cells: Vec<Piece>,
    pub filled: Vec<usize>,
    pub height: usize,
    pub width: usize,
    pub turn: Piece,
    pub players: PlayerBinding,
}

impl Game {
    pub open spec fn view(&self) -> GameView {
        GameView {
            cells: self.cells@,
            filled: self.filled@,
            height: self.height,
            width: self.width,
            turn: self.turn,
            players: self.players,
        }
    }

    /// The board keeps its size, and the pieces of each column fill its
    /// bottom `filled[c]` rows.
    pub open spec fn wf(&self) -> bool {
        &&& self.cells@.len() == self.height * self.width
        &&& self.filled@.len() == self.width
        &&& self.height > 0
        &&& self.turn != Piece::Empty
        &&& forall|c: int| 0 <= c < self.width ==> #[trigger] self.filled@[c] <= self.height
        &&& forall|r: int, c: int|
            in_map(self.height as int, self.width as int, r, c) ==> (#[trigger] at(
                self.cells@,
                self.width as int,
                r,
                c,
            ) != Piece::Empty <==> r >= self.height - self.filled@[c])
    }

    /// An empty board of `height` rows and `width` columns, PlayerA to
    /// move; `None` when a side is 0 or the board would not fit in memory.
    pub fn new(height: usize, width: usize) -> (res: Option<Game>)
        ensures
            res is Some <==> (height > 0 && width > 0 && height * width <= usize::MAX),
            res matches Some(g) ==> {
                &&& g.wf()
                &&& g.height == height
                &&& g.width == width
                &&& g.turn == Piece::PlayerA
                &&& g.players.first is None
                &&& g.players.second is None
                &&& forall|i: int| 0 <= i < g.cells@.len() ==> g.cells@[i] == Piece::Empty
            },
    {
        if height == 0 || width == 0 {
            return None;
        }
        let n = match height.checked_mul(width) {
            Some(n) => n,
            None => {
                return None;
            },
        };
        let mut cells: Vec<Piece> = Vec::new();
        let mut i: usize = 0;
        while i < n
            invariant
                i <= n,
                cells@.len() == i,
                forall|j: int| 0 <= j < i ==> cells@[j] == Piece::Empty,
            decreases n - i,
        {
            cells.push(Piece::Empty);
            i += 1;
        }
        let mut filled: Vec<usize> = Vec::new();
        let mut i: usize = 0;
        while i < width
            invariant
                i <= width,
                filled@.len() == i,
                forall|j: int| 0 <= j < i ==> filled@[j] == 0,
            decreases width - i,
        {
            filled.push(0);
            i += 1;
        }
        let g = Game {
            cells,
            filled,
            height,
            width,
            turn: Piece::PlayerA,
            players: PlayerBinding::new(),
        };
        proof {
            assert forall|r: int, c: int| in_map(height as int, width as int, r, c) implies (#[trigger] at(
                g.cells@,
                width as int,
                r,
                c,
            ) != Piece::Empty <==> r >= height - g.filled@[c]) by {
                lemma_index(height as int, width as int, r, c);
            }
        }
        Some(g)
    }

    /// The piece at `(row, col)`.
    pub fn get(&self, row: usize, col: usize) -> (p: Piece)
        requires
            self.wf(),
            in_map(self.height as int, self.width as int, row as int, col as int),
        ensures
            p == at(self.cells@, self.width as int, row as int, col as int),
    {
        self.cells[index_of(self.height, self.width, row, col, self.cells.len())]
    }

    fn piece_at(&self, r: usize, c: usize, d: usize, i: usize) -> (res: Option<Piece>)
        requires
            self.wf(),
            r < self.height,
            c < self.width,
            d < 4,
            i < 4,
        ensures
            match res {
                Some(p) => in_map(
                    self.height as int,
                    self.width as int,
                    r + dir_r(d as int, i as int),
                    c + dir_c(d as int, i as int),
                ) && p == at(
                    self.cells@,
                    self.width as int,
                    r + dir_r(d as int, i as int),
                    c + dir_c(d as int, i as int),
                ),
                None => !in_map(
                    self.height as int,
                    self.width as int,
                    r + dir_r(d as int, i as int),
                    c + dir_c(d as int, i as int),
                ),
            },
    {
        let nr = if d == 0 {
            r
        } else {
            if i >= self.height - r {
                return None;
            }
            r + i
        };
        let nc = if d == 0 || d == 2 {
            if i >= self.width - c {
                return None;
            }
            c + i
        } else if d == 1 {
            c
        } else {
            if c < i {
                return None;
            }
            c - i
        };
        Some(self.get(nr, nc))
    }

    /// Whether four cells from `(r, c)` along `d` hold `p`.
    fn four_from(&self, r: usize, c: usize, d: usize, p: Piece) -> (b: bool)
        requires
            self.wf(),
            r < self.height,
            c < self.width,
            d < 4,
        ensures
            b == four_at(self.cells@, self.height as int, self.width as int, r as int, c as int, d as int, p),
    {
        let mut i: usize = 0;
        while i < 4
            invariant
                self.wf(),
                r < self.height,
                c < self.width,
                d < 4,
                i <= 4,
                forall|j: int|
                    0 <= j < i ==> in_map(
                        self.height as int,
                        self.width as int,
                        r + #[trigger] dir_r(d as int, j),
                        c + dir_c(d as int, j),
                    ) && at(self.cells@, self.width as int, r + dir_r(d as int, j), c + dir_c(d as int, j))
                        == p,
            decreases 4 - i,
        {
            match self.piece_at(r, c, d, i) {
                Some(q) => {
                    if q != p {
                        return false;
                    }
                },
                None => {
                    return false;
                },
            }
            i += 1;
        }
        true
    }

    /// Whether `p` has four in a row somewhere on the board.
    fn has_four_exec(&self, p: Piece) -> (b: bool)
        requires
            self.wf(),
        ensures
            b == has_four(self.cells@, self.height as int, self.width as int, p),
    {
        let (h, w) = (self.height, self.width);
        let mut r: usize = 0;
        while r < h
            invariant
                self.wf(),
                h == self.height,
                w == self.width,
                r <= h,
                forall|r2: int, c2: int, d: int|
                    0 <= r2 < r && 0 <= c2 < w && 0 <= d < 4 ==> !#[trigger] four_at(
                        self.cells@,
                        h as int,
                        w as int,
                        r2,
                        c2,
                        d,
                        p,
                    ),
            decreases h - r,
        {
            let mut c: usize = 0;
            while c < w
                invariant
                    self.wf(),
                    h == self.height,
                    w == self.width,
                    r < h,
                    c <= w,
                    forall|r2: int, c2: int, d: int|
                        (0 <= r2 < r && 0 <= c2 < w || r2 == r && 0 <= c2 < c) && 0 <= d < 4
                            ==> !#[trigger] four_at(self.cells@, h as int, w as int, r2, c2, d, p),
                decreases w - c,
            {
                let mut d: usize = 0;
                while d < 4
                    invariant
                        self.wf(),
                        h == self.height,
                        w == self.width,
                        r < h,
                        c < w,
                        d <= 4,
                        forall|r2: int, c2: int, d2: int|
                            (0 <= r2 < r && 0 <= c2 < w || r2 == r && 0 <= c2 < c || r2 == r && c2
                                == c && d2 < d) && 0 <= d2 < 4 ==> !#[trigger] four_at(
                                self.cells@,
                                h as int,
                                w as int,
                                r2,
                                c2,
                                d2,
                                p,
                            ),
                    decreases 4 - d,
                {
                    if self.four_from(r, c, d, p) {
                        return true;
                    }
                    d += 1;
                }
                c += 1;
            }
            r += 1;
        }
        proof {
            assert forall|r2: int, c2: int, d: int| 0 <= d < 4 implies !#[trigger] four_at(
                self.cells@,
                h as int,
                w as int,
                r2,
                c2,
                d,
                p,
            ) by {
                if four_at(self.cells@, h as int, w as int, r2, c2, d, p) {
                    assert(in_map(h as int, w as int, r2 + dir_r(d, 0), c2 + dir_c(d, 0)));
                }
            }
        }
        false
    }

    /// Whether every column is full.
    fn is_full_exec(&self) -> (b: bool)
        requires
            self.wf(),
        ensures
            b == is_full(self.cells@, self.height as int, self.width as int),
    {
        let mut c: usize = 0;
        while c < self.width
            invariant
                self.wf(),
                c <= self.width,
                forall|c2: int| 0 <= c2 < c ==> #[trigger] self.filled@[c2] == self.height,
            decreases self.width - c,
        {
            if self.filled[c] < self.height {
                proof {
                    let r = self.height - 1 - self.filled@[c as int];
                    assert(!(at(self.cells@, self.width as int, r, c as int) != Piece::Empty));
                }
                return false;
            }
            c += 1;
        }
        true
    }

    /// State of the board: four in a row for a player wins, a full board
    /// without one is a draw.
    pub fn evaluate(&self) -> (s: GameState)
        requires
            self.wf(),
        ensures
            s == evaluate(self.cells@, self.height as int, self.width as int),
    {
        if self.has_four_exec(Piece::PlayerA) {
            GameState::Win(Piece::PlayerA)
        } else if self.has_four_exec(Piece::PlayerB) {
            GameState::Win(Piece::PlayerB)
        } else if self.is_full_exec() {
            GameState::Draw
        } else {
            GameState::OnGoing
        }
    }

    /// User `id` (shown as `name`) drops the piece whose turn it is into
    /// column `col`. On success the piece lands in the lowest empty row, the
    /// turn passes, a free seat of the mover is bound to the user, and the
    /// state of the new board is returned.
    pub fn put(&mut self, col: usize, id: i64, name: String) -> (res: Result<GameState, ConnectFourError>)
        requires
            old(self).wf(),
            col < old(self).width,
        ensures
            final(self).wf(),
            (final(self).view(), res) == put_spec(old(self).view(), col, id, name),
            ({
                let (h, w, c) = (old(self).height as int, old(self).width as int, col as int);
                let side = side_of(old(self).turn);
                if !old(self).players.admits(side, id) {
                    res == Err::<GameState, ConnectFourError>(ConnectFourError::NotYourTurn)
                        && *final(self) == *old(self)
                } else if at(old(self).cells@, w, 0, c) != Piece::Empty {
                    res == Err::<GameState, ConnectFourError>(ConnectFourError::ColumnFilled)
                        && *final(self) == *old(self)
                } else {
                    let r = h - 1 - old(self).filled@[c];
                    &&& at(old(self).cells@, w, r, c) == Piece::Empty
                    &&& r == h - 1 || at(old(self).cells@, w, r + 1, c) != Piece::Empty
                    &&& final(self).cells@ == old(self).cells@.update(r * w + c, old(self).turn)
                    &&& final(self).filled@ == old(self).filled@.update(c, (old(self).filled@[c] + 1) as usize)
                    &&& final(self).turn == next_piece(old(self).turn)
                    &&& final(self).players == old(self).players.bound_after(side, id, name)
                    &&& res == Ok::<GameState, ConnectFourError>(
                        evaluate(final(self).cells@, h, w),
                    )
                }
            }),
    {
        let side = if self.turn == Piece::PlayerA {
            Side::First
        } else {
            Side::Second
        };
        if !self.players.admits_user(side, id) {
            return Err(ConnectFourError::NotYourTurn);
        }
        let (h, w) = (self.height, self.width);
        let f = self.filled[col];
        proof {
            assert(at(self.cells@, w as int, 0, col as int) != Piece::Empty <==> f == h);
        }
        if f >= h {
            return Err(ConnectFourError::ColumnFilled);
        }
        let r = h - 1 - f;
        let i = index_of(h, w, r, col, self.cells.len());
        let turn = self.turn;
        proof {
            lemma_update_at(self.cells@, h as int, w as int, r as int, col as int, turn);
            if r + 1 < h {
                assert(at(self.cells@, w as int, r + 1, col as int) != Piece::Empty);
            }
        }
        self.cells.set(i, turn);
        self.filled.set(col, f + 1);
        self.turn = if turn == Piece::PlayerA {
            Piece::PlayerB
        } else {
            Piece::PlayerA
        };
        self.players.bind(side, id, name);
        proof {
            assert forall|r2: int, c2: int| in_map(h as int, w as int, r2, c2) implies (#[trigger] at(
                self.cells@,
                w as int,
                r2,
                c2,
            ) != Piece::Empty <==> r2 >= h - self.filled@[c2]) by {
                assert(at(old(self).cells@, w as int, r2, c2) != Piece::Empty <==> r2 >= h
                    - old(self).filled@[c2]);
            }
            assert forall|c2: int| 0 <= c2 < w implies #[trigger] self.filled@[c2] <= h by {
                assert(old(self).filled@[c2] <= h);
            }
        }
        Ok(self.evaluate())
    }
}

/// The running games, as values: under each key the game and its creation time.
pub open spec fn store_model(m: Map<SessionKey, Session<Game>>) -> Map<SessionKey, (GameView, u64)> {
    m.map_values(|s: Session<Game>| (s.game.view(), s.created_at))
}

pub open spec fn games_wf(m: Map<SessionKey, Session<Game>>) -> bool {
    forall|k: SessionKey| #[trigger] m.contains_key(k) ==> m[k].game.wf()
}

/// The games and the answer after user `id` (shown as `name`) asks to
/// drop into column `col` in the game under `key`: a game that ends with
/// the move is removed, one that goes on is kept with the move made, and a
/// refused move changes nothing.
pub open spec fn play_spec(
    model: Map<SessionKey, (GameView, u64)>,
    key: SessionKey,
    col: usize,
    id: i64,
    name: String,
) -> (Map<SessionKey, (GameView, u64)>, Result<GameState, MoveError<ConnectFourError>>) {
    if !model.contains_key(key) {
        (model, Err(MoveError::SessionNotFound))
    } else if col >= model[key].0.width {
        (model, Err(MoveError::OutOfBoard))
    } else {
        let (g, t) = model[key];
        let (g2, res) = put_spec(g, col, id, name);
        match res {
            Err(e) => (model, Err(MoveError::Game(e))),
            Ok(st) => (
                if st == GameState::OnGoing {
                    model.insert(key, (g2, t))
                } else {
                    model.remove(key)
                },
                Ok(st),
            ),
        }
    }
}

/// Makes the move of user `id` (shown as `name`) into column `col` of the
/// game under `key`, as `play_spec` says; a game that ends is handed back.
pub fn play(store: &mut SessionStore<Game>, key: SessionKey, col: usize, id: i64, name: String) -> (r: Result<
    (GameState, Option<Game>),
    MoveError<ConnectFourError>,
>)
    requires
        old(store).wf(),
        games_wf(old(store).view()),
    ensures
        final(store).wf(),
        games_wf(final(store).view()),
        ({
            let (m2, a) = play_spec(store_model(old(store).view()), key, col, id, name);
            store_model(final(store).view()) == m2 && answer_of(r) == a
        }),
        r matches Ok((st, ended)) ==> (ended is Some <==> st != GameState::OnGoing) && (ended matches Some(g) ==> g.wf()
            && g.view() == put_spec(store_model(old(store).view())[key].0, col, id, name).0),
{
    let ghost m0 = store.view();
    match store.remove(key) {
        None => {
            proof {
                assert(store.view() =~= m0);
            }
            Err(MoveError::SessionNotFound)
        },
        Some(s) => {
            let Session { key: _, game, created_at } = s;
            let mut game = game;
            if col >= game.width {
                store.get_or_create(key, game, created_at);
                proof {
                    assert(store_model(store.view()) =~= store_model(m0));
                }
                return Err(MoveError::OutOfBoard);
            }
            let res = game.put(col, id, name);
            match res {
                Err(e) => {
                    store.get_or_create(key, game, created_at);
                    proof {
                        assert(store_model(store.view()) =~= store_model(m0));
                    }
                    Err(MoveError::Game(e))
                },
                Ok(st) => {
                    if st == GameState::OnGoing {
                        store.get_or_create(key, game, created_at);
                        proof {
                            assert(store_model(store.view()) =~= store_model(m0).insert(
                                key,
                                (game.view(), created_at),
                            ));
                        }
                        Ok((st, None))
                    } else {
                        proof {
                            assert(store_model(store.view()) =~= store_model(m0).remove(key));
                        }
                        Ok((st, Some(game)))
                    }
                },
            }
        },
    }
}

/// A column takes exactly `height` pieces: its top cell is taken exactly
/// when it holds `height` pieces, so from an empty column `height` drops
/// succeed and the next is refused with `ColumnFilled`.
pub proof fn lemma_column_capacity(g: Game, c: int)
    requires
        g.wf(),
        0 <= c < g.width,
    ensures
        at(g.cells@, g.width as int, 0, c) != Piece::Empty <==> g.filled@[c] == g.height,
{
    assert(g.filled@[c] <= g.height);
}

/// Placing `p` on a board where nobody has four in a row, so that `p` then
/// has four in a row (along a row, a column or a diagonal), wins for `p`
/// at once.
pub proof fn lemma_four_wins_at_once(cells: Seq<Piece>, h: int, w: int, r: int, c: int, p: Piece)
    requires
        cells.len() == h * w,
        in_map(h, w, r, c),
        p != Piece::Empty,
        !has_four(cells, h, w, Piece::PlayerA),
        !has_four(cells, h, w, Piece::PlayerB),
        has_four(cells.update(r * w + c, p), h, w, p),
    ensures
        evaluate(cells.update(r * w + c, p), h, w) == GameState::Win(p),
{
    let after = cells.update(r * w + c, p);
    lemma_update_at(cells, h, w, r, c, p);
    let q = if p == Piece::PlayerA {
        Piece::PlayerB
    } else {
        Piece::PlayerA
    };
    assert forall|r2: int, c2: int, d: int| 0 <= d < 4 implies !#[trigger] four_at(after, h, w, r2, c2, d, q) by {
        if four_at(after, h, w, r2, c2, d, q) {
            assert forall|i: int| 0 <= i < 4 implies in_map(h, w, r2 + #[trigger] dir_r(d, i), c2 + dir_c(d, i))
                && at(cells, w, r2 + dir_r(d, i), c2 + dir_c(d, i)) == q by {
                assert(at(after, w, r2 + dir_r(d, i), c2 + dir_c(d, i)) == q);
            }
            assert(four_at(cells, h, w, r2, c2, d, q));
        }
    }
}

/// Move requests applied to the running games in the order they took the
/// store: `(key, column, user id, name)` each.
pub open spec fn replay(
    m: Map<SessionKey, (GameView, u64)>,
    moves: Seq<(SessionKey, usize, i64, String)>,
) -> Map<SessionKey, (GameView, u64)>
    decreases moves.len(),
{
    if moves.len() == 0 {
        m
    } else {
        let q = moves[0];
        replay(play_spec(m, q.0, q.1, q.2, q.3).0, moves.subrange(1, moves.len() as int))
    }
}

/// The requests of `moves` that are accepted when applied in order to `m`.
pub open spec fn accepted(
    m: Map<SessionKey, (GameView, u64)>,
    moves: Seq<(SessionKey, usize, i64, String)>,
) -> Seq<(SessionKey, usize, i64, String)>
    decreases moves.len(),
{
    if moves.len() == 0 {
        moves
    } else {
        let q = moves[0];
        let rest = accepted(play_spec(m, q.0, q.1, q.2, q.3).0, moves.subrange(1, moves.len() as int));
        if play_spec(m, q.0, q.1, q.2, q.3).1 is Ok {
            seq![q].add(rest)
        } else {
            rest
        }
    }
}

/// Every request of `moves` is accepted when applied in order to `m`.
pub open spec fn all_accepted(
    m: Map<SessionKey, (GameView, u64)>,
    moves: Seq<(SessionKey, usize, i64, String)>,
) -> bool
    decreases moves.len(),
{
    if moves.len() == 0 {
        true
    } else {
        let q = moves[0];
        play_spec(m, q.0, q.1, q.2, q.3).1 is Ok && all_accepted(
            play_spec(m, q.0, q.1, q.2, q.3).0,
            moves.subrange(1, moves.len() as int),
        )
    }
}

/// Requests serialized by the store's lock: a refused request changes
/// nothing, so the games equal those built by replaying the accepted
/// requests alone, one after the other, and each of those is accepted again
/// in that replay.
pub proof fn lemma_serialized_moves(
    m: Map<SessionKey, (GameView, u64)>,
    moves: Seq<(SessionKey, usize, i64, String)>,
)
    ensures
        replay(m, moves) == replay(m, accepted(m, moves)),
        all_accepted(m, accepted(m, moves)),
    decreases moves.len(),
{
    if moves.len() > 0 {
        let q = moves[0];
        let rest = moves.subrange(1, moves.len() as int);
        let m2 = play_spec(m, q.0, q.1, q.2, q.3).0;
        lemma_serialized_moves(m2, rest);
        if play_spec(m, q.0, q.1, q.2, q.3).1 is Ok {
            let acc = seq![q].add(accepted(m2, rest));
            assert(acc[0] == q);
            assert(acc.subrange(1, acc.len() as int) =~= accepted(m2, rest));
        }
    }
}


/// A board as values keeps its size, and the pieces of each column fill
/// its bottom `filled[c]` rows.
pub open spec fn view_wf(g: GameView) -> bool {
    &&& g.cells.len() == g.height * g.width
    &&& g.filled.len() == g.width
    &&& g.height > 0
    &&& g.turn != Piece::Empty
    &&& forall|c: int| 0 <= c < g.width ==> #[trigger] g.filled[c] <= g.height
    &&& forall|r: int, c: int|
        in_map(g.height as int, g.width as int, r, c) ==> (#[trigger] at(g.cells, g.width as int, r, c)
            != Piece::Empty <==> r >= g.height - g.filled[c])
}

/// A drop keeps the board well formed.
pub proof fn lemma_drop_keeps_wf(g: GameView, col: usize, id: i64, name: String)
    requires
        view_wf(g),
        col < g.width,
    ensures
        view_wf(put_spec(g, col, id, name).0),
{
    let g2 = put_spec(g, col, id, name).0;
    if put_spec(g, col, id, name).1 is Ok {
        let (h, w) = (g.height as int, g.width as int);
        let r = h - 1 - g.filled[col as int];
        assert(at(g.cells, w, 0, col as int) == Piece::Empty);
        lemma_update_at(g.cells, h, w, r, col as int, g.turn);
        assert forall|r2: int, c2: int| in_map(h, w, r2, c2) implies (#[trigger] at(g2.cells, w, r2, c2)
            != Piece::Empty <==> r2 >= h - g2.filled[c2]) by {
            assert(at(g.cells, w, r2, c2) != Piece::Empty <==> r2 >= h - g.filled[c2]);
        }
        assert forall|c2: int| 0 <= c2 < w implies #[trigger] g2.filled[c2] <= h by {
            assert(g.filled[c2] <= h);
        }
    }
}

/// Drops into column `col` by the users `users`, one after the other.
pub open spec fn drops(g: GameView, col: usize, users: Seq<(i64, String)>) -> GameView
    decreases users.len(),
{
    if users.len() == 0 {
        g
    } else {
        drops(put_spec(g, col, users[0].0, users[0].1).0, col, users.subrange(1, users.len() as int))
    }
}

/// Each drop of `users` into `col` is made by a user that the mover's seat
/// admits, and is accepted.
pub open spec fn drops_accepted(g: GameView, col: usize, users: Seq<(i64, String)>) -> bool
    decreases users.len(),
{
    if users.len() == 0 {
        true
    } else {
        put_spec(g, col, users[0].0, users[0].1).1 is Ok && drops_accepted(
            put_spec(g, col, users[0].0, users[0].1).0,
            col,
            users.subrange(1, users.len() as int),
        )
    }
}

/// Every drop of `users` into `col` is made by a user that the mover's
/// seat admits.
pub open spec fn drops_admitted(g: GameView, col: usize, users: Seq<(i64, String)>) -> bool
    decreases users.len(),
{
    if users.len() == 0 {
        true
    } else {
        g.players.admits(side_of(g.turn), users[0].0) && drops_admitted(
            put_spec(g, col, users[0].0, users[0].1).0,
            col,
            users.subrange(1, users.len() as int),
        )
    }
}

/// Into a column holding `k` pieces, `height - k` drops by admitted users
/// are all accepted and fill it; a further drop by an admitted user is
/// refused with `ColumnFilled`. From an empty column of a 6-row board: six
/// drops fill it and the seventh is refused.
pub proof fn lemma_column_fills(g: GameView, col: usize, users: Seq<(i64, String)>, id: i64, name: String)
    requires
        view_wf(g),
        col < g.width,
        users.len() == g.height - g.filled[col as int],
        drops_admitted(g, col, users),
        drops(g, col, users).players.admits(side_of(drops(g, col, users).turn), id),
    ensures
        drops_accepted(g, col, users),
        view_wf(drops(g, col, users)),
        forall|r: int| 0 <= r < g.height ==> #[trigger] at(drops(g, col, users).cells, g.width as int, r, col as int) != Piece::Empty,
        put_spec(drops(g, col, users), col, id, name).1 == Err::<GameState, ConnectFourError>(ConnectFourError::ColumnFilled),
    decreases users.len(),
{
    assert(g.filled[col as int] <= g.height);
    if users.len() == 0 {
        assert(at(g.cells, g.width as int, 0, col as int) != Piece::Empty);
    } else {
        let g2 = put_spec(g, col, users[0].0, users[0].1).0;
        assert(at(g.cells, g.width as int, 0, col as int) == Piece::Empty);
        lemma_drop_keeps_wf(g, col, users[0].0, users[0].1);
        assert(g2.height == g.height && g2.width == g.width);
        lemma_column_fills(g2, col, users.subrange(1, users.len() as int), id, name);
    }
}

} // verus!
