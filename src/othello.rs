//! Othello (Reversi) on an 8×8 board: Black moves first.

use vstd::prelude::*;
use vstd::string::StringSliceAdditionalSpecFns;
use crate::callback::{parse_tagged, tagged_numbers};
use crate::binding::{PlayerBinding, Side};
use crate::session::{answer_of, MoveError, Session, SessionKey, SessionStore};

verus! {

#[derive(Clone, Copy, Debug, PartialEq, Eq, Structural)]
pub enum Piece {
    Black,
    White,
    Empty,
}

impl Piece {
    pub open spec fn reverse_spec(self) -> Piece {
        match self {
            Piece::White => Piece::Black,
            Piece::Black => Piece::White,
            Piece::Empty => Piece::Empty,
        }
    }

    /// The opposing colour; `Empty` stays `Empty`.
    pub fn reverse(&self) -> (r: Piece)
        ensures
            r == self.reverse_spec(),
    {
        match self {
            Piece::White => Piece::Black,
            Piece::Black => Piece::White,
            Piece::Empty => Piece::Empty,
        }
    }
}

/// Why a move was refused; the board is left unchanged.
#[derive(Clone, Copy, Debug, PartialEq, Eq, Structural)]
pub enum OthelloOpError {
    /// The cell is taken, or no direction from it captures a run.
    Unplaceable,
    /// The seat whose turn it is belongs to another user.
    NotYourTurn,
}

/// A cell of the board.
#[derive(Clone, Copy, Debug, PartialEq, Eq, Structural)]
pub struct PiecePosition {
    pub row: usize,
    pub col: usize,
}

/// The cell named by a button's data `othello_<row>_<col>`, when it lies
/// on the board.
pub open spec fn position_of(data: Seq<u8>) -> Option<PiecePosition> {
    match tagged_numbers(data, "othello".spec_bytes(), 95, 2) {
        Some(v) => if v[0] < 8 && v[1] < 8 {
            Some(PiecePosition { row: v[0], col: v[1] })
        } else {
            None
        },
        None => None,
    }
}

impl PiecePosition {
    pub fn from(row: usize, col: usize) -> (r: Self)
        ensures
            r.row == row,
            r.col == col,
    {
        PiecePosition { row, col }
    }

    /// Reads a button's data as `position_of` says.
    pub fn try_parse_callback(data: &str) -> (r: Option<Self>)
        ensures
            r == position_of(data.spec_bytes()),
    {
        match parse_tagged(data, "othello", 95, 2) {
            Some(v) => {
                if v[0] < 8 && v[1] < 8 {
                    Some(PiecePosition { row: v[0], col: v[1] })
                } else {
                    None
                }
            },
            None => None,
        }
    }
}

pub open spec fn in_board(r: int, c: int) -> bool {
    0 <= r < 8 && 0 <= c < 8
}

pub open spec fn at(cells: Seq<Piece>, r: int, c: int) -> Piece {
    cells[r * 8 + c]
}

/// Row offset of step `i` along direction `d` (0 up, 1 down, 2 left,
/// 3 right, 4 up-left, 5 up-right, 6 down-left, 7 down-right).
pub open spec fn step_r(d: int, i: int) -> int {
    if d == 0 || d == 4 || d == 5 {
        -i
    } else if d == 1 || d == 6 || d == 7 {
        i
    } else {
        0
    }
}

/// Column offset of step `i` along direction `d`.
pub open spec fn step_c(d: int, i: int) -> int {
    if d == 2 || d == 4 || d == 6 {
        -i
    } else if d == 3 || d == 5 || d == 7 {
        i
    } else {
        0
    }
}

/// Length of the run of `p`'s opponent pieces that starts at step `i` of
/// the ray from `(r, c)` along `d`; the ray stops at the edge of the board.
pub open spec fn run(cells: Seq<Piece>, r: int, c: int, d: int, p: Piece, i: int) -> nat
    decreases 9 - i,
{
    if i < 1 || i > 8 {
        0
    } else if in_board(r + step_r(d, i), c + step_c(d, i)) && at(
        cells,
        r + step_r(d, i),
        c + step_c(d, i),
    ) == p.reverse_spec() {
        1 + run(cells, r, c, d, p, i + 1)
    } else {
        0
    }
}

/// Number of pieces that `p` placed at `(r, c)` captures along `d`: the
/// run of opponent pieces next to the cell, if one of `p`'s own pieces
/// closes it; else 0.
pub open spec fn flips(cells: Seq<Piece>, r: int, c: int, d: int, p: Piece) -> nat {
    let k = run(cells, r, c, d, p, 1) as int;
    let er = r + step_r(d, k + 1);
    let ec = c + step_c(d, k + 1);
    if k >= 1 && in_board(er, ec) && at(cells, er, ec) == p {
        k as nat
    } else {
        0
    }
}

/// `p` may be placed at `(r, c)`: the cell is empty and some direction captures.
pub open spec fn legal(cells: Seq<Piece>, r: int, c: int, p: Piece) -> bool {
    &&& at(cells, r, c) == Piece::Empty
    &&& exists|d: int| 0 <= d < 8 && #[trigger] flips(cells, r, c, d, p) > 0
}

/// `p` has a legal placement somewhere on the board.
pub open spec fn can_move(cells: Seq<Piece>, p: Piece) -> bool {
    exists|r: int, c: int| in_board(r, c) && #[trigger] legal(cells, r, c, p)
}

/// `(r2, c2)` lies in a run that `p` at `(r, c)` captures along one of the
/// first `n` directions.
pub open spec fn flipped_before(
    cells: Seq<Piece>,
    r: int,
    c: int,
    p: Piece,
    n: int,
    r2: int,
    c2: int,
) -> bool {
    exists|d: int, i: int|
        #![trigger step_r(d, i), step_c(d, i), flips(cells, r, c, d, p)]
        0 <= d < n && 1 <= i <= flips(cells, r, c, d, p) && r2 == r + step_r(d, i) && c2 == c
            + step_c(d, i)
}

/// The board after `p` is placed at `(r, c)`: the cell and every captured
/// run take `p`'s colour, all other cells stay.
pub open spec fn placed_at(cells: Seq<Piece>, r: int, c: int, p: Piece, r2: int, c2: int) -> Piece {
    if (r2 == r && c2 == c) || flipped_before(cells, r, c, p, 8, r2, c2) {
        p
    } else {
        at(cells, r2, c2)
    }
}

pub open spec fn count_from(cells: Seq<Piece>, p: Piece, n: int) -> nat
    decreases n,
{
    if n <= 0 {
        0
    } else {
        count_from(cells, p, n - 1) + if cells[n - 1] == p {
            1nat
        } else {
            0nat
        }
    }
}

/// Number of cells that hold `p`.
pub open spec fn count(cells: Seq<Piece>, p: Piece) -> nat {
    count_from(cells, p, 64)
}

pub open spec fn side_of(turn: Piece) -> Side {
    if turn == Piece::Black {
        Side::First
    } else {
        Side::Second
    }
}

/// The cell at step `i` along `d` from `(r, c)`, if it is on the board.
fn ray_pos(r: usize, c: usize, d: usize, i: usize) -> (res: Option<(usize, usize)>)
    requires
        r < 8,
        c < 8,
        d < 8,
        i <= 9,
    ensures
        match res {
            Some(p) => in_board(r + step_r(d as int, i as int), c + step_c(d as int, i as int))
                && p.0 == r + step_r(d as int, i as int) && p.1 == c + step_c(
                d as int,
                i as int,
            ),
            None => !in_board(r + step_r(d as int, i as int), c + step_c(d as int, i as int)),
        },
{
    let nr: usize = if d == 0 || d == 4 || d == 5 {
        if r < i {
            return None;
        }
        r - i
    } else if d == 1 || d == 6 || d == 7 {
        if r + i >= 8 {
            return None;
        }
        r + i
    } else {
        r
    };
    let nc: usize = if d == 2 || d == 4 || d == 6 {
        if c < i {
            return None;
        }
        c - i
    } else if d == 3 || d == 5 || d == 7 {
        if c + i >= 8 {
            return None;
        }
        c + i
    } else {
        c
    };
    Some((nr, nc))
}

/// The board after `p` is placed at `(r, c)`, as a sequence.
pub open spec fn placed(cells: Seq<Piece>, r: int, c: int, p: Piece) -> Seq<Piece> {
    Seq::new(64, |i: int| placed_at(cells, r, c, p, i / 8, i % 8))
}

/// What a game is, as values: the board, whose turn it is, the seats.
pub struct GameView {
    pub cells: Seq<Piece>,
    pub turn: Piece,
    pub players: PlayerBinding,
}

/// The game and the answer after user `id` (shown as `name`) asks to
/// place the colour whose turn it is at `pos`: refused with `NotYourTurn`
/// when the mover's seat is bound to another user, with `Unplaceable` when
/// the placement captures nothing; else the captured runs flip, a free seat
/// of the mover is bound to the user, the turn passes unless the opponent
/// has no legal placement, and the answer says whether neither colour can
/// move any more.
pub open spec fn put_spec(g: GameView, pos: PiecePosition, id: i64, name: String) -> (GameView, Result<
    bool,
    OthelloOpError,
>) {
    let p = g.turn;
    let side = side_of(p);
    let (r, c) = (pos.row as int, pos.col as int);
    if !g.players.admits(side, id) {
        (g, Err(OthelloOpError::NotYourTurn))
    } else if !legal(g.cells, r, c, p) {
        (g, Err(OthelloOpError::Unplaceable))
    } else {
        let cells = placed(g.cells, r, c, p);
        (
            GameView {
                cells,
                turn: if can_move(cells, p.reverse_spec()) {
                    p.reverse_spec()
                } else {
                    p
                },
                players: g.players.bound_after(side, id, name),
            },
            Ok(!can_move(cells, p.reverse_spec()) && !can_move(cells, p)),
        )
    }
}

/// A game: the board, whose turn it is, and who plays which colour.
#[derive(Clone, Debug)]
pub struct Game {
    pub cells: Vec<Piece>,
    pub turn: Piece,
    pub players: PlayerBinding,
}

impl Game {
    pub open spec fn view(&self) -> GameView {
        GameView { cells: self.cells@, turn: self.turn, players: self.players }
    }

    pub open spec fn wf(&self) -> bool {
        &&& self.cells@.len() == 64
        &&& self.turn != Piece::Empty
    }

    /// The standard opening: White at (3,3) and (4,4), Black at (3,4) and
    /// (4,3), Black to move, no seat bound.
    pub fn new() -> (r: Self)
        ensures
            r.wf(),
            forall|i: int|
                0 <= i < 64 ==> r.cells@[i] == if i == 28 || i == 35 {
                    Piece::Black
                } else if i == 27 || i == 36 {
                    Piece::White
                } else {
                    Piece::Empty
                },
            r.turn == Piece::Black,
            r.players.first is None,
            r.players.second is None,
    {
        let mut cells: Vec<Piece> = Vec::new();
        let mut i: usize = 0;
        while i < 64
            invariant
                i <= 64,
                cells@.len() == i,
                forall|j: int|
                    0 <= j < i ==> cells@[j] == if j == 28 || j == 35 {
                        Piece::Black
                    } else if j == 27 || j == 36 {
                        Piece::White
                    } else {
                        Piece::Empty
                    },
            decreases 64 - i,
        {
            let piece = if i == 28 || i == 35 {
                Piece::Black
            } else if i == 27 || i == 36 {
                Piece::White
            } else {
                Piece::Empty
            };
            cells.push(piece);
            i += 1;
        }
        Game { cells, turn: Piece::Black, players: PlayerBinding::new() }
    }

    /// The piece at a cell.
    pub fn get(&self, pos: PiecePosition) -> (r: Piece)
        requires
            self.wf(),
            pos.row < 8,
            pos.col < 8,
        ensures
            r == at(self.cells@, pos.row as int, pos.col as int),
    {
        self.cells[pos.row * 8 + pos.col]
    }

    /// How many pieces `p` placed at `(r, c)` captures along `d`.
    fn count_flips(&self, r: usize, c: usize, d: usize, p: Piece) -> (k: usize)
        requires
            self.wf(),
            r < 8,
            c < 8,
            d < 8,
        ensures
            k == flips(self.cells@, r as int, c as int, d as int, p),
            k <= 8,
    {
        let opp = p.reverse();
        let mut i: usize = 1;
        loop
            invariant
                self.wf(),
                r < 8,
                c < 8,
                d < 8,
                1 <= i <= 9,
                opp == p.reverse_spec(),
                run(self.cells@, r as int, c as int, d as int, p, 1) == (i - 1) + run(
                    self.cells@,
                    r as int,
                    c as int,
                    d as int,
                    p,
                    i as int,
                ),
            ensures
                1 <= i <= 9,
                run(self.cells@, r as int, c as int, d as int, p, 1) == i - 1,
            decreases 9 - i,
        {
            if i > 8 {
                break;
            }
            match ray_pos(r, c, d, i) {
                Some((nr, nc)) => {
                    if self.cells[nr * 8 + nc] != opp {
                        break;
                    }
                },
                None => {
                    break;
                },
            }
            i += 1;
        }
        let k = i - 1;
        if k == 0 {
            return 0;
        }
        match ray_pos(r, c, d, i) {
            Some((nr, nc)) => {
                if self.cells[nr * 8 + nc] == p {
                    k
                } else {
                    0
                }
            },
            None => 0,
        }
    }

    /// Whether `p` may be placed at `(r, c)`.
    fn is_legal(&self, r: usize, c: usize, p: Piece) -> (b: bool)
        requires
            self.wf(),
            r < 8,
            c < 8,
        ensures
            b == legal(self.cells@, r as int, c as int, p),
    {
        if self.cells[r * 8 + c] != Piece::Empty {
            return false;
        }
        let mut d: usize = 0;
        while d < 8
            invariant
                self.wf(),
                r < 8,
                c < 8,
                d <= 8,
                at(self.cells@, r as int, c as int) == Piece::Empty,
                forall|e: int| 0 <= e < d ==> #[trigger] flips(self.cells@, r as int, c as int, e, p) == 0,
            decreases 8 - d,
        {
            if self.count_flips(r, c, d, p) > 0 {
                assert(flips(self.cells@, r as int, c as int, d as int, p) > 0);
                return true;
            }
            d += 1;
        }
        false
    }

    /// Whether `p` has a legal placement anywhere on the board.
    pub fn is_able_to_put(&self, p: Piece) -> (b: bool)
        requires
            self.wf(),
        ensures
            b == can_move(self.cells@, p),
    {
        let mut r: usize = 0;
        while r < 8
            invariant
                self.wf(),
                r <= 8,
                forall|r2: int, c2: int|
                    0 <= r2 < r && 0 <= c2 < 8 ==> !#[trigger] legal(self.cells@, r2, c2, p),
            decreases 8 - r,
        {
            let mut c: usize = 0;
            while c < 8
                invariant
                    self.wf(),
                    r < 8,
                    c <= 8,
                    forall|r2: int, c2: int|
                        0 <= r2 < r && 0 <= c2 < 8 ==> !#[trigger] legal(self.cells@, r2, c2, p),
                    forall|c2: int| 0 <= c2 < c ==> !#[trigger] legal(self.cells@, r as int, c2, p),
                decreases 8 - c,
            {
                if self.is_legal(r, c, p) {
                    return true;
                }
                c += 1;
            }
            r += 1;
        }
        false
    }

    /// Places `p` at `(r, c)` and flips every captured run, or refuses with
    /// `Unplaceable` and leaves the board as it is.
    pub fn set(&mut self, r: usize, c: usize, p: Piece) -> (res: Result<(), OthelloOpError>)
        requires
            old(self).wf(),
            r < 8,
            c < 8,
            p != Piece::Empty,
        ensures
            final(self).wf(),
            final(self).turn == old(self).turn,
            final(self).players == old(self).players,
            legal(old(self).cells@, r as int, c as int, p) ==> res is Ok && forall|r2: int, c2: int|
                in_board(r2, c2) ==> #[trigger] at(final(self).cells@, r2, c2) == placed_at(
                    old(self).cells@,
                    r as int,
                    c as int,
                    p,
                    r2,
                    c2,
                ),
            !legal(old(self).cells@, r as int, c as int, p) ==> res == Err::<(), OthelloOpError>(
                OthelloOpError::Unplaceable,
            ) && *final(self) == *old(self),
    {
        if !self.is_legal(r, c, p) {
            return Err(OthelloOpError::Unplaceable);
        }
        let ghost cells0 = self.cells@;
        let mut ks: Vec<usize> = Vec::new();
        let mut d: usize = 0;
        while d < 8
            invariant
                self.wf(),
                self.cells@ == cells0,
                r < 8,
                c < 8,
                d <= 8,
                ks@.len() == d,
                forall|e: int| 0 <= e < d ==> ks@[e] == flips(cells0, r as int, c as int, e, p),
                forall|e: int| 0 <= e < d ==> ks@[e] <= 8,
            decreases 8 - d,
        {
            let k = self.count_flips(r, c, d, p);
            ks.push(k);
            d += 1;
        }
        self.cells.set(r * 8 + c, p);
        let mut d: usize = 0;
        while d < 8
            invariant
                self.cells@.len() == 64,
                self.turn == old(self).turn,
                self.players == old(self).players,
                self.turn != Piece::Empty,
                r < 8,
                c < 8,
                d <= 8,
                ks@.len() == 8,
                forall|e: int| 0 <= e < 8 ==> ks@[e] == flips(cells0, r as int, c as int, e, p),
                forall|e: int| 0 <= e < 8 ==> ks@[e] <= 8,
                forall|r2: int, c2: int|
                    in_board(r2, c2) ==> #[trigger] at(self.cells@, r2, c2) == if (r2 == r && c2
                        == c) || flipped_before(cells0, r as int, c as int, p, d as int, r2, c2) {
                        p
                    } else {
                        at(cells0, r2, c2)
                    },
            decreases 8 - d,
        {
            let k = ks[d];
            let mut i: usize = 1;
            while i <= k
                invariant
                    self.cells@.len() == 64,
                    self.turn == old(self).turn,
                    self.players == old(self).players,
                    self.turn != Piece::Empty,
                    r < 8,
                    c < 8,
                    d < 8,
                    1 <= i <= k + 1,
                    k <= 8,
                    k == flips(cells0, r as int, c as int, d as int, p),
                    forall|r2: int, c2: int|
                        in_board(r2, c2) ==> #[trigger] at(self.cells@, r2, c2) == if (r2 == r
                            && c2 == c) || flipped_before(
                            cells0,
                            r as int,
                            c as int,
                            p,
                            d as int,
                            r2,
                            c2,
                        ) || (exists|j: int|
                            #![trigger step_r(d as int, j), step_c(d as int, j)]
                            1 <= j < i && r2 == r + step_r(d as int, j) && c2 == c + step_c(
                                d as int,
                                j,
                            )) {
                            p
                        } else {
                            at(cells0, r2, c2)
                        },
                decreases k + 1 - i,
            {
                proof {
                    lemma_run_in_board(cells0, r as int, c as int, d as int, p, i as int);
                }
                match ray_pos(r, c, d, i) {
                    Some((nr, nc)) => {
                        let ghost prev = self.cells@;
                        self.cells.set(nr * 8 + nc, p);
                        assert forall|r2: int, c2: int| in_board(r2, c2) implies #[trigger] at(
                            self.cells@,
                            r2,
                            c2,
                        ) == if (r2 == r && c2 == c) || flipped_before(
                            cells0,
                            r as int,
                            c as int,
                            p,
                            d as int,
                            r2,
                            c2,
                        ) || (exists|j: int|
                            #![trigger step_r(d as int, j), step_c(d as int, j)]
                            1 <= j < i + 1 && r2 == r + step_r(d as int, j) && c2 == c + step_c(
                                d as int,
                                j,
                            )) {
                            p
                        } else {
                            at(cells0, r2, c2)
                        } by {
                            if r2 == nr && c2 == nc {
                                assert(r2 == r + step_r(d as int, i as int) && c2 == c + step_c(
                                    d as int,
                                    i as int,
                                ));
                            } else {
                                assert(r2 * 8 + c2 != nr * 8 + nc);
                                assert(at(self.cells@, r2, c2) == at(prev, r2, c2));
                                if exists|j: int|
                                    #![trigger step_r(d as int, j), step_c(d as int, j)]
                                    1 <= j < i + 1 && r2 == r + step_r(d as int, j) && c2 == c
                                        + step_c(d as int, j) {
                                    let j = choose|j: int|
                                        #![trigger step_r(d as int, j), step_c(d as int, j)]
                                        1 <= j < i + 1 && r2 == r + step_r(d as int, j) && c2 == c
                                            + step_c(d as int, j);
                                    assert(j != i);
                                    assert(1 <= j < i && r2 == r + step_r(d as int, j) && c2 == c
                                        + step_c(d as int, j));
                                }
                            }
                        }
                    },
                    None => {},
                }
                i += 1;
            }
            proof {
                assert forall|r2: int, c2: int|
                    in_board(r2, c2) implies #[trigger] at(self.cells@, r2, c2) == if (r2 == r
                        && c2 == c) || flipped_before(
                        cells0,
                        r as int,
                        c as int,
                        p,
                        d + 1,
                        r2,
                        c2,
                    ) {
                        p
                    } else {
                        at(cells0, r2, c2)
                    } by {
                    if flipped_before(cells0, r as int, c as int, p, d + 1, r2, c2) {
                        let (e, j) = choose|e: int, j: int|
                            #![trigger step_r(e, j), step_c(e, j), flips(cells0, r as int, c as int, e, p)]
                            0 <= e < d + 1 && 1 <= j <= flips(cells0, r as int, c as int, e, p)
                                && r2 == r + step_r(e, j) && c2 == c + step_c(e, j);
                        if e < d {
                            assert(flipped_before(cells0, r as int, c as int, p, d as int, r2, c2));
                        } else {
                            assert(1 <= j < i && r2 == r + step_r(d as int, j) && c2 == c
                                + step_c(d as int, j));
                        }
                    }
                    if (exists|j: int|
                        #![trigger step_r(d as int, j), step_c(d as int, j)]
                        1 <= j < i && r2 == r + step_r(d as int, j) && c2 == c + step_c(
                            d as int,
                            j,
                        )) {
                        let j = choose|j: int|
                            #![trigger step_r(d as int, j), step_c(d as int, j)]
                            1 <= j < i && r2 == r + step_r(d as int, j) && c2 == c + step_c(
                                d as int,
                                j,
                            );
                        assert(0 <= d < d + 1 && 1 <= j <= flips(cells0, r as int, c as int, d as int, p)
                            && r2 == r + step_r(d as int, j) && c2 == c + step_c(d as int, j));
                    }
                }
            }
            d += 1;
        }
        Ok(())
    }
}

impl Game {
    /// User `id` (shown as `name`) places the colour whose turn it is at
    /// `pos`. On success the captured runs flip, a free seat of the mover is
    /// bound to the user, and the turn passes to the opponent unless the
    /// opponent has no legal placement. Returns whether the game has ended:
    /// neither colour can move.
    pub fn try_put(&mut self, pos: PiecePosition, id: i64, name: String) -> (res: Result<
        bool,
        OthelloOpError,
    >)
        requires
            old(self).wf(),
            pos.row < 8,
            pos.col < 8,
        ensures
            final(self).wf(),
            (final(self).view(), res) == put_spec(old(self).view(), pos, id, name),
    {
        let p = self.turn;
        let side = if p == Piece::Black {
            Side::First
        } else {
            Side::Second
        };
        if !self.players.admits_user(side, id) {
            return Err(OthelloOpError::NotYourTurn);
        }
        match self.set(pos.row, pos.col, p) {
            Err(e) => {
                return Err(e);
            },
            Ok(()) => {},
        }
        self.players.bind(side, id, name);
        proof {
            assert forall|i: int| 0 <= i < 64 implies #[trigger] self.cells@[i] == placed(
                old(self).cells@,
                pos.row as int,
                pos.col as int,
                p,
            )[i] by {
                let (r2, c2) = (i / 8, i % 8);
                assert(r2 * 8 + c2 == i);
                assert(in_board(r2, c2));
                assert(at(self.cells@, r2, c2) == placed_at(old(self).cells@, pos.row as int, pos.col as int, p, r2, c2));
            }
            assert(self.cells@ =~= placed(old(self).cells@, pos.row as int, pos.col as int, p));
        }
        let opp = p.reverse();
        if self.is_able_to_put(opp) {
            self.turn = opp;
            Ok(false)
        } else {
            Ok(!self.is_able_to_put(p))
        }
    }

    /// The number of Black and of White pieces on the board.
    pub fn count_pieces(&self) -> (r: (usize, usize))
        requires
            self.wf(),
        ensures
            r.0 == count(self.cells@, Piece::Black),
            r.1 == count(self.cells@, Piece::White),
    {
        let mut black: usize = 0;
        let mut white: usize = 0;
        let mut i: usize = 0;
        while i < 64
            invariant
                self.wf(),
                i <= 64,
                black == count_from(self.cells@, Piece::Black, i as int),
                white == count_from(self.cells@, Piece::White, i as int),
                black <= i,
                white <= i,
            decreases 64 - i,
        {
            if self.cells[i] == Piece::Black {
                black += 1;
            } else if self.cells[i] == Piece::White {
                white += 1;
            }
            i += 1;
        }
        (black, white)
    }

    /// The colour with more pieces, or `None` on equal counts.
    pub fn winner(&self) -> (r: Option<Piece>)
        requires
            self.wf(),
        ensures
            r == if count(self.cells@, Piece::Black) > count(self.cells@, Piece::White) {
                Some(Piece::Black)
            } else if count(self.cells@, Piece::Black) < count(self.cells@, Piece::White) {
                Some(Piece::White)
            } else {
                None::<Piece>
            },
    {
        let (black, white) = self.count_pieces();
        if black > white {
            Some(Piece::Black)
        } else if black < white {
            Some(Piece::White)
        } else {
            None
        }
    }
}

/// The running games, as values: under each key the game and its creation time.
pub open spec fn store_model(m: Map<SessionKey, Session<Game>>) -> Map<SessionKey, (GameView, u64)> {
    m.map_values(|s: Session<Game>| (s.game.view(), s.created_at))
}

pub open spec fn games_wf(m: Map<SessionKey, Session<Game>>) -> bool {
    forall|k: SessionKey| #[trigger] m.contains_key(k) ==> m[k].game.wf()
}

/// The games and the answer after user `id` (shown as `name`) asks to
/// place at `pos` in the game under `key`: a game that ends with the move
/// is removed, one that goes on is kept with the move made, and a refused
/// move changes nothing.
pub open spec fn play_spec(
    model: Map<SessionKey, (GameView, u64)>,
    key: SessionKey,
    pos: PiecePosition,
    id: i64,
    name: String,
) -> (Map<SessionKey, (GameView, u64)>, Result<bool, MoveError<OthelloOpError>>) {
    if !model.contains_key(key) {
        (model, Err(MoveError::SessionNotFound))
    } else if pos.row >= 8 || pos.col >= 8 {
        (model, Err(MoveError::OutOfBoard))
    } else {
        let (g, t) = model[key];
        let (g2, res) = put_spec(g, pos, id, name);
        match res {
            Err(e) => (model, Err(MoveError::Game(e))),
            Ok(ended) => (
                if ended {
                    model.remove(key)
                } else {
                    model.insert(key, (g2, t))
                },
                Ok(ended),
            ),
        }
    }
}

/// Makes the move of user `id` (shown as `name`) at `pos` in the game
/// under `key`, as `play_spec` says; answers whether the game ended, and
/// hands back a game that ended.
pub fn play(store: &mut SessionStore<Game>, key: SessionKey, pos: PiecePosition, id: i64, name: String) -> (r: Result<
    (bool, Option<Game>),
    MoveError<OthelloOpError>,
>)
    requires
        old(store).wf(),
        games_wf(old(store).view()),
    ensures
        final(store).wf(),
        games_wf(final(store).view()),
        ({
            let (m2, a) = play_spec(store_model(old(store).view()), key, pos, id, name);
            store_model(final(store).view()) == m2 && answer_of(r) == a
        }),
        r matches Ok((st, ended)) ==> (ended is Some <==> st) && (ended matches Some(g) ==> g.wf()
            && g.view() == put_spec(store_model(old(store).view())[key].0, pos, id, name).0),
{
    let ghost m0 = store.view();
    match store.remove(key) {
        None => {
            proof {
                assert(store.view() =~= m0);
            }
            Err(MoveError::SessionNotFound)
        },
        Some(s) => {
            let Session { key: _, game, created_at } = s;
            let mut game = game;
            if pos.row >= 8 || pos.col >= 8 {
                store.get_or_create(key, game, created_at);
                proof {
                    assert(store_model(store.view()) =~= store_model(m0));
                }
                return Err(MoveError::OutOfBoard);
            }
            let res = game.try_put(pos, id, name);
            match res {
                Err(e) => {
                    store.get_or_create(key, game, created_at);
                    proof {
                        assert(store_model(store.view()) =~= store_model(m0));
                    }
                    Err(MoveError::Game(e))
                },
                Ok(ended) => {
                    if !ended {
                        store.get_or_create(key, game, created_at);
                        proof {
                            assert(store_model(store.view()) =~= store_model(m0).insert(
                                key,
                                (game.view(), created_at),
                            ));
                        }
                        Ok((ended, None))
                    } else {
                        proof {
                            assert(store_model(store.view()) =~= store_model(m0).remove(key));
                        }
                        Ok((ended, Some(game)))
                    }
                },
            }
        },
    }
}

/// A cell inside a captured run lies on the board.
proof fn lemma_run_in_board(cells: Seq<Piece>, r: int, c: int, d: int, p: Piece, i: int)
    requires
        1 <= i <= flips(cells, r, c, d, p),
    ensures
        in_board(r + step_r(d, i), c + step_c(d, i)),
        at(cells, r + step_r(d, i), c + step_c(d, i)) == p.reverse_spec(),
    decreases i,
{
    lemma_run_prefix(cells, r, c, d, p, 1, i);
}

/// Every step of a run that reaches past step `i` holds an opponent piece.
proof fn lemma_run_prefix(cells: Seq<Piece>, r: int, c: int, d: int, p: Piece, j: int, i: int)
    requires
        1 <= j <= i,
        i - j < run(cells, r, c, d, p, j),
    ensures
        in_board(r + step_r(d, i), c + step_c(d, i)),
        at(cells, r + step_r(d, i), c + step_c(d, i)) == p.reverse_spec(),
    decreases i - j,
{
    if j < i {
        lemma_run_prefix(cells, r, c, d, p, j + 1, i);
    }
}

/// Move requests applied to the running games in the order they took the
/// store: `(key, cell, user id, name)` each.
pub open spec fn replay(
    m: Map<SessionKey, (GameView, u64)>,
    moves: Seq<(SessionKey, PiecePosition, i64, String)>,
) -> Map<SessionKey, (GameView, u64)>
    decreases moves.len(),
{
    if moves.len() == 0 {
        m
    } else {
        let q = moves[0];
        replay(play_spec(m, q.0, q.1, q.2, q.3).0, moves.subrange(1, moves.len() as int))
    }
}

/// The requests of `moves` that are accepted when applied in order to `m`.
pub open spec fn accepted(
    m: Map<SessionKey, (GameView, u64)>,
    moves: Seq<(SessionKey, PiecePosition, i64, String)>,
) -> Seq<(SessionKey, PiecePosition, i64, String)>
    decreases moves.len(),
{
    if moves.len() == 0 {
        moves
    } else {
        let q = moves[0];
        let rest = accepted(play_spec(m, q.0, q.1, q.2, q.3).0, moves.subrange(1, moves.len() as int));
        if play_spec(m, q.0, q.1, q.2, q.3).1 is Ok {
            seq![q].add(rest)
        } else {
            rest
        }
    }
}

/// Every request of `moves` is accepted when applied in order to `m`.
pub open spec fn all_accepted(
    m: Map<SessionKey, (GameView, u64)>,
    moves: Seq<(SessionKey, PiecePosition, i64, String)>,
) -> bool
    decreases moves.len(),
{
    if moves.len() == 0 {
        true
    } else {
        let q = moves[0];
        play_spec(m, q.0, q.1, q.2, q.3).1 is Ok && all_accepted(
            play_spec(m, q.0, q.1, q.2, q.3).0,
            moves.subrange(1, moves.len() as int),
        )
    }
}

/// Requests serialized by the store's lock: a refused request changes
/// nothing, so the games equal those built by replaying the accepted
/// requests alone, one after the other, and each of those is accepted again
/// in that replay.
pub proof fn lemma_serialized_moves(
    m: Map<SessionKey, (GameView, u64)>,
    moves: Seq<(SessionKey, PiecePosition, i64, String)>,
)
    ensures
        replay(m, moves) == replay(m, accepted(m, moves)),
        all_accepted(m, accepted(m, moves)),
    decreases moves.len(),
{
    if moves.len() > 0 {
        let q = moves[0];
        let rest = moves.subrange(1, moves.len() as int);
        let m2 = play_spec(m, q.0, q.1, q.2, q.3).0;
        lemma_serialized_moves(m2, rest);
        if play_spec(m, q.0, q.1, q.2, q.3).1 is Ok {
            let acc = seq![q].add(accepted(m2, rest));
            assert(acc[0] == q);
            assert(acc.subrange(1, acc.len() as int) =~= accepted(m2, rest));
        }
    }
}

} // verus!
