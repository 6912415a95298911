//! Minesweeper on a board of `height` rows and `width` columns.

use rand::Rng;
use vstd::prelude::*;
use vstd::string::StringSliceAdditionalSpecFns;
use crate::callback::{parse_tagged, parse_usize, parse_usize_at, tagged_numbers};
use crate::session::{answer_of, MoveError, Session, SessionKey, SessionStore};
use crate::grid::{in_map, index_of, lemma_index, lemma_index_cover, lemma_index_inj};

mod flood;

pub use flood::{flood_rel, flood_reveals, in_region, is_path, unmask_from_position};

verus! {

/// What a cell holds: a mine, or the number of mines among its neighbours.
#[derive(Clone, Copy, Debug, PartialEq, Eq, Structural)]
pub enum BoxType {
    Mine,
    MineCount(u8),
}

/// What a player sees of a cell.
#[derive(Clone, Copy, Debug, PartialEq, Eq, Structural)]
pub enum MaskType {
    Masked,
    Unmasked,
    Flagged,
    Exploded,
}

/// A cell of the board.
#[derive(Clone, Copy, Debug, PartialEq, Eq, Structural)]
pub struct MineBox {
    pub box_type: BoxType,
    pub mask_type: MaskType,
}

impl MineBox {
    /// A masked cell: a mine, or a safe cell whose count is not yet known.
    pub fn new(is_mine: bool) -> (r: Self)
        ensures
            r.box_type == if is_mine {
                BoxType::Mine
            } else {
                BoxType::MineCount(0)
            },
            r.mask_type == MaskType::Masked,
    {
        MineBox {
            box_type: if is_mine {
                BoxType::Mine
            } else {
                BoxType::MineCount(0)
            },
            mask_type: MaskType::Masked,
        }
    }

    pub fn get_box_type(&self) -> (r: BoxType)
        ensures
            r == self.box_type,
    {
        self.box_type
    }

    pub fn set_mine_count(&mut self, mine_count: u8)
        ensures
            final(self).box_type == BoxType::MineCount(mine_count),
            final(self).mask_type == old(self).mask_type,
    {
        self.box_type = BoxType::MineCount(mine_count);
    }

    pub fn get_mask_type(&self) -> (r: MaskType)
        ensures
            r == self.mask_type,
    {
        self.mask_type
    }

    pub fn set_mask_type(&mut self, mask_type: MaskType)
        ensures
            final(self).mask_type == mask_type,
            final(self).box_type == old(self).box_type,
    {
        self.mask_type = mask_type;
    }
}

pub open spec fn cell(map: Seq<MineBox>, w: int, r: int, c: int) -> MineBox {
    map[r * w + c]
}

/// Row offset of neighbour `k` (0..8) of a cell.
pub open spec fn nb_r(k: int) -> int {
    if k < 3 {
        -1
    } else if k < 5 {
        0
    } else {
        1
    }
}

/// Column offset of neighbour `k` (0..8) of a cell.
pub open spec fn nb_c(k: int) -> int {
    if k == 0 || k == 3 || k == 5 {
        -1
    } else if k == 1 || k == 6 {
        0
    } else {
        1
    }
}

/// `(r2, c2)` is one of the up to eight neighbours of `(r1, c1)`.
pub open spec fn adjacent(r1: int, c1: int, r2: int, c2: int) -> bool {
    exists|k: int| 0 <= k < 8 && r2 == r1 + #[trigger] nb_r(k) && c2 == c1 + #[trigger] nb_c(k)
}

pub open spec fn is_safe(b: MineBox) -> bool {
    b.box_type is MineCount
}

pub open spec fn is_zero(b: MineBox) -> bool {
    b.box_type == BoxType::MineCount(0)
}

/// A masked cell with no mine around it: the flood fill passes through it.
pub open spec fn open_zero(map: Seq<MineBox>, h: int, w: int, r: int, c: int) -> bool {
    in_map(h, w, r, c) && cell(map, w, r, c).mask_type == MaskType::Masked && is_zero(
        cell(map, w, r, c),
    )
}

/// Writing one cell changes that cell only.
proof fn lemma_cell_update(map: Seq<MineBox>, h: int, w: int, nr: int, nc: int, b: MineBox)
    requires
        in_map(h, w, nr, nc),
        map.len() == h * w,
    ensures
        forall|r: int, c: int|
            in_map(h, w, r, c) ==> #[trigger] cell(map.update(nr * w + nc, b), w, r, c) == if r
                == nr && c == nc {
                b
            } else {
                cell(map, w, r, c)
            },
{
    assert forall|r: int, c: int| in_map(h, w, r, c) implies #[trigger] cell(
        map.update(nr * w + nc, b),
        w,
        r,
        c,
    ) == if r == nr && c == nc {
        b
    } else {
        cell(map, w, r, c)
    } by {
        lemma_index(h, w, r, c);
        lemma_index(h, w, nr, nc);
        if r * w + c == nr * w + nc {
            lemma_index_inj(h, w, r, c, nr, nc);
        }
    }
}

/// Neighbour `k` of `(r, c)`, if it lies on the board.
fn neighbour(r: usize, c: usize, k: usize, h: usize, w: usize) -> (res: Option<(usize, usize)>)
    requires
        r < h,
        c < w,
        k < 8,
    ensures
        match res {
            Some(p) => in_map(h as int, w as int, r + nb_r(k as int), c + nb_c(k as int)) && p.0
                == r + nb_r(k as int) && p.1 == c + nb_c(k as int),
            None => !in_map(h as int, w as int, r + nb_r(k as int), c + nb_c(k as int)),
        },
{
    let nr: usize = if k < 3 {
        if r == 0 {
            return None;
        }
        r - 1
    } else if k < 5 {
        r
    } else {
        if r + 1 >= h {
            return None;
        }
        r + 1
    };
    let nc: usize = if k == 0 || k == 3 || k == 5 {
        if c == 0 {
            return None;
        }
        c - 1
    } else if k == 1 || k == 6 {
        c
    } else {
        if c + 1 >= w {
            return None;
        }
        c + 1
    };
    Some((nr, nc))
}

pub open spec fn unmasked(b: MineBox) -> MineBox {
    MineBox { box_type: b.box_type, mask_type: MaskType::Unmasked }
}

/// The board `m2` is `m1` after opening `(r, c)`: a masked safe cell is
/// opened, and when no mine is around it, so is its zero region with the
/// border of that region; anything else changes nothing.
pub open spec fn open_rel(m1: Seq<MineBox>, m2: Seq<MineBox>, h: int, w: int, r: int, c: int) -> bool {
    if in_map(h, w, r, c) && cell(m1, w, r, c).mask_type == MaskType::Masked && is_safe(
        cell(m1, w, r, c),
    ) {
        if is_zero(cell(m1, w, r, c)) {
            flood_rel(m1, m2, h, w, r, c)
        } else {
            m2 == m1.update(r * w + c, unmasked(cell(m1, w, r, c)))
        }
    } else {
        m2 == m1
    }
}

/// The board `m2` is `m1` after opening the neighbours `0..8` of `(r, c)`
/// one after the other.
pub open spec fn open_around_rel(m1: Seq<MineBox>, m2: Seq<MineBox>, h: int, w: int, r: int, c: int) -> bool {
    exists|ms: Seq<Seq<MineBox>>|
        #![trigger ms.len(), ms[0]]
        ms.len() == 9 && ms[0] == m1 && ms[8] == m2 && forall|k: int|
            0 <= k < 8 ==> open_rel(
                #[trigger] ms[k],
                ms[k + 1],
                h,
                w,
                r + nb_r(k),
                c + nb_c(k),
            )
}

/// Among the neighbours `0..k` of `(r, c)`, the number whose mask is `mt`.
pub open spec fn count_around(m: Seq<MineBox>, h: int, w: int, r: int, c: int, mt: MaskType, k: int) -> nat
    decreases k,
{
    if k <= 0 {
        0
    } else {
        count_around(m, h, w, r, c, mt, k - 1) + if in_map(h, w, r + nb_r(k - 1), c + nb_c(k - 1))
            && cell(m, w, r + nb_r(k - 1), c + nb_c(k - 1)).mask_type == mt {
            1nat
        } else {
            0nat
        }
    }
}

/// The board `m2` is `m1` with every masked neighbour of `(r, c)` flagged.
pub open spec fn flag_around_rel(m1: Seq<MineBox>, m2: Seq<MineBox>, h: int, w: int, r: int, c: int) -> bool {
    &&& m2.len() == m1.len()
    &&& forall|r2: int, c2: int|
        in_map(h, w, r2, c2) ==> #[trigger] cell(m2, w, r2, c2) == if adjacent(r, c, r2, c2)
            && cell(m1, w, r2, c2).mask_type == MaskType::Masked {
            MineBox { box_type: cell(m1, w, r2, c2).box_type, mask_type: MaskType::Flagged }
        } else {
            cell(m1, w, r2, c2)
        }
}

/// Every safe cell is open.
pub open spec fn succeeded(m: Seq<MineBox>) -> bool {
    forall|i: int| 0 <= i < m.len() ==> is_safe(#[trigger] m[i]) ==> m[i].mask_type == MaskType::Unmasked
}

/// A masked cell shown; others as they are.
pub open spec fn shown(b: MineBox) -> MineBox {
    if b.mask_type == MaskType::Masked {
        unmasked(b)
    } else {
        b
    }
}

/// The whole board shown, as after the end of a game.
pub open spec fn all_shown(m1: Seq<MineBox>, m2: Seq<MineBox>) -> bool {
    &&& m2.len() == m1.len()
    &&& forall|i: int| 0 <= i < m1.len() ==> #[trigger] m2[i] == shown(m1[i])
}

/// Opens `(r, c)` as `open_rel` says.
fn open_at(map: &mut Vec<MineBox>, h: usize, w: usize, r: usize, c: usize)
    requires
        old(map)@.len() == h * w,
        in_map(h as int, w as int, r as int, c as int),
    ensures
        final(map)@.len() == h * w,
        open_rel(old(map)@, final(map)@, h as int, w as int, r as int, c as int),
{
    let len = map.len();
    let i = index_of(h, w, r, c, len);
    let b = map[i];
    if b.mask_type == MaskType::Masked {
        match b.box_type {
            BoxType::MineCount(n) => {
                if n == 0 {
                    unmask_from_position(map, h, w, r, c);
                } else {
                    map.set(i, MineBox { box_type: b.box_type, mask_type: MaskType::Unmasked });
                }
            },
            BoxType::Mine => {},
        }
    }
}

/// Opens the neighbours of `(r, c)` one after the other.
fn open_around(map: &mut Vec<MineBox>, h: usize, w: usize, r: usize, c: usize)
    requires
        old(map)@.len() == h * w,
        in_map(h as int, w as int, r as int, c as int),
    ensures
        final(map)@.len() == h * w,
        open_around_rel(old(map)@, final(map)@, h as int, w as int, r as int, c as int),
{
    let ghost mut ms: Seq<Seq<MineBox>> = seq![map@];
    let mut k: usize = 0;
    while k < 8
        invariant
            map@.len() == h * w,
            in_map(h as int, w as int, r as int, c as int),
            k <= 8,
            ms.len() == k + 1,
            ms[0] == old(map)@,
            ms[k as int] == map@,
            forall|j: int|
                0 <= j < k ==> open_rel(
                    #[trigger] ms[j],
                    ms[j + 1],
                    h as int,
                    w as int,
                    r + nb_r(j),
                    c + nb_c(j),
                ),
        decreases 8 - k,
    {
        let ghost before = map@;
        match neighbour(r, c, k, h, w) {
            Some((nr, nc)) => {
                open_at(map, h, w, nr, nc);
            },
            None => {},
        }
        proof {
            let ms2 = ms.push(map@);
            assert forall|j: int|
                0 <= j < k + 1 implies open_rel(
                #[trigger] ms2[j],
                ms2[j + 1],
                h as int,
                w as int,
                r + nb_r(j),
                c + nb_c(j),
            ) by {
                assert(ms2[j] == ms[j]);
                if j < k {
                    assert(ms2[j + 1] == ms[j + 1]);
                }
            }
            ms = ms2;
        }
        k += 1;
    }
    proof {
        assert(ms.len() == 9 && ms[0] == old(map)@ && ms[8] == map@);
    }
}

/// The number of neighbours of `(r, c)` whose mask is `mt`.
fn count_around_exec(map: &Vec<MineBox>, h: usize, w: usize, r: usize, c: usize, mt: MaskType) -> (n: u8)
    requires
        map@.len() == h * w,
        in_map(h as int, w as int, r as int, c as int),
    ensures
        n == count_around(map@, h as int, w as int, r as int, c as int, mt, 8),
{
    let mut n: u8 = 0;
    let mut k: usize = 0;
    while k < 8
        invariant
            map@.len() == h * w,
            in_map(h as int, w as int, r as int, c as int),
            k <= 8,
            n == count_around(map@, h as int, w as int, r as int, c as int, mt, k as int),
            n <= k,
        decreases 8 - k,
    {
        match neighbour(r, c, k, h, w) {
            Some((nr, nc)) => {
                let i = index_of(h, w, nr, nc, map.len());
                if map[i].mask_type == mt {
                    n += 1;
                }
            },
            None => {},
        }
        k += 1;
    }
    n
}

/// Flags every masked neighbour of `(r, c)`.
fn flag_around(map: &mut Vec<MineBox>, h: usize, w: usize, r: usize, c: usize)
    requires
        old(map)@.len() == h * w,
        in_map(h as int, w as int, r as int, c as int),
    ensures
        final(map)@.len() == h * w,
        flag_around_rel(old(map)@, final(map)@, h as int, w as int, r as int, c as int),
{
    let ghost m0 = map@;
    let mut k: usize = 0;
    while k < 8
        invariant
            map@.len() == h * w,
            in_map(h as int, w as int, r as int, c as int),
            k <= 8,
            forall|r2: int, c2: int|
                in_map(h as int, w as int, r2, c2) ==> #[trigger] cell(map@, w as int, r2, c2) == if (
                exists|j: int|
                    0 <= j < k && r2 == r + #[trigger] nb_r(j) && c2 == c + #[trigger] nb_c(j))
                    && cell(m0, w as int, r2, c2).mask_type == MaskType::Masked {
                    MineBox { box_type: cell(m0, w as int, r2, c2).box_type, mask_type: MaskType::Flagged }
                } else {
                    cell(m0, w as int, r2, c2)
                },
        decreases 8 - k,
    {
        match neighbour(r, c, k, h, w) {
            Some((nr, nc)) => {
                let i = index_of(h, w, nr, nc, map.len());
                let b = map[i];
                proof {
                    lemma_cell_update(map@, h as int, w as int, nr as int, nc as int, MineBox { box_type: b.box_type, mask_type: MaskType::Flagged });
                    assert(nr == r + nb_r(k as int) && nc == c + nb_c(k as int));
                    assert(forall|j: int| 0 <= j < k ==> !(nr == r + #[trigger] nb_r(j) && nc == c + #[trigger] nb_c(j)));
                }
                if b.mask_type == MaskType::Masked {
                    map.set(i, MineBox { box_type: b.box_type, mask_type: MaskType::Flagged });
                }
            },
            None => {},
        }
        k += 1;
    }
}

/// Whether every safe cell is open.
pub fn is_succeeded(map: &Vec<MineBox>) -> (b: bool)
    ensures
        b == succeeded(map@),
{
    let mut i: usize = 0;
    while i < map.len()
        invariant
            i <= map@.len(),
            forall|j: int| 0 <= j < i ==> is_safe(#[trigger] map@[j]) ==> map@[j].mask_type == MaskType::Unmasked,
        decreases map@.len() - i,
    {
        let b = map[i];
        if b.mask_type != MaskType::Unmasked {
            if let BoxType::MineCount(_) = b.box_type {
                return false;
            }
        }
        i += 1;
    }
    true
}

/// Shows every masked cell.
pub fn unmask_all(map: &mut Vec<MineBox>)
    ensures
        all_shown(old(map)@, final(map)@),
{
    let mut i: usize = 0;
    while i < map.len()
        invariant
            i <= map@.len(),
            map@.len() == old(map)@.len(),
            forall|j: int| 0 <= j < i ==> #[trigger] map@[j] == shown(old(map)@[j]),
            forall|j: int| i <= j < map@.len() ==> #[trigger] map@[j] == old(map)@[j],
        decreases map@.len() - i,
    {
        let b = map[i];
        if b.mask_type == MaskType::Masked {
            map.set(i, MineBox { box_type: b.box_type, mask_type: MaskType::Unmasked });
        }
        i += 1;
    }
}

/// Among the neighbours `0..k` of `(r, c)`, the number that hold a mine.
pub open spec fn mines_around(m: Seq<MineBox>, h: int, w: int, r: int, c: int, k: int) -> nat
    decreases k,
{
    if k <= 0 {
        0
    } else {
        mines_around(m, h, w, r, c, k - 1) + if in_map(h, w, r + nb_r(k - 1), c + nb_c(k - 1))
            && cell(m, w, r + nb_r(k - 1), c + nb_c(k - 1)).box_type == BoxType::Mine {
            1nat
        } else {
            0nat
        }
    }
}

/// Every safe cell shows the number of mines among its neighbours.
pub open spec fn counts_ok(m: Seq<MineBox>, h: int, w: int) -> bool {
    forall|r: int, c: int|
        in_map(h, w, r, c) && is_safe(#[trigger] cell(m, w, r, c)) ==> cell(m, w, r, c).box_type
            == BoxType::MineCount(mines_around(m, h, w, r, c, 8) as u8)
}

/// Two boards with the same content in every cell.
pub open spec fn same_content(m1: Seq<MineBox>, m2: Seq<MineBox>, h: int, w: int) -> bool {
    forall|r: int, c: int|
        in_map(h, w, r, c) ==> (#[trigger] cell(m2, w, r, c)).box_type == cell(m1, w, r, c).box_type
}

proof fn lemma_mines_around_same(m1: Seq<MineBox>, m2: Seq<MineBox>, h: int, w: int, r: int, c: int, k: int)
    requires
        forall|r2: int, c2: int|
            in_map(h, w, r2, c2) ==> ((#[trigger] cell(m2, w, r2, c2)).box_type == BoxType::Mine)
                == (cell(m1, w, r2, c2).box_type == BoxType::Mine),
    ensures
        mines_around(m1, h, w, r, c, k) == mines_around(m2, h, w, r, c, k),
    decreases k,
{
    if k > 0 {
        lemma_mines_around_same(m1, m2, h, w, r, c, k - 1);
    }
}

proof fn lemma_counts_kept(m1: Seq<MineBox>, m2: Seq<MineBox>, h: int, w: int)
    requires
        counts_ok(m1, h, w),
        same_content(m1, m2, h, w),
    ensures
        counts_ok(m2, h, w),
{
    assert forall|r: int, c: int|
        in_map(h, w, r, c) && is_safe(#[trigger] cell(m2, w, r, c)) implies cell(m2, w, r, c).box_type
        == BoxType::MineCount(mines_around(m2, h, w, r, c, 8) as u8) by {
        lemma_mines_around_same(m1, m2, h, w, r, c, 8);
    }
}

/// The number of mines on the board, over the cells `0..n`.
pub open spec fn mine_total(m: Seq<MineBox>, n: int) -> nat
    decreases n,
{
    if n <= 0 {
        0
    } else {
        mine_total(m, n - 1) + if m[n - 1].box_type == BoxType::Mine {
            1nat
        } else {
            0nat
        }
    }
}

pub open spec fn true_total(s: Seq<bool>, n: int) -> nat
    decreases n,
{
    if n <= 0 {
        0
    } else {
        true_total(s, n - 1) + if s[n - 1] {
            1nat
        } else {
            0nat
        }
    }
}

proof fn lemma_true_total_update(s: Seq<bool>, i: int, x: bool, n: int)
    requires
        0 <= i < s.len(),
        0 <= n <= s.len(),
    ensures
        true_total(s.update(i, x), n) + (if i < n && s[i] {
            1int
        } else {
            0int
        }) == true_total(s, n) + (if i < n && x {
            1int
        } else {
            0int
        }),
    decreases n,
{
    if n > 0 {
        lemma_true_total_update(s, i, x, n - 1);
    }
}

proof fn lemma_true_total_prefix(s: Seq<bool>, m: int, n: int)
    requires
        0 <= n <= s.len(),
        0 <= m,
        forall|j: int| 0 <= j < n ==> s[j] == (j < m),
    ensures
        true_total(s, n) == if n < m {
            n
        } else {
            m
        },
    decreases n,
{
    if n > 0 {
        lemma_true_total_prefix(s, m, n - 1);
    }
}

proof fn lemma_mine_total_same(m: Seq<MineBox>, s: Seq<bool>, n: int)
    requires
        0 <= n <= m.len(),
        n <= s.len(),
        forall|j: int| 0 <= j < n ==> (#[trigger] m[j].box_type == BoxType::Mine) == s[j],
    ensures
        mine_total(m, n) == true_total(s, n),
    decreases n,
{
    if n > 0 {
        lemma_mine_total_same(m, s, n - 1);
    }
}

proof fn lemma_mine_total_content(m1: Seq<MineBox>, m2: Seq<MineBox>, n: int)
    requires
        0 <= n <= m1.len(),
        n <= m2.len(),
        forall|j: int| 0 <= j < n ==> (#[trigger] m2[j]).box_type == m1[j].box_type,
    ensures
        mine_total(m1, n) == mine_total(m2, n),
    decreases n,
{
    if n > 0 {
        lemma_mine_total_content(m1, m2, n - 1);
    }
}

/// Relies on rand::thread_rng with rand::Rng::gen_range: a draw from `0..n`.
#[verifier::external_body]
fn random_below(n: usize) -> (r: usize)
    requires
        n > 0,
    ensures
        r < n,
{
    rand::thread_rng().gen_range(0..n)
}

/// Sets the count of every safe cell to the number of mines around it.
fn map_calc_mine_count(map: &mut Vec<MineBox>, h: usize, w: usize)
    requires
        old(map)@.len() == h * w,
    ensures
        final(map)@.len() == h * w,
        counts_ok(final(map)@, h as int, w as int),
        forall|r: int, c: int|
            in_map(h as int, w as int, r, c) ==> ((#[trigger] cell(final(map)@, w as int, r, c)).box_type
                == BoxType::Mine) == (cell(old(map)@, w as int, r, c).box_type == BoxType::Mine)
                && cell(final(map)@, w as int, r, c).mask_type == cell(old(map)@, w as int, r, c).mask_type,
{
    let ghost m0 = map@;
    let len = map.len();
    let mut r: usize = 0;
    while r < h
        invariant
            map@.len() == h * w,
            len == h * w,
            r <= h,
            forall|r2: int, c2: int|
                in_map(h as int, w as int, r2, c2) ==> ((#[trigger] cell(map@, w as int, r2, c2)).box_type
                    == BoxType::Mine) == (cell(m0, w as int, r2, c2).box_type == BoxType::Mine)
                    && cell(map@, w as int, r2, c2).mask_type == cell(m0, w as int, r2, c2).mask_type,
            forall|r2: int, c2: int|
                in_map(h as int, w as int, r2, c2) && r2 < r && is_safe(#[trigger] cell(map@, w as int, r2, c2))
                    ==> cell(map@, w as int, r2, c2).box_type == BoxType::MineCount(
                    mines_around(m0, h as int, w as int, r2, c2, 8) as u8,
                ),
        decreases h - r,
    {
        let mut c: usize = 0;
        while c < w
            invariant
                map@.len() == h * w,
                len == h * w,
                r < h,
                c <= w,
                forall|r2: int, c2: int|
                    in_map(h as int, w as int, r2, c2) ==> ((#[trigger] cell(map@, w as int, r2, c2)).box_type
                        == BoxType::Mine) == (cell(m0, w as int, r2, c2).box_type == BoxType::Mine)
                        && cell(map@, w as int, r2, c2).mask_type == cell(m0, w as int, r2, c2).mask_type,
                forall|r2: int, c2: int|
                    in_map(h as int, w as int, r2, c2) && (r2 < r || r2 == r && c2 < c) && is_safe(
                        #[trigger] cell(map@, w as int, r2, c2),
                    ) ==> cell(map@, w as int, r2, c2).box_type == BoxType::MineCount(
                        mines_around(m0, h as int, w as int, r2, c2, 8) as u8,
                    ),
            decreases w - c,
        {
            let i = index_of(h, w, r, c, len);
            let b = map[i];
            if let BoxType::MineCount(_) = b.box_type {
                let mut counter: u8 = 0;
                let mut k: usize = 0;
                while k < 8
                    invariant
                        map@.len() == h * w,
                        len == h * w,
                        r < h,
                        c < w,
                        k <= 8,
                        counter <= k,
                        forall|r2: int, c2: int|
                            in_map(h as int, w as int, r2, c2) ==> ((#[trigger] cell(map@, w as int, r2, c2)).box_type
                                == BoxType::Mine) == (cell(m0, w as int, r2, c2).box_type == BoxType::Mine),
                        counter == mines_around(m0, h as int, w as int, r as int, c as int, k as int),
                    decreases 8 - k,
                {
                    match neighbour(r, c, k, h, w) {
                        Some((nr, nc)) => {
                            let j = index_of(h, w, nr, nc, len);
                            proof {
                                assert(cell(map@, w as int, nr as int, nc as int) == map@[j as int]);
                            }
                            if map[j].box_type == BoxType::Mine {
                                counter += 1;
                            }
                        },
                        None => {},
                    }
                    k += 1;
                }
                let nb = MineBox { box_type: BoxType::MineCount(counter), mask_type: b.mask_type };
                proof {
                    lemma_cell_update(map@, h as int, w as int, r as int, c as int, nb);
                }
                map.set(i, nb);
            }
            c += 1;
        }
        r += 1;
    }
    proof {
        assert forall|r2: int, c2: int|
            in_map(h as int, w as int, r2, c2) && is_safe(#[trigger] cell(map@, w as int, r2, c2)) implies cell(
            map@,
            w as int,
            r2,
            c2,
        ).box_type == BoxType::MineCount(mines_around(map@, h as int, w as int, r2, c2, 8) as u8) by {
            lemma_mines_around_same(m0, map@, h as int, w as int, r2, c2, 8);
        }
    }
}

/// A player of a game and the number of moves they made.
#[derive(Clone, Debug)]
pub struct Player {
    pub name: String,
    pub step: usize,
}

impl Player {
    pub fn new(name: String) -> (r: Self)
        ensures
            r.name == name,
            r.step == 1,
    {
        Player { name, step: 1 }
    }
}

/// Index of the first player among `0..n` named `name`, or -1.
pub open spec fn find_player(players: Seq<Player>, name: Seq<char>, n: int) -> int
    decreases n,
{
    if n <= 0 {
        -1
    } else if find_player(players, name, n - 1) >= 0 {
        find_player(players, name, n - 1)
    } else if players[n - 1].name@ == name {
        n - 1
    } else {
        -1
    }
}

/// The players after `name` made a move: their count goes up by one, or
/// they join with one move.
pub open spec fn recorded(players: Seq<Player>, name: String) -> Seq<Player> {
    let i = find_player(players, name@, players.len() as int);
    if i >= 0 {
        players.update(
            i,
            Player {
                name: players[i].name,
                step: if players[i].step < usize::MAX {
                    (players[i].step + 1) as usize
                } else {
                    players[i].step
                },
            },
        )
    } else {
        players.push(Player { name, step: 1 })
    }
}

proof fn lemma_find_player_bound(players: Seq<Player>, name: Seq<char>, n: int)
    requires
        0 <= n <= players.len(),
    ensures
        -1 <= find_player(players, name, n) < n,
        find_player(players, name, n) >= 0 ==> players[find_player(players, name, n)].name@ == name,
        find_player(players, name, n) < 0 ==> forall|j: int| 0 <= j < n ==> (#[trigger] players[j]).name@ != name,
    decreases n,
{
    if n > 0 {
        lemma_find_player_bound(players, name, n - 1);
    }
}

/// State of a game after a move.
#[derive(Clone, Copy, Debug, PartialEq, Eq, Structural)]
pub enum GameState {
    Failed,
    OnGoing,
    Succeeded,
}

/// The board `m2` and state `res` at the end of a move that left the board
/// `m1`: a board whose safe cells are all open is won and shown whole.
pub open spec fn finished(m1: Seq<MineBox>, m2: Seq<MineBox>, res: GameState) -> bool {
    if succeeded(m1) {
        all_shown(m1, m2) && res == GameState::Succeeded
    } else {
        m2 == m1 && res == GameState::OnGoing
    }
}

/// What a game is, as values.
pub struct GameView {
    pub map: Seq<MineBox>,
    pub width: usize,
    pub height: usize,
    pub mine_count: usize,
    pub players: Seq<Player>,
}

/// The first neighbour `k..8` of `(r, c)` that is a masked mine, or 8.
pub open spec fn masked_mine_from(m: Seq<MineBox>, h: int, w: int, r: int, c: int, k: int) -> int
    decreases 8 - k,
{
    if k >= 8 {
        8
    } else if in_map(h, w, r + nb_r(k), c + nb_c(k)) && cell(m, w, r + nb_r(k), c + nb_c(k)).mask_type
        == MaskType::Masked && cell(m, w, r + nb_r(k), c + nb_c(k)).box_type == BoxType::Mine {
        k
    } else {
        masked_mine_from(m, h, w, r, c, k + 1)
    }
}

proof fn lemma_masked_mine_from(m: Seq<MineBox>, h: int, w: int, r: int, c: int, k: int)
    requires
        0 <= k <= 8,
    ensures
        k <= masked_mine_from(m, h, w, r, c, k) <= 8,
        masked_mine_from(m, h, w, r, c, k) < 8 ==> {
            let j = masked_mine_from(m, h, w, r, c, k);
            in_map(h, w, r + nb_r(j), c + nb_c(j)) && cell(m, w, r + nb_r(j), c + nb_c(j)).mask_type
                == MaskType::Masked && cell(m, w, r + nb_r(j), c + nb_c(j)).box_type == BoxType::Mine
        },
    decreases 8 - k,
{
    if k < 8 {
        lemma_masked_mine_from(m, h, w, r, c, k + 1);
    }
}

/// The first neighbour of `(r, c)` that is a masked mine, if any: its
/// number and place.
fn find_masked_mine(map: &Vec<MineBox>, h: usize, w: usize, r: usize, c: usize) -> (res: Option<(usize, usize, usize)>)
    requires
        map@.len() == h * w,
        in_map(h as int, w as int, r as int, c as int),
    ensures
        match res {
            Some((k, mr, mc)) => k == masked_mine_from(map@, h as int, w as int, r as int, c as int, 0)
                && k < 8 && mr == r + nb_r(k as int) && mc == c + nb_c(k as int) && in_map(h as int, w as int, mr as int, mc as int),
            None => masked_mine_from(map@, h as int, w as int, r as int, c as int, 0) == 8,
        },
{
    let mut k: usize = 0;
    while k < 8
        invariant
            map@.len() == h * w,
            in_map(h as int, w as int, r as int, c as int),
            k <= 8,
            masked_mine_from(map@, h as int, w as int, r as int, c as int, 0) == masked_mine_from(
                map@,
                h as int,
                w as int,
                r as int,
                c as int,
                k as int,
            ),
        decreases 8 - k,
    {
        match neighbour(r, c, k, h, w) {
            Some((nr, nc)) => {
                let b = map[index_of(h, w, nr, nc, map.len())];
                if b.mask_type == MaskType::Masked && b.box_type == BoxType::Mine {
                    return Some((k, nr, nc));
                }
            },
            None => {},
        }
        k += 1;
    }
    None
}

/// The game `g2` and state `res` after the move of `player` on
/// `(row, col)` of the game `g1`.
///
/// On a masked cell: a mine explodes and the whole board is shown
/// (`Failed`); a safe cell is opened, with its zero region and that
/// region's border when no mine is around it. On an open cell showing
/// `n > 0`: when its masked and flagged neighbours number `n`, its masked
/// neighbours are revealed: a mine among them (the first in neighbour
/// order) explodes as a click on it would, else each is opened as a click
/// on it would open it; else when
/// its flagged neighbours number `n`, its masked neighbours are flagged. After either, a board whose safe cells
/// are all open is shown whole and won (`Succeeded`). Flagged and exploded
/// cells, and open cells without a mine around, change nothing. A move
/// that changed or could change the board is counted for `player`.
pub open spec fn click_rel(g1: GameView, g2: GameView, row: usize, col: usize, player: String, res: GameState) -> bool {
    &&& g2.width == g1.width
    &&& g2.height == g1.height
    &&& g2.mine_count == g1.mine_count
    &&& {
    let (h, w, r, c) = (
                    g1.height as int,
                    g1.width as int,
                    row as int,
                    col as int,
                );
                let m0 = g1.map;
                let b = cell(m0, w, r, c);
                let masked = count_around(m0, h, w, r, c, MaskType::Masked, 8);
                let flagged = count_around(m0, h, w, r, c, MaskType::Flagged, 8);
                if b.mask_type == MaskType::Masked {
                    &&& g2.players == recorded(g1.players, player)
                    &&& if b.box_type == BoxType::Mine {
                        all_shown(
                            m0.update(r * w + c, MineBox { box_type: b.box_type, mask_type: MaskType::Exploded }),
                            g2.map,
                        ) && res == GameState::Failed
                    } else {
                        exists|m1: Seq<MineBox>|
                            open_rel(m0, m1, h, w, r, c) && #[trigger] finished(m1, g2.map, res)
                    }
                } else if b.mask_type == MaskType::Unmasked && b.box_type is MineCount && b.box_type
                    != BoxType::MineCount(0) {
                    let n = b.box_type->MineCount_0;
                    if masked + flagged == n {
                        let k = masked_mine_from(m0, h, w, r, c, 0);
                        &&& g2.players == recorded(g1.players, player)
                        &&& if k < 8 {
                            let (mr, mc) = (r + nb_r(k), c + nb_c(k));
                            all_shown(
                                m0.update(mr * w + mc, MineBox { box_type: BoxType::Mine, mask_type: MaskType::Exploded }),
                                g2.map,
                            ) && res == GameState::Failed
                        } else {
                            exists|m1: Seq<MineBox>|
                                open_around_rel(m0, m1, h, w, r, c) && #[trigger] finished(m1, g2.map, res)
                        }
                    } else if flagged == n {
                        &&& g2.players == recorded(g1.players, player)
                        &&& exists|m1: Seq<MineBox>|
                            flag_around_rel(m0, m1, h, w, r, c) && #[trigger] finished(m1, g2.map, res)
                    } else {
                        &&& g2.players == g1.players
                        &&& finished(m0, g2.map, res)
                    }
                } else {
                    &&& g2.map == m0
                    &&& g2.players == g1.players
                    &&& res == GameState::OnGoing
                }
    }
}

/// A game: the board, its size, its number of mines and who played.
#[derive(Clone, Debug)]
pub struct Game {
    pub map: Vec<MineBox>,
    pub width: usize,
    pub height: usize,
    pub mine_count: usize,
    pub players: Vec<Player>,
}

impl Game {
    pub open spec fn view(&self) -> GameView {
        GameView {
            map: self.map@,
            width: self.width,
            height: self.height,
            mine_count: self.mine_count,
            players: self.players@,
        }
    }

    pub open spec fn wf(&self) -> bool {
        &&& self.map@.len() == self.height * self.width
        &&& self.mine_count < self.height * self.width
        &&& counts_ok(self.map@, self.height as int, self.width as int)
    }

    pub open spec fn at(&self, r: int, c: int) -> MineBox {
        cell(self.map@, self.width as int, r, c)
    }

    /// Whether `(row, col)` lies on the board.
    pub fn contains(&self, row: usize, col: usize) -> (b: bool)
        ensures
            b == in_map(self.height as int, self.width as int, row as int, col as int),
    {
        row < self.height && col < self.width
    }

    /// Flags the cell at `(row, col)` when it is masked; else changes nothing.
    pub fn set_flag(&mut self, row: usize, col: usize)
        requires
            old(self).wf(),
            in_map(old(self).height as int, old(self).width as int, row as int, col as int),
        ensures
            final(self).wf(),
            final(self).width == old(self).width,
            final(self).height == old(self).height,
            final(self).mine_count == old(self).mine_count,
            final(self).players == old(self).players,
            final(self).map@ == if old(self).at(row as int, col as int).mask_type == MaskType::Masked {
                old(self).map@.update(
                    row * old(self).width + col,
                    MineBox { box_type: old(self).at(row as int, col as int).box_type, mask_type: MaskType::Flagged },
                )
            } else {
                old(self).map@
            },
    {
        let i = index_of(self.height, self.width, row, col, self.map.len());
        let b = self.map[i];
        if b.mask_type == MaskType::Masked {
            let f = MineBox { box_type: b.box_type, mask_type: MaskType::Flagged };
            proof {
                lemma_cell_update(self.map@, self.height as int, self.width as int, row as int, col as int, f);
                lemma_counts_kept(self.map@, self.map@.update(i as int, f), self.height as int, self.width as int);
            }
            self.map.set(i, f);
        }
    }

    /// The cell at `(row, col)`.
    pub fn get(&self, row: usize, col: usize) -> (b: MineBox)
        requires
            self.wf(),
            in_map(self.height as int, self.width as int, row as int, col as int),
        ensures
            b == self.at(row as int, col as int),
    {
        let i = index_of(self.height, self.width, row, col, self.map.len());
        self.map[i]
    }

    fn record(&mut self, player: String)
        ensures
            final(self).players@ == recorded(old(self).players@, player),
            final(self).map == old(self).map,
            final(self).width == old(self).width,
            final(self).height == old(self).height,
            final(self).mine_count == old(self).mine_count,
    {
        let ghost name = player@;
        let mut i: usize = 0;
        while i < self.players.len()
            invariant
                self.players@ == old(self).players@,
                self.map == old(self).map,
                self.width == old(self).width,
                self.height == old(self).height,
                self.mine_count == old(self).mine_count,
                name == player@,
                i <= self.players@.len(),
                find_player(self.players@, name, i as int) == -1,
            decreases self.players@.len() - i,
        {
            if self.players[i].name == player {
                let step = self.players[i].step;
                let name2 = self.players[i].name.clone();
                let p = Player {
                    name: name2,
                    step: if step < usize::MAX {
                        step + 1
                    } else {
                        step
                    },
                };
                proof {
                    lemma_find_player_bound(self.players@, name, self.players@.len() as int);
                    assert(find_player(self.players@, name, i + 1) == i);
                    assert forall|n: int| i + 1 <= n <= self.players@.len() implies find_player(
                        self.players@,
                        name,
                        n,
                    ) == i by {
                        lemma_find_player_stable(self.players@, name, i + 1, n);
                    }
                }
                self.players.set(i, p);
                return;
            }
            i += 1;
        }
        self.players.push(Player::new(player));
    }
}

proof fn lemma_find_player_stable(players: Seq<Player>, name: Seq<char>, m: int, n: int)
    requires
        0 <= m <= n <= players.len(),
        find_player(players, name, m) >= 0,
    ensures
        find_player(players, name, n) == find_player(players, name, m),
    decreases n - m,
{
    if m < n {
        lemma_find_player_stable(players, name, m, n - 1);
    }
}

impl Game {
    /// Ends a move that left the board as it is now: when every safe cell
    /// is open the whole board is shown and the game is won.
    fn finish(&mut self) -> (res: GameState)
        requires
            old(self).wf(),
        ensures
            final(self).wf(),
            finished(old(self).map@, final(self).map@, res),
            final(self).players == old(self).players,
            final(self).width == old(self).width,
            final(self).height == old(self).height,
            final(self).mine_count == old(self).mine_count,
    {
        if is_succeeded(&self.map) {
            unmask_all(&mut self.map);
            proof {
                lemma_shown_content(old(self).map@, self.map@, self.height as int, self.width as int);
                lemma_counts_kept(old(self).map@, self.map@, self.height as int, self.width as int);
            }
            GameState::Succeeded
        } else {
            GameState::OnGoing
        }
    }

    /// The move of `player` on `(row, col)`, as `click_rel` says.
    pub fn click(&mut self, row: usize, col: usize, player: String) -> (res: GameState)
        requires
            old(self).wf(),
            in_map(old(self).height as int, old(self).width as int, row as int, col as int),
        ensures
            final(self).wf(),
            final(self).width == old(self).width,
            final(self).height == old(self).height,
            final(self).mine_count == old(self).mine_count,
            click_rel(old(self).view(), final(self).view(), row, col, player, res),
    {
        let (h, w) = (self.height, self.width);
        let i = index_of(h, w, row, col, self.map.len());
        let b = self.map[i];
        match b.mask_type {
            MaskType::Masked => {
                self.record(player);
                match b.box_type {
                    BoxType::Mine => {
                        self.map.set(i, MineBox { box_type: b.box_type, mask_type: MaskType::Exploded });
                        let ghost m1 = self.map@;
                        unmask_all(&mut self.map);
                        proof {
                            lemma_cell_update(old(self).map@, h as int, w as int, row as int, col as int, MineBox { box_type: b.box_type, mask_type: MaskType::Exploded });
                            lemma_counts_kept(old(self).map@, m1, h as int, w as int);
                            lemma_shown_content(m1, self.map@, h as int, w as int);
                            lemma_counts_kept(m1, self.map@, h as int, w as int);
                            assert(click_rel(old(self).view(), self.view(), row, col, player, GameState::Failed));
                        }
                        GameState::Failed
                    },
                    BoxType::MineCount(_) => {
                        open_at(&mut self.map, h, w, row, col);
                        let ghost m1 = self.map@;
                        proof {
                            lemma_open_content(old(self).map@, m1, h as int, w as int, row as int, col as int);
                            lemma_counts_kept(old(self).map@, m1, h as int, w as int);
                        }
                        let res = self.finish();
                        proof {
                            assert(finished(m1, self.view().map, res));
                            assert(click_rel(old(self).view(), self.view(), row, col, player, res));
                        }
                        res
                    },
                }
            },
            MaskType::Unmasked => {
                match b.box_type {
                    BoxType::MineCount(n) => {
                        if n == 0 {
                            return GameState::OnGoing;
                        }
                        let masked = count_around_exec(&self.map, h, w, row, col, MaskType::Masked);
                        let flagged = count_around_exec(&self.map, h, w, row, col, MaskType::Flagged);
                        if masked as u16 + flagged as u16 == n as u16 {
                            self.record(player);
                            if let Some((_, mr, mc)) = find_masked_mine(&self.map, h, w, row, col) {
                                let j = index_of(h, w, mr, mc, self.map.len());
                                let ghost m0 = self.map@;
                                let boom = MineBox { box_type: BoxType::Mine, mask_type: MaskType::Exploded };
                                self.map.set(j, boom);
                                let ghost m1 = self.map@;
                                unmask_all(&mut self.map);
                                proof {
                                    lemma_masked_mine_from(m0, h as int, w as int, row as int, col as int, 0);
                                    lemma_cell_update(m0, h as int, w as int, mr as int, mc as int, boom);
                                    lemma_counts_kept(m0, m1, h as int, w as int);
                                    lemma_shown_content(m1, self.map@, h as int, w as int);
                                    lemma_counts_kept(m1, self.map@, h as int, w as int);
                                    assert(click_rel(old(self).view(), self.view(), row, col, player, GameState::Failed));
                                }
                                return GameState::Failed;
                            }
                            open_around(&mut self.map, h, w, row, col);
                            let ghost m1 = self.map@;
                            proof {
                                lemma_open_around_content(old(self).map@, m1, h as int, w as int, row as int, col as int);
                                lemma_counts_kept(old(self).map@, m1, h as int, w as int);
                            }
                            let res = self.finish();
                            proof {
                                assert(finished(m1, self.view().map, res));
                                assert(click_rel(old(self).view(), self.view(), row, col, player, res));
                            }
                            res
                        } else if flagged == n {
                            self.record(player);
                            flag_around(&mut self.map, h, w, row, col);
                            let ghost m1 = self.map@;
                            proof {
                                lemma_counts_kept(old(self).map@, m1, h as int, w as int);
                            }
                            let res = self.finish();
                            proof {
                                assert(finished(m1, self.view().map, res));
                                assert(click_rel(old(self).view(), self.view(), row, col, player, res));
                            }
                            res
                        } else {
                            let res = self.finish();
                            proof {
                                assert(click_rel(old(self).view(), self.view(), row, col, player, res));
                            }
                            res
                        }
                    },
                    BoxType::Mine => GameState::OnGoing,
                }
            },
            _ => GameState::OnGoing,
        }
    }
}

/// The running games, as values: under each key the game and its creation time.
pub open spec fn store_model(m: Map<SessionKey, Session<Game>>) -> Map<SessionKey, (GameView, u64)> {
    m.map_values(|s: Session<Game>| (s.game.view(), s.created_at))
}

pub open spec fn games_wf(m: Map<SessionKey, Session<Game>>) -> bool {
    forall|k: SessionKey| #[trigger] m.contains_key(k) ==> m[k].game.wf()
}

/// The games `m2` and the answer `r` after the move of `player` on
/// `(row, col)` in the game under `key` of the games `m1`: a game that
/// ends with the move is removed, one that goes on is kept with the move
/// made.
pub open spec fn play_rel(
    m1: Map<SessionKey, (GameView, u64)>,
    m2: Map<SessionKey, (GameView, u64)>,
    key: SessionKey,
    row: usize,
    col: usize,
    player: String,
    r: Result<GameState, MoveError<()>>,
) -> bool {
    if !m1.contains_key(key) {
        m2 == m1 && r == Err::<GameState, MoveError<()>>(MoveError::SessionNotFound)
    } else if !in_map(m1[key].0.height as int, m1[key].0.width as int, row as int, col as int) {
        m2 == m1 && r == Err::<GameState, MoveError<()>>(MoveError::OutOfBoard)
    } else {
        exists|g2: GameView, res: GameState|
            #[trigger] click_rel(m1[key].0, g2, row, col, player, res) && r == Ok::<
                GameState,
                MoveError<()>,
            >(res) && m2 == if res == GameState::OnGoing {
                m1.insert(key, (g2, m1[key].1))
            } else {
                m1.remove(key)
            }
    }
}

/// Makes the move of `player` on `(row, col)` in the game under `key`, as
/// `play_rel` says; a game that ends is handed back.
pub fn play(store: &mut SessionStore<Game>, key: SessionKey, row: usize, col: usize, player: String) -> (r: Result<
    (GameState, Option<Game>),
    MoveError<()>,
>)
    requires
        old(store).wf(),
        games_wf(old(store).view()),
    ensures
        final(store).wf(),
        games_wf(final(store).view()),
        play_rel(store_model(old(store).view()), store_model(final(store).view()), key, row, col, player, answer_of(r)),
        r matches Ok((res, ended)) ==> (ended is Some <==> res != GameState::OnGoing) && (ended matches Some(g)
            ==> g.wf() && click_rel(store_model(old(store).view())[key].0, g.view(), row, col, player, res)),
{
    let ghost m0 = store.view();
    match store.remove(key) {
        None => {
            proof {
                assert(store.view() =~= m0);
            }
            Err(MoveError::SessionNotFound)
        },
        Some(s) => {
            let Session { key: _, game, created_at } = s;
            let mut game = game;
            if !game.contains(row, col) {
                store.get_or_create(key, game, created_at);
                proof {
                    assert(store_model(store.view()) =~= store_model(m0));
                }
                return Err(MoveError::OutOfBoard);
            }
            let ghost g1 = game.view();
            let res = game.click(row, col, player);
            proof {
                assert(click_rel(g1, game.view(), row, col, player, res));
            }
            if res == GameState::OnGoing {
                store.get_or_create(key, game, created_at);
                proof {
                    assert(store_model(store.view()) =~= store_model(m0).insert(key, (game.view(), created_at)));
                }
                Ok((res, None))
            } else {
                proof {
                    assert(store_model(store.view()) =~= store_model(m0).remove(key));
                }
                Ok((res, Some(game)))
            }
        },
    }
}

/// A cell given by its column and row, and by its index on a board when
/// the board's width is known.
#[derive(Clone, Copy, Debug, PartialEq, Eq, Structural)]
pub struct BoxPosition {
    pub index: Option<usize>,
    pub col: usize,
    pub row: usize,
}

/// The cell named by a button's data `minesweeper_<col>_<row>`; it may lie
/// off the board.
pub open spec fn box_position_of(data: Seq<u8>) -> Option<BoxPosition> {
    match tagged_numbers(data, "minesweeper".spec_bytes(), 95, 2) {
        Some(v) => Some(BoxPosition { index: None, col: v[0], row: v[1] }),
        None => None,
    }
}

impl BoxPosition {
    /// The cell `coords = (col, row)` of a board of `map_size = (width,
    /// height)`.
    pub fn from_coords(coords: (usize, usize), map_size: (usize, usize)) -> (r: Self)
        requires
            coords.1 * map_size.0 + coords.0 <= usize::MAX,
        ensures
            r.index == Some((coords.1 * map_size.0 + coords.0) as usize),
            r.col == coords.0,
            r.row == coords.1,
    {
        proof {
            assert(0 <= coords.1 * map_size.0) by (nonlinear_arith);
        }
        BoxPosition { index: Some(coords.1 * map_size.0 + coords.0), col: coords.0, row: coords.1 }
    }

    /// The cell at `index` of a board of `map_size = (width, height)`.
    pub fn from_index(index: usize, map_size: (usize, usize)) -> (r: Self)
        requires
            map_size.0 > 0,
        ensures
            r.index == Some(index),
            r.col == index % map_size.0,
            r.row == index / map_size.0,
    {
        BoxPosition { index: Some(index), col: index % map_size.0, row: index / map_size.0 }
    }

    /// The cell `coords = (col, row)`, its index unknown.
    pub fn from_coords_no_index(coords: (usize, usize)) -> (r: Self)
        ensures
            r.index is None,
            r.col == coords.0,
            r.row == coords.1,
    {
        BoxPosition { index: None, col: coords.0, row: coords.1 }
    }

    /// Sets the index for a board of `map_size = (width, height)`.
    pub fn set_index(&mut self, map_size: (usize, usize))
        requires
            old(self).row * map_size.0 + old(self).col <= usize::MAX,
        ensures
            final(self).index == Some((old(self).row * map_size.0 + old(self).col) as usize),
            final(self).col == old(self).col,
            final(self).row == old(self).row,
    {
        proof {
            assert(0 <= self.row * map_size.0) by (nonlinear_arith);
        }
        self.index = Some(self.row * map_size.0 + self.col);
    }

    /// Reads a button's data as `box_position_of` says.
    pub fn try_parse_callback(data: &str) -> (r: Option<Self>)
        ensures
            r == box_position_of(data.spec_bytes()),
    {
        match parse_tagged(data, "minesweeper", 95, 2) {
            Some(v) => Some(BoxPosition::from_coords_no_index((v[0], v[1]))),
            None => None,
        }
    }

    /// The index, or 0 when it is unknown.
    pub fn get_index(&self) -> (r: usize)
        ensures
            r == match self.index {
                Some(i) => i,
                None => 0,
            },
    {
        match self.index {
            Some(i) => i,
            None => 0,
        }
    }

    pub fn get_row(&self) -> (r: usize)
        ensures
            r == self.row,
    {
        self.row
    }

    pub fn get_col(&self) -> (r: usize)
        ensures
            r == self.col,
    {
        self.col
    }
}

/// The neighbours of a cell on a board of a given size.
#[derive(Clone, Copy, Debug)]
pub struct BoxesAround {
    pub row: usize,
    pub col: usize,
    pub width: usize,
    pub height: usize,
}

impl BoxesAround {
    /// The neighbours of `pos` on a board of `map_size = (width, height)`.
    pub fn from(pos: &BoxPosition, map_size: (usize, usize)) -> (r: Self)
        ensures
            r.row == pos.row,
            r.col == pos.col,
            r.width == map_size.0,
            r.height == map_size.1,
    {
        BoxesAround { row: pos.row, col: pos.col, width: map_size.0, height: map_size.1 }
    }

    /// Neighbour `k` (0..8), when it lies on the board.
    pub fn nth(&self, k: usize) -> (r: Option<BoxPosition>)
        requires
            k < 8,
            in_map(self.height as int, self.width as int, self.row as int, self.col as int),
            self.height * self.width <= usize::MAX,
        ensures
            match r {
                Some(p) => in_map(
                    self.height as int,
                    self.width as int,
                    self.row + nb_r(k as int),
                    self.col + nb_c(k as int),
                ) && p.row == self.row + nb_r(k as int) && p.col == self.col + nb_c(k as int)
                    && p.index == Some((p.row * self.width + p.col) as usize),
                None => !in_map(
                    self.height as int,
                    self.width as int,
                    self.row + nb_r(k as int),
                    self.col + nb_c(k as int),
                ),
            },
    {
        match neighbour(self.row, self.col, k, self.height, self.width) {
            Some((r, c)) => {
                proof {
                    lemma_index(self.height as int, self.width as int, r as int, c as int);
                }
                Some(BoxPosition::from_coords((c, r), (self.width, self.height)))
            },
            None => None,
        }
    }
}

impl Game {
    /// A game of `map_size.1` rows and `map_size.0` columns with a mine on
    /// each cell `i` where `mines[i]` holds, every cell masked, and every
    /// safe cell showing the number of mines around it. `None` when the
    /// board would not fit in memory, `mines` is not of its size, or no
    /// cell is safe.
    pub fn from_layout(map_size: (usize, usize), mines: &Vec<bool>) -> (res: Option<Game>)
        ensures
            res is Some <==> (map_size.0 * map_size.1 <= usize::MAX && mines@.len() == map_size.0
                * map_size.1 && true_total(mines@, mines@.len() as int) < mines@.len()),
            res matches Some(g) ==> {
                &&& g.wf()
                &&& g.width == map_size.0
                &&& g.height == map_size.1
                &&& g.mine_count == true_total(mines@, mines@.len() as int)
                &&& g.players@.len() == 0
                &&& all_masked(g.map@)
                &&& forall|i: int| 0 <= i < mines@.len() ==> ((#[trigger] g.map@[i]).box_type == BoxType::Mine) == mines@[i]
                &&& mine_total(g.map@, g.map@.len() as int) == g.mine_count
            },
    {
        let (w, h) = map_size;
        let n = match w.checked_mul(h) {
            Some(n) => n,
            None => {
                return None;
            },
        };
        if mines.len() != n {
            return None;
        }
        proof {
            assert(w * h == h * w) by (nonlinear_arith);
        }
        let layout = mines;
        let mut mine_count: usize = 0;
        let mut i: usize = 0;
        while i < n
            invariant
                i <= n,
                layout@.len() == n,
                mine_count == true_total(layout@, i as int),
                mine_count <= i,
            decreases n - i,
        {
            if layout[i] {
                mine_count += 1;
            }
            i += 1;
        }
        if mine_count >= n {
            return None;
        }
        let mut map: Vec<MineBox> = Vec::new();
        let mut i: usize = 0;
        while i < n
            invariant
                i <= n,
                layout@.len() == n,
                map@.len() == i,
                forall|j: int|
                    0 <= j < i ==> ((#[trigger] map@[j]).box_type == BoxType::Mine) == layout@[j]
                        && map@[j].mask_type == MaskType::Masked,
            decreases n - i,
        {
            map.push(MineBox::new(layout[i]));
            i += 1;
        }
        let ghost m_layout = map@;
        map_calc_mine_count(&mut map, h, w);
        proof {
            assert forall|j: int| 0 <= j < n implies ((#[trigger] map@[j]).box_type == BoxType::Mine)
                == layout@[j] && map@[j].mask_type == MaskType::Masked by {
                lemma_index_cover(h as int, w as int, j);
                assert(cell(map@, w as int, j / w as int, j % w as int) == map@[j]);
                assert(cell(m_layout, w as int, j / w as int, j % w as int) == m_layout[j]);
            }
            lemma_mine_total_same(map@, layout@, n as int);
        }
        Some(Game { map, width: w, height: h, mine_count, players: Vec::new() })
    }
}

/// The board asked for by the arguments of the start command: none gives
/// 8 rows, 8 columns and 9 mines; three give the rows, the columns and the
/// mines, with at most 8 rows and 8 columns and fewer mines than cells.
pub open spec fn board_args(args: Seq<&str>) -> Option<(usize, usize, usize)> {
    if args.len() == 0 {
        Some((8, 8, 9))
    } else if args.len() == 3 {
        match (
            parse_usize(args[0].spec_bytes()),
            parse_usize(args[1].spec_bytes()),
            parse_usize(args[2].spec_bytes()),
        ) {
            (Some(h), Some(w), Some(m)) => if h <= 8 && w <= 8 && h * w > m {
                Some((h, w, m))
            } else {
                None
            },
            _ => None,
        }
    } else {
        None
    }
}

fn parse_arg(arg: &str) -> (r: Option<usize>)
    ensures
        r == parse_usize(arg.spec_bytes()),
{
    let b = arg.as_bytes();
    proof {
        assert(b@.subrange(0, b@.len() as int) =~= b@);
    }
    parse_usize_at(b, 0, b.len())
}

/// Reads the arguments of the start command as `board_args` says:
/// `(rows, columns, mines)`.
pub fn parse_board_args(args: &[&str]) -> (r: Option<(usize, usize, usize)>)
    ensures
        r == board_args(args@),
{
    if args.len() == 0 {
        return Some((8, 8, 9));
    }
    if args.len() != 3 {
        return None;
    }
    match (parse_arg(args[0]), parse_arg(args[1]), parse_arg(args[2])) {
        (Some(h), Some(w), Some(m)) => {
            if h > 8 || w > 8 {
                return None;
            }
            proof {
                assert(h * w <= 64) by (nonlinear_arith)
                    requires
                        h <= 8,
                        w <= 8,
                ;
            }
            if h * w > m {
                Some((h, w, m))
            } else {
                None
            }
        },
        _ => None,
    }
}

/// Some cell is masked with no mine around it.
pub open spec fn has_open_zero(m: Seq<MineBox>, h: int, w: int) -> bool {
    exists|r: int, c: int| #[trigger] open_zero(m, h, w, r, c)
}

/// The flood keeps the content of every cell.
proof fn lemma_flood_content(m1: Seq<MineBox>, m2: Seq<MineBox>, h: int, w: int, sr: int, sc: int)
    requires
        m1.len() == h * w,
        0 <= w,
        flood_rel(m1, m2, h, w, sr, sc),
    ensures
        same_content(m1, m2, h, w),
        forall|j: int| 0 <= j < m1.len() ==> (#[trigger] m2[j]).box_type == m1[j].box_type,
{
    if w > 0 {
        assert forall|j: int| 0 <= j < m1.len() implies (#[trigger] m2[j]).box_type == m1[j].box_type by {
            lemma_index_cover(h, w, j);
            assert(cell(m2, w, j / w, j % w) == m2[j]);
            assert(cell(m1, w, j / w, j % w) == m1[j]);
        }
    } else {
        assert(h * w == 0) by (nonlinear_arith)
            requires
                w == 0,
        ;
    }
}

pub open spec fn swapped(s: Seq<bool>, i: int, j: int) -> Seq<bool> {
    s.update(i, s[j]).update(j, s[i])
}

/// `s` after swapping each place `k` of `0..n` with the place `swaps[k]`,
/// in that order.
pub open spec fn apply_swaps(s: Seq<bool>, swaps: Seq<usize>, n: int) -> Seq<bool>
    decreases n,
{
    if n <= 0 {
        s
    } else {
        swapped(apply_swaps(s, swaps, n - 1), n - 1, swaps[n - 1] as int)
    }
}

/// Moves the mines of `layout`: each place `i` is swapped in turn with the
/// place `swaps[i]`.
pub fn map_reorder(layout: &mut Vec<bool>, swaps: &Vec<usize>)
    requires
        swaps@.len() == old(layout)@.len(),
        forall|i: int| 0 <= i < swaps@.len() ==> swaps@[i] < old(layout)@.len(),
    ensures
        final(layout)@ == apply_swaps(old(layout)@, swaps@, swaps@.len() as int),
        final(layout)@.len() == old(layout)@.len(),
        true_total(final(layout)@, final(layout)@.len() as int) == true_total(
            old(layout)@,
            old(layout)@.len() as int,
        ),
{
    let n = layout.len();
    let mut i: usize = 0;
    while i < n
        invariant
            n == old(layout)@.len(),
            swaps@.len() == n,
            forall|k: int| 0 <= k < n ==> swaps@[k] < n,
            i <= n,
            layout@.len() == n,
            layout@ == apply_swaps(old(layout)@, swaps@, i as int),
            true_total(layout@, n as int) == true_total(old(layout)@, n as int),
        decreases n - i,
    {
        let j = swaps[i];
        let a = layout[i];
        let b = layout[j];
        proof {
            lemma_true_total_update(layout@, i as int, b, n as int);
            lemma_true_total_update(layout@.update(i as int, b), j as int, a, n as int);
        }
        layout.set(i, b);
        layout.set(j, a);
        i += 1;
    }
}

/// Opening a cell keeps the content of every cell.
proof fn lemma_open_content(m1: Seq<MineBox>, m2: Seq<MineBox>, h: int, w: int, r: int, c: int)
    requires
        m1.len() == h * w,
        open_rel(m1, m2, h, w, r, c),
    ensures
        same_content(m1, m2, h, w),
        m2.len() == h * w,
{
    if in_map(h, w, r, c) && cell(m1, w, r, c).mask_type == MaskType::Masked && is_safe(cell(m1, w, r, c))
        && !is_zero(cell(m1, w, r, c)) {
        lemma_index(h, w, r, c);
        lemma_cell_update(m1, h, w, r, c, unmasked(cell(m1, w, r, c)));
    }
}

/// Showing the whole board keeps the content of every cell.
proof fn lemma_shown_content(m1: Seq<MineBox>, m2: Seq<MineBox>, h: int, w: int)
    requires
        m1.len() == h * w,
        all_shown(m1, m2),
    ensures
        same_content(m1, m2, h, w),
{
    assert forall|r: int, c: int| in_map(h, w, r, c) implies (#[trigger] cell(m2, w, r, c)).box_type
        == cell(m1, w, r, c).box_type by {
        lemma_index(h, w, r, c);
    }
}

proof fn lemma_open_around_content(m1: Seq<MineBox>, m2: Seq<MineBox>, h: int, w: int, r: int, c: int)
    requires
        m1.len() == h * w,
        open_around_rel(m1, m2, h, w, r, c),
    ensures
        same_content(m1, m2, h, w),
{
    let ms = choose|ms: Seq<Seq<MineBox>>|
        #![trigger ms.len(), ms[0]]
        ms.len() == 9 && ms[0] == m1 && ms[8] == m2 && forall|k: int|
            0 <= k < 8 ==> open_rel(#[trigger] ms[k], ms[k + 1], h, w, r + nb_r(k), c + nb_c(k));
    lemma_chain_content(ms, h, w, r, c, 8);
}

proof fn lemma_chain_content(ms: Seq<Seq<MineBox>>, h: int, w: int, r: int, c: int, k: int)
    requires
        0 <= k <= 8,
        ms.len() == 9,
        ms[0].len() == h * w,
        forall|j: int| 0 <= j < 8 ==> open_rel(#[trigger] ms[j], ms[j + 1], h, w, r + nb_r(j), c + nb_c(j)),
    ensures
        same_content(ms[0], ms[k], h, w),
        ms[k].len() == h * w,
    decreases k,
{
    if k > 0 {
        lemma_chain_content(ms, h, w, r, c, k - 1);
        lemma_open_content(ms[k - 1], ms[k], h, w, r + nb_r(k - 1), c + nb_c(k - 1));
    }
}

/// No cell of the board is open, flagged or exploded.
pub open spec fn all_masked(m: Seq<MineBox>) -> bool {
    forall|i: int| 0 <= i < m.len() ==> (#[trigger] m[i]).mask_type == MaskType::Masked
}

impl Game {
    /// A new game of `map_size.1` rows and `map_size.0` columns with
    /// `mine_count` mines: the mines are placed on the first cells and then
    /// moved by random swaps (`map_reorder`), every safe cell shows the
    /// number of mines around it, and when some cell has no mine around it,
    /// the zero region of one such cell, picked at random, is opened
    /// (`open_region`). `None` when the board would not fit in memory or
    /// holds no safe cell.
    pub fn new(map_size: (usize, usize), mine_count: usize) -> (res: Option<Game>)
        ensures
            res is Some <==> (map_size.0 * map_size.1 <= usize::MAX && mine_count < map_size.0
                * map_size.1),
            res matches Some(g) ==> {
                &&& g.wf()
                &&& g.width == map_size.0
                &&& g.height == map_size.1
                &&& g.mine_count == mine_count
                &&& g.players@.len() == 0
                &&& mine_total(g.map@, g.map@.len() as int) == mine_count
                &&& exists|m1: Seq<MineBox>|
                    #![trigger all_masked(m1)]
                    all_masked(m1) && m1.len() == g.map@.len() && same_content(
                        m1,
                        g.map@,
                        g.height as int,
                        g.width as int,
                    ) && if has_open_zero(m1, g.height as int, g.width as int) {
                        exists|sr: int, sc: int|
                            open_zero(m1, g.height as int, g.width as int, sr, sc)
                                && #[trigger] flood_rel(m1, g.map@, g.height as int, g.width as int, sr, sc)
                    } else {
                        g.map@ == m1
                    }
            },
    {
        let (w, h) = map_size;
        let n = match w.checked_mul(h) {
            Some(n) => n,
            None => {
                return None;
            },
        };
        if mine_count >= n {
            return None;
        }
        proof {
            assert(w * h == h * w) by (nonlinear_arith);
        }
        let mut layout: Vec<bool> = Vec::new();
        let mut i: usize = 0;
        while i < n
            invariant
                i <= n,
                layout@.len() == i,
                forall|j: int| 0 <= j < i ==> layout@[j] == (j < mine_count),
            decreases n - i,
        {
            layout.push(i < mine_count);
            i += 1;
        }
        proof {
            lemma_true_total_prefix(layout@, mine_count as int, n as int);
        }
        let mut swaps: Vec<usize> = Vec::new();
        let mut i: usize = 0;
        while i < n
            invariant
                i <= n,
                swaps@.len() == i,
                forall|j: int| 0 <= j < i ==> swaps@[j] < n,
            decreases n - i,
        {
            swaps.push(random_below(n));
            i += 1;
        }
        map_reorder(&mut layout, &swaps);
        let mut g = match Game::from_layout(map_size, &layout) {
            Some(g) => g,
            None => {
                return None;
            },
        };
        let ghost m1 = g.map@;
        let mut zeros: Vec<(usize, usize)> = Vec::new();
        let mut r: usize = 0;
        while r < h
            invariant
                g.wf(),
                g.map@ == m1,
                g.height == h,
                g.width == w,
                r <= h,
                forall|q: int|
                    0 <= q < zeros@.len() ==> open_zero(m1, h as int, w as int, (#[trigger] zeros@[q]).0 as int, zeros@[q].1 as int),
                zeros@.len() == 0 ==> forall|r2: int, c2: int|
                    0 <= r2 < r && 0 <= c2 < w ==> !#[trigger] open_zero(m1, h as int, w as int, r2, c2),
            decreases h - r,
        {
            let mut c: usize = 0;
            while c < w
                invariant
                    g.wf(),
                    g.map@ == m1,
                    g.height == h,
                    g.width == w,
                    r < h,
                    c <= w,
                    forall|q: int|
                        0 <= q < zeros@.len() ==> open_zero(m1, h as int, w as int, (#[trigger] zeros@[q]).0 as int, zeros@[q].1 as int),
                    zeros@.len() == 0 ==> forall|r2: int, c2: int|
                        (0 <= r2 < r && 0 <= c2 < w || r2 == r && 0 <= c2 < c) ==> !#[trigger] open_zero(
                            m1,
                            h as int,
                            w as int,
                            r2,
                            c2,
                        ),
                decreases w - c,
            {
                let b = g.get(r, c);
                if b.mask_type == MaskType::Masked && b.box_type == BoxType::MineCount(0) {
                    zeros.push((r, c));
                }
                c += 1;
            }
            r += 1;
        }
        proof {
            assert(same_content(m1, m1, h as int, w as int));
        }
        if zeros.len() > 0 {
            let k = random_below(zeros.len());
            let (sr, sc) = zeros[k];
            proof {
                assert(open_zero(m1, h as int, w as int, zeros@[k as int].0 as int, zeros@[k as int].1 as int));
            }
            g.open_region(sr, sc);
            proof {
                lemma_flood_content(m1, g.map@, h as int, w as int, sr as int, sc as int);
                lemma_mine_total_content(m1, g.map@, n as int);
                assert(flood_rel(m1, g.map@, h as int, w as int, sr as int, sc as int));
            }
        } else {
            proof {
                assert(!has_open_zero(m1, h as int, w as int));
            }
        }
        Some(g)
    }

    /// Opens the zero region of `(row, col)` and its border when the cell
    /// is masked with no mine around it; else changes nothing.
    pub fn open_region(&mut self, row: usize, col: usize)
        requires
            old(self).wf(),
            in_map(old(self).height as int, old(self).width as int, row as int, col as int),
        ensures
            final(self).wf(),
            final(self).width == old(self).width,
            final(self).height == old(self).height,
            final(self).mine_count == old(self).mine_count,
            final(self).players == old(self).players,
            if open_zero(old(self).map@, old(self).height as int, old(self).width as int, row as int, col as int) {
                flood_rel(old(self).map@, final(self).map@, old(self).height as int, old(self).width as int, row as int, col as int)
            } else {
                final(self).map@ == old(self).map@
            },
    {
        let (h, w) = (self.height, self.width);
        let b = self.get(row, col);
        if b.mask_type == MaskType::Masked && b.box_type == BoxType::MineCount(0) {
            unmask_from_position(&mut self.map, h, w, row, col);
            proof {
                lemma_flood_content(old(self).map@, self.map@, h as int, w as int, row as int, col as int);
                lemma_counts_kept(old(self).map@, self.map@, h as int, w as int);
            }
        }
    }
}

/// Whether a board is won depends on its safe cells only: flags, or any
/// mask, on the mines do not change it.
pub proof fn lemma_success_ignores_flags(m1: Seq<MineBox>, m2: Seq<MineBox>)
    requires
        m1.len() == m2.len(),
        forall|i: int| 0 <= i < m1.len() ==> (#[trigger] m1[i]).box_type == m2[i].box_type,
        forall|i: int| 0 <= i < m1.len() && is_safe(#[trigger] m1[i]) ==> m1[i].mask_type == m2[i].mask_type,
    ensures
        succeeded(m1) == succeeded(m2),
{
    assert(succeeded(m1) ==> succeeded(m2)) by {
        if succeeded(m1) {
            assert forall|i: int| 0 <= i < m2.len() implies is_safe(#[trigger] m2[i]) ==> m2[i].mask_type
                == MaskType::Unmasked by {
                assert(m1[i].box_type == m2[i].box_type);
            }
        }
    }
    assert(succeeded(m2) ==> succeeded(m1)) by {
        if succeeded(m2) {
            assert forall|i: int| 0 <= i < m1.len() implies is_safe(#[trigger] m1[i]) ==> m1[i].mask_type
                == MaskType::Unmasked by {
                assert(m1[i].box_type == m2[i].box_type);
            }
        }
    }
}

/// A move that leaves every safe cell open ends the game as won, whatever
/// is flagged.
pub proof fn lemma_all_open_is_success(m1: Seq<MineBox>, m2: Seq<MineBox>, res: GameState)
    requires
        forall|i: int| 0 <= i < m1.len() && is_safe(#[trigger] m1[i]) ==> m1[i].mask_type == MaskType::Unmasked,
        finished(m1, m2, res),
    ensures
        res == GameState::Succeeded,
        all_shown(m1, m2),
{
}

} // verus!
