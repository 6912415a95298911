//! Boards stored row by row in one vector: the cell `(r, c)` of a board
//! `w` cells wide is at index `r * w + c`.

use vstd::prelude::*;

verus! {

pub open spec fn in_map(h: int, w: int, r: int, c: int) -> bool {
    0 <= r < h && 0 <= c < w
}

pub proof fn lemma_index(h: int, w: int, r: int, c: int)
    requires
        in_map(h, w, r, c),
    ensures
        0 <= r * w + c < h * w,
{
    assert(0 <= r * w) by (nonlinear_arith)
        requires
            0 <= r,
            0 <= w,
    ;
    assert(r * w + c < h * w) by (nonlinear_arith)
        requires
            0 <= r < h,
            0 <= c < w,
    ;
}

pub proof fn lemma_index_inj(h: int, w: int, r1: int, c1: int, r2: int, c2: int)
    requires
        in_map(h, w, r1, c1),
        in_map(h, w, r2, c2),
        r1 * w + c1 == r2 * w + c2,
    ensures
        r1 == r2 && c1 == c2,
{
    if r1 < r2 {
        assert(r1 * w + c1 < r2 * w) by (nonlinear_arith)
            requires
                r1 < r2,
                0 <= c1 < w,
        ;
        assert(false);
    } else if r2 < r1 {
        assert(r2 * w + c2 < r1 * w) by (nonlinear_arith)
            requires
                r2 < r1,
                0 <= c2 < w,
        ;
        assert(false);
    }
}

/// Every index of the board is the index of a cell.
pub proof fn lemma_index_cover(h: int, w: int, j: int)
    requires
        0 <= j < h * w,
        0 < w,
    ensures
        in_map(h, w, j / w, j % w),
        (j / w) * w + j % w == j,
{
    vstd::arithmetic::div_mod::lemma_fundamental_div_mod(j, w);
    vstd::arithmetic::div_mod::lemma_mod_pos_bound(j, w);
    assert(w * (j / w) == (j / w) * w) by (nonlinear_arith);
    assert(h * w == w * h) by (nonlinear_arith);
    vstd::arithmetic::div_mod::lemma_multiply_divide_lt(j, w, h);
    assert(0 <= j / w) by (nonlinear_arith)
        requires
            0 <= j,
            0 < w,
    ;
}

/// Writing the cell `(nr, nc)` changes that cell only.
pub proof fn lemma_update_at<T>(s: Seq<T>, h: int, w: int, nr: int, nc: int, v: T)
    requires
        in_map(h, w, nr, nc),
        s.len() == h * w,
    ensures
        s.update(nr * w + nc, v).len() == h * w,
        forall|r: int, c: int|
            in_map(h, w, r, c) ==> #[trigger] s.update(nr * w + nc, v)[r * w + c] == if r == nr
                && c == nc {
                v
            } else {
                s[r * w + c]
            },
{
    lemma_index(h, w, nr, nc);
    assert forall|r: int, c: int| in_map(h, w, r, c) implies #[trigger] s.update(nr * w + nc, v)[r
        * w + c] == if r == nr && c == nc {
        v
    } else {
        s[r * w + c]
    } by {
        lemma_index(h, w, r, c);
        if r * w + c == nr * w + nc {
            lemma_index_inj(h, w, r, c, nr, nc);
        }
    }
}

/// The index of `(r, c)`.
pub fn index_of(h: usize, w: usize, r: usize, c: usize, len: usize) -> (i: usize)
    requires
        in_map(h as int, w as int, r as int, c as int),
        len == h * w,
    ensures
        i == r * w + c,
        i < len,
{
    proof {
        lemma_index(h as int, w as int, r as int, c as int);
    }
    r * w + c
}

} // verus!
