//! Opening the zero region of a cell and its border, breadth first.

use vstd::prelude::*;
use super::{adjacent, cell, is_safe, is_zero, lemma_cell_update, nb_c, nb_r, neighbour, open_zero, BoxType, MaskType, MineBox};
use crate::grid::{in_map, index_of, lemma_index};

verus! {

/// `path` starts at `(sr, sc)` and each further step goes to an adjacent
/// `open_zero` cell.
pub open spec fn is_path(map: Seq<MineBox>, h: int, w: int, sr: int, sc: int, path: Seq<(int, int)>) -> bool {
    &&& path.len() >= 1
    &&& path[0] == (sr, sc)
    &&& forall|i: int|
        1 <= i < path.len() ==> open_zero(map, h, w, (#[trigger] path[i]).0, path[i].1) && adjacent(
            path[i - 1].0,
            path[i - 1].1,
            path[i].0,
            path[i].1,
        )
}

/// The connected zero region of `(sr, sc)`: the ends of its paths.
pub open spec fn in_region(map: Seq<MineBox>, h: int, w: int, sr: int, sc: int, r: int, c: int) -> bool {
    exists|path: Seq<(int, int)>|
        #[trigger] is_path(map, h, w, sr, sc, path) && path.last() == (r, c)
}

/// The cells that opening `(sr, sc)` reveals: its zero region, and the
/// masked safe cells that border it.
pub open spec fn flood_reveals(
    map: Seq<MineBox>,
    h: int,
    w: int,
    sr: int,
    sc: int,
    r: int,
    c: int,
) -> bool {
    in_region(map, h, w, sr, sc, r, c) || (in_map(h, w, r, c) && cell(map, w, r, c).mask_type
        == MaskType::Masked && is_safe(cell(map, w, r, c)) && exists|pr: int, pc: int|
        #[trigger] in_region(map, h, w, sr, sc, pr, pc) && adjacent(pr, pc, r, c))
}

pub open spec fn masked_from(map: Seq<MineBox>, n: int) -> nat
    decreases n,
{
    if n <= 0 {
        0
    } else {
        masked_from(map, n - 1) + if map[n - 1].mask_type == MaskType::Masked {
            1nat
        } else {
            0nat
        }
    }
}

proof fn lemma_masked_update(map: Seq<MineBox>, i: int, b: MineBox, n: int)
    requires
        0 <= i < map.len(),
        0 <= n <= map.len(),
        map[i].mask_type == MaskType::Masked,
        b.mask_type != MaskType::Masked,
    ensures
        masked_from(map.update(i, b), n) + (if i < n {
            1int
        } else {
            0int
        }) == masked_from(map, n),
    decreases n,
{
    if n > 0 {
        lemma_masked_update(map, i, b, n - 1);
    }
}

/// When the queue is exhausted, every cell of a path from the start has
/// been opened and queued.
proof fn lemma_flood_complete(
    m0: Seq<MineBox>,
    map: Seq<MineBox>,
    queue: Seq<(usize, usize)>,
    h: int,
    w: int,
    sr: int,
    sc: int,
    path: Seq<(int, int)>,
    i: int,
)
    requires
        open_zero(m0, h, w, sr, sc),
        is_path(m0, h, w, sr, sc, path),
        0 <= i < path.len(),
        cell(map, w, sr, sc).mask_type != MaskType::Masked,
        forall|q: int, k: int|
            #![trigger queue[q], nb_r(k), nb_c(k)]
            0 <= q < queue.len() && 0 <= k < 8 && in_map(
                h,
                w,
                queue[q].0 + nb_r(k),
                queue[q].1 + nb_c(k),
            ) && cell(m0, w, queue[q].0 + nb_r(k), queue[q].1 + nb_c(k)).mask_type
                == MaskType::Masked && is_safe(
                cell(m0, w, queue[q].0 + nb_r(k), queue[q].1 + nb_c(k)),
            ) ==> cell(map, w, queue[q].0 + nb_r(k), queue[q].1 + nb_c(k)).mask_type
                != MaskType::Masked,
        forall|r2: int, c2: int|
            #[trigger] open_zero(m0, h, w, r2, c2) && cell(map, w, r2, c2).mask_type
                != MaskType::Masked ==> exists|q: int|
                #![trigger queue[q]]
                0 <= q < queue.len() && queue[q].0 == r2 && queue[q].1 == c2,
    ensures
        open_zero(m0, h, w, path[i].0, path[i].1),
        cell(map, w, path[i].0, path[i].1).mask_type != MaskType::Masked,
        exists|q: int|
            #![trigger queue[q]]
            0 <= q < queue.len() && queue[q].0 == path[i].0 && queue[q].1 == path[i].1,
    decreases i,
{
    if i == 0 {
        assert(open_zero(m0, h, w, path[0].0, path[0].1));
    } else {
        lemma_flood_complete(m0, map, queue, h, w, sr, sc, path, i - 1);
        let (pr, pc) = path[i - 1];
        let (r, c) = path[i];
        assert(open_zero(m0, h, w, r, c) && adjacent(pr, pc, r, c));
        let q = choose|q: int| #![trigger queue[q]] 0 <= q < queue.len() && queue[q].0 == pr && queue[q].1 == pc;
        let k = choose|k: int| 0 <= k < 8 && r == pr + #[trigger] nb_r(k) && c == pc + #[trigger] nb_c(k);
        assert(queue[q].0 + nb_r(k) == r && queue[q].1 + nb_c(k) == c);
        assert(open_zero(m0, h, w, r, c) && cell(map, w, r, c).mask_type != MaskType::Masked);
    }
}

/// Each cell of `map` keeps its content, and its mask is that of `m0` or
/// was opened by the flood of `(sr, sc)`.
#[verifier::opaque]
spec fn inv_cells(m0: Seq<MineBox>, map: Seq<MineBox>, h: int, w: int, sr: int, sc: int) -> bool {
    forall|r: int, c: int|
        in_map(h, w, r, c) ==> (#[trigger] cell(map, w, r, c)).box_type == cell(m0, w, r, c).box_type
            && (cell(map, w, r, c).mask_type == cell(m0, w, r, c).mask_type || (cell(
            m0,
            w,
            r,
            c,
        ).mask_type == MaskType::Masked && cell(map, w, r, c).mask_type == MaskType::Unmasked
            && flood_reveals(m0, h, w, sr, sc, r, c)))
}

/// Every queued cell lies in the region of `(sr, sc)`.
#[verifier::opaque]
spec fn inv_queue(m0: Seq<MineBox>, queue: Seq<(usize, usize)>, h: int, w: int, sr: int, sc: int) -> bool {
    forall|q: int|
        0 <= q < queue.len() ==> in_map(h, w, (#[trigger] queue[q]).0 as int, queue[q].1 as int)
            && in_region(m0, h, w, sr, sc, queue[q].0 as int, queue[q].1 as int)
}

/// The neighbours `0..8` of `queue[0..head]` and `0..k` of `queue[head]`
/// that were masked and safe in `m0` are open.
#[verifier::opaque]
spec fn inv_done(
    m0: Seq<MineBox>,
    map: Seq<MineBox>,
    queue: Seq<(usize, usize)>,
    h: int,
    w: int,
    head: int,
    k: int,
) -> bool {
    forall|q: int, j: int|
        #![trigger queue[q], nb_r(j), nb_c(j)]
        (0 <= q < head && 0 <= j < 8 || q == head && 0 <= j < k) && 0 <= q < queue.len() && in_map(
            h,
            w,
            queue[q].0 + nb_r(j),
            queue[q].1 + nb_c(j),
        ) && cell(m0, w, queue[q].0 + nb_r(j), queue[q].1 + nb_c(j)).mask_type == MaskType::Masked
            && is_safe(cell(m0, w, queue[q].0 + nb_r(j), queue[q].1 + nb_c(j))) ==> cell(
            map,
            w,
            queue[q].0 + nb_r(j),
            queue[q].1 + nb_c(j),
        ).mask_type != MaskType::Masked
}

/// Every opened zero cell has been queued.
#[verifier::opaque]
spec fn inv_queued(m0: Seq<MineBox>, map: Seq<MineBox>, queue: Seq<(usize, usize)>, h: int, w: int) -> bool {
    forall|r2: int, c2: int|
        #[trigger] open_zero(m0, h, w, r2, c2) && cell(map, w, r2, c2).mask_type != MaskType::Masked
            ==> exists|q: int|
            #![trigger queue[q]]
            0 <= q < queue.len() && queue[q].0 == r2 && queue[q].1 == c2
}

/// The state of the flood fill of `(sr, sc)` on the board `m0`: `map` is
/// `m0` with some cells of the flood opened, `queue` holds cells of the
/// region, and the neighbours `0..8` of `queue[0..head]` and `0..k` of
/// `queue[head]` have been looked at.
spec fn flood_inv(
    m0: Seq<MineBox>,
    map: Seq<MineBox>,
    queue: Seq<(usize, usize)>,
    h: int,
    w: int,
    sr: int,
    sc: int,
    head: int,
    k: int,
) -> bool {
    &&& map.len() == h * w
    &&& open_zero(m0, h, w, sr, sc)
    &&& cell(map, w, sr, sc).mask_type != MaskType::Masked
    &&& inv_cells(m0, map, h, w, sr, sc)
    &&& inv_queue(m0, queue, h, w, sr, sc)
    &&& inv_done(m0, map, queue, h, w, head, k)
    &&& inv_queued(m0, map, queue, h, w)
}

proof fn lemma_cells_at(m0: Seq<MineBox>, map: Seq<MineBox>, h: int, w: int, sr: int, sc: int, r: int, c: int)
    requires
        inv_cells(m0, map, h, w, sr, sc),
        in_map(h, w, r, c),
    ensures
        cell(map, w, r, c).box_type == cell(m0, w, r, c).box_type,
        cell(map, w, r, c).mask_type == MaskType::Masked ==> cell(m0, w, r, c).mask_type
            == MaskType::Masked,
{
    reveal(inv_cells);
}

proof fn lemma_queue_at(m0: Seq<MineBox>, queue: Seq<(usize, usize)>, h: int, w: int, sr: int, sc: int, q: int)
    requires
        inv_queue(m0, queue, h, w, sr, sc),
        0 <= q < queue.len(),
    ensures
        in_map(h, w, queue[q].0 as int, queue[q].1 as int),
        in_region(m0, h, w, sr, sc, queue[q].0 as int, queue[q].1 as int),
{
    reveal(inv_queue);
}

proof fn lemma_done_next(m0: Seq<MineBox>, map: Seq<MineBox>, queue: Seq<(usize, usize)>, h: int, w: int, head: int)
    requires
        inv_done(m0, map, queue, h, w, head, 8),
    ensures
        inv_done(m0, map, queue, h, w, head + 1, 0),
{
    reveal(inv_done);
}

/// Neighbour `k` of `queue[head]` needs no work: it is off the board, not
/// masked, or a mine.
proof fn lemma_flood_skip(
    m0: Seq<MineBox>,
    map: Seq<MineBox>,
    queue: Seq<(usize, usize)>,
    h: int,
    w: int,
    sr: int,
    sc: int,
    head: int,
    k: int,
)
    requires
        flood_inv(m0, map, queue, h, w, sr, sc, head, k),
        0 <= head < queue.len(),
        0 <= k < 8,
        ({
            let (gr, gc) = (queue[head].0 + nb_r(k), queue[head].1 + nb_c(k));
            !in_map(h, w, gr, gc) || cell(map, w, gr, gc).mask_type != MaskType::Masked || cell(
                map,
                w,
                gr,
                gc,
            ).box_type == BoxType::Mine
        }),
    ensures
        flood_inv(m0, map, queue, h, w, sr, sc, head, k + 1),
{
    reveal(inv_done);
    reveal(inv_cells);
    assert forall|q: int, j: int|
        #![trigger queue[q], nb_r(j), nb_c(j)]
        (0 <= q < head && 0 <= j < 8 || q == head && 0 <= j < k + 1) && 0 <= q < queue.len()
            && in_map(h, w, queue[q].0 + nb_r(j), queue[q].1 + nb_c(j)) && cell(
            m0,
            w,
            queue[q].0 + nb_r(j),
            queue[q].1 + nb_c(j),
        ).mask_type == MaskType::Masked && is_safe(
            cell(m0, w, queue[q].0 + nb_r(j), queue[q].1 + nb_c(j)),
        ) implies cell(map, w, queue[q].0 + nb_r(j), queue[q].1 + nb_c(j)).mask_type
        != MaskType::Masked by {
        if q == head && j == k {
            let (gr, gc) = (queue[head].0 + nb_r(k), queue[head].1 + nb_c(k));
            assert(cell(map, w, gr, gc).box_type == cell(m0, w, gr, gc).box_type);
        }
    }
}

proof fn lemma_open_cells(
    m0: Seq<MineBox>,
    map: Seq<MineBox>,
    h: int,
    w: int,
    sr: int,
    sc: int,
    gr: int,
    gc: int,
    nb: MineBox,
)
    requires
        inv_cells(m0, map, h, w, sr, sc),
        map.len() == h * w,
        in_map(h, w, gr, gc),
        cell(map, w, gr, gc).mask_type == MaskType::Masked,
        nb == (MineBox { box_type: cell(map, w, gr, gc).box_type, mask_type: MaskType::Unmasked }),
        flood_reveals(m0, h, w, sr, sc, gr, gc),
    ensures
        inv_cells(m0, map.update(gr * w + gc, nb), h, w, sr, sc),
        cell(m0, w, gr, gc).mask_type == MaskType::Masked,
        cell(m0, w, gr, gc).box_type == nb.box_type,
{
    reveal(inv_cells);
    lemma_cell_update(map, h, w, gr, gc, nb);
}

proof fn lemma_open_queue(
    m0: Seq<MineBox>,
    queue: Seq<(usize, usize)>,
    queue2: Seq<(usize, usize)>,
    h: int,
    w: int,
    sr: int,
    sc: int,
)
    requires
        inv_queue(m0, queue, h, w, sr, sc),
        queue.len() <= queue2.len(),
        forall|q: int| 0 <= q < queue.len() ==> #[trigger] queue2[q] == queue[q],
        forall|q: int|
            queue.len() <= q < queue2.len() ==> in_map(h, w, (#[trigger] queue2[q]).0 as int, queue2[q].1 as int)
                && in_region(m0, h, w, sr, sc, queue2[q].0 as int, queue2[q].1 as int),
    ensures
        inv_queue(m0, queue2, h, w, sr, sc),
{
    reveal(inv_queue);
    assert forall|q: int|
        0 <= q < queue2.len() implies in_map(h, w, (#[trigger] queue2[q]).0 as int, queue2[q].1 as int)
        && in_region(m0, h, w, sr, sc, queue2[q].0 as int, queue2[q].1 as int) by {
        if q < queue.len() {
            assert(queue2[q] == queue[q]);
        }
    }
}

proof fn lemma_open_done(
    m0: Seq<MineBox>,
    map: Seq<MineBox>,
    queue: Seq<(usize, usize)>,
    queue2: Seq<(usize, usize)>,
    h: int,
    w: int,
    head: int,
    k: int,
    gr: int,
    gc: int,
    nb: MineBox,
)
    requires
        inv_done(m0, map, queue, h, w, head, k),
        map.len() == h * w,
        0 <= head < queue.len() <= queue2.len(),
        forall|q: int| 0 <= q < queue.len() ==> #[trigger] queue2[q] == queue[q],
        in_map(h, w, gr, gc),
        gr == queue[head].0 + nb_r(k),
        gc == queue[head].1 + nb_c(k),
        nb.mask_type == MaskType::Unmasked,
    ensures
        inv_done(m0, map.update(gr * w + gc, nb), queue2, h, w, head, k + 1),
{
    reveal(inv_done);
    let map2 = map.update(gr * w + gc, nb);
    lemma_cell_update(map, h, w, gr, gc, nb);
    assert forall|q: int, j: int|
        #![trigger queue2[q], nb_r(j), nb_c(j)]
        (0 <= q < head && 0 <= j < 8 || q == head && 0 <= j < k + 1) && 0 <= q < queue2.len()
            && in_map(h, w, queue2[q].0 + nb_r(j), queue2[q].1 + nb_c(j)) && cell(
            m0,
            w,
            queue2[q].0 + nb_r(j),
            queue2[q].1 + nb_c(j),
        ).mask_type == MaskType::Masked && is_safe(
            cell(m0, w, queue2[q].0 + nb_r(j), queue2[q].1 + nb_c(j)),
        ) implies cell(map2, w, queue2[q].0 + nb_r(j), queue2[q].1 + nb_c(j)).mask_type
        != MaskType::Masked by {
        assert(queue2[q] == queue[q]);
        let (yr, yc) = (queue[q].0 + nb_r(j), queue[q].1 + nb_c(j));
        if yr == gr && yc == gc {
        } else {
            assert(cell(map2, w, yr, yc) == cell(map, w, yr, yc));
            if !(q == head && j == k) {
                assert(cell(map, w, queue[q].0 + nb_r(j), queue[q].1 + nb_c(j)).mask_type
                    != MaskType::Masked);
            }
        }
    }
}

proof fn lemma_open_queued(
    m0: Seq<MineBox>,
    map: Seq<MineBox>,
    queue: Seq<(usize, usize)>,
    queue2: Seq<(usize, usize)>,
    h: int,
    w: int,
    gr: int,
    gc: int,
    nb: MineBox,
)
    requires
        inv_queued(m0, map, queue, h, w),
        map.len() == h * w,
        queue.len() <= queue2.len(),
        forall|q: int| 0 <= q < queue.len() ==> #[trigger] queue2[q] == queue[q],
        in_map(h, w, gr, gc),
        nb.box_type == cell(m0, w, gr, gc).box_type,
        is_zero(nb) ==> queue2.len() > queue.len() && queue2[queue.len() as int].0 == gr
            && queue2[queue.len() as int].1 == gc,
    ensures
        inv_queued(m0, map.update(gr * w + gc, nb), queue2, h, w),
{
    reveal(inv_queued);
    let map2 = map.update(gr * w + gc, nb);
    lemma_cell_update(map, h, w, gr, gc, nb);
    assert forall|r2: int, c2: int|
        #[trigger] open_zero(m0, h, w, r2, c2) && cell(map2, w, r2, c2).mask_type
            != MaskType::Masked implies exists|q: int|
        #![trigger queue2[q]]
        0 <= q < queue2.len() && queue2[q].0 == r2 && queue2[q].1 == c2 by {
        if r2 == gr && c2 == gc {
            assert(is_zero(nb));
            assert(queue2[queue.len() as int].0 == r2 && queue2[queue.len() as int].1 == c2);
        } else {
            assert(cell(map2, w, r2, c2) == cell(map, w, r2, c2));
            let q = choose|q: int|
                #![trigger queue[q]]
                0 <= q < queue.len() && queue[q].0 == r2 && queue[q].1 == c2;
            assert(queue2[q] == queue[q]);
        }
    }
}

/// Opening neighbour `k` of `queue[head]`, a masked safe cell, and queueing
/// it when it has no mine around, keeps the flood state.
proof fn lemma_flood_open(
    m0: Seq<MineBox>,
    map: Seq<MineBox>,
    queue: Seq<(usize, usize)>,
    h: int,
    w: int,
    sr: int,
    sc: int,
    head: int,
    k: int,
    nr: usize,
    nc: usize,
)
    requires
        flood_inv(m0, map, queue, h, w, sr, sc, head, k),
        0 <= head < queue.len(),
        0 <= k < 8,
        nr == queue[head].0 + nb_r(k),
        nc == queue[head].1 + nb_c(k),
        in_map(h, w, nr as int, nc as int),
        cell(map, w, nr as int, nc as int).mask_type == MaskType::Masked,
        is_safe(cell(map, w, nr as int, nc as int)),
    ensures
        ({
            let nb = MineBox {
                box_type: cell(map, w, nr as int, nc as int).box_type,
                mask_type: MaskType::Unmasked,
            };
            let map2 = map.update(nr * w + nc, nb);
            let queue2 = if is_zero(nb) {
                queue.push((nr, nc))
            } else {
                queue
            };
            flood_inv(m0, map2, queue2, h, w, sr, sc, head, k + 1)
        }),
{
    let (gr, gc) = (nr as int, nc as int);
    let (r, c) = (queue[head].0 as int, queue[head].1 as int);
    let nb = MineBox { box_type: cell(map, w, gr, gc).box_type, mask_type: MaskType::Unmasked };
    let map2 = map.update(nr * w + nc, nb);
    let queue2 = if is_zero(nb) {
        queue.push((nr, nc))
    } else {
        queue
    };
    lemma_queue_at(m0, queue, h, w, sr, sc, head);
    lemma_cells_at(m0, map, h, w, sr, sc, gr, gc);
    lemma_index(h, w, gr, gc);
    assert(in_region(m0, h, w, sr, sc, r, c));
    assert(adjacent(r, c, gr, gc));
    assert(flood_reveals(m0, h, w, sr, sc, gr, gc));
    lemma_open_cells(m0, map, h, w, sr, sc, gr, gc, nb);
    lemma_cell_update(map, h, w, gr, gc, nb);
    assert forall|q: int| 0 <= q < queue.len() implies #[trigger] queue2[q] == queue[q] by {}
    if is_zero(nb) {
        let path = choose|path: Seq<(int, int)>|
            #[trigger] is_path(m0, h, w, sr, sc, path) && path.last() == (r, c);
        let path2 = path.push((gr, gc));
        assert(open_zero(m0, h, w, gr, gc));
        assert forall|j: int| 1 <= j < path2.len() implies open_zero(
            m0,
            h,
            w,
            (#[trigger] path2[j]).0,
            path2[j].1,
        ) && adjacent(path2[j - 1].0, path2[j - 1].1, path2[j].0, path2[j].1) by {
            if j < path.len() {
                assert(path2[j] == path[j] && path2[j - 1] == path[j - 1]);
            }
        }
        assert(is_path(m0, h, w, sr, sc, path2) && path2.last() == (gr, gc));
        assert(queue2[queue.len() as int] == (nr, nc));
    }
    lemma_open_queue(m0, queue, queue2, h, w, sr, sc);
    lemma_open_done(m0, map, queue, queue2, h, w, head, k, gr, gc, nb);
    lemma_open_queued(m0, map, queue, queue2, h, w, gr, gc, nb);
}

/// Looks at neighbour `k` of `queue[head]`: opens it if it is masked and
/// safe, and queues it if it has no mine around.
fn flood_step(
    map: &mut Vec<MineBox>,
    queue: &mut Vec<(usize, usize)>,
    h: usize,
    w: usize,
    head: usize,
    k: usize,
    Ghost(m0): Ghost<Seq<MineBox>>,
    Ghost(sr): Ghost<int>,
    Ghost(sc): Ghost<int>,
)
    requires
        flood_inv(m0, old(map)@, old(queue)@, h as int, w as int, sr, sc, head as int, k as int),
        head < old(queue)@.len(),
        k < 8,
    ensures
        flood_inv(m0, final(map)@, final(queue)@, h as int, w as int, sr, sc, head as int, k + 1),
        old(queue)@.len() <= final(queue)@.len(),
        forall|q: int| 0 <= q < old(queue)@.len() ==> final(queue)@[q] == old(queue)@[q],
        2 * masked_from(final(map)@, h * w) + final(queue)@.len() <= 2 * masked_from(old(map)@, h * w)
            + old(queue)@.len(),
        masked_from(final(map)@, h * w) <= masked_from(old(map)@, h * w),
{
    let ghost (hh, ww) = (h as int, w as int);
    let (r, c) = queue[head];
    proof {
        lemma_queue_at(m0, queue@, hh, ww, sr, sc, head as int);
    }
    let len = map.len();
    match neighbour(r, c, k, h, w) {
        Some((nr, nc)) => {
            let i = index_of(h, w, nr, nc, len);
            let b = map[i];
            if b.mask_type == MaskType::Masked {
                match b.box_type {
                    BoxType::MineCount(n) => {
                        let nb = MineBox { box_type: b.box_type, mask_type: MaskType::Unmasked };
                        proof {
                            lemma_flood_open(m0, map@, queue@, hh, ww, sr, sc, head as int, k as int, nr, nc);
                            lemma_masked_update(map@, i as int, nb, len as int);
                        }
                        map.set(i, nb);
                        if n == 0 {
                            queue.push((nr, nc));
                        }
                    },
                    BoxType::Mine => {
                        proof {
                            lemma_flood_skip(m0, map@, queue@, hh, ww, sr, sc, head as int, k as int);
                        }
                    },
                }
            } else {
                proof {
                    lemma_flood_skip(m0, map@, queue@, hh, ww, sr, sc, head as int, k as int);
                }
            }
        },
        None => {
            proof {
                lemma_flood_skip(m0, map@, queue@, hh, ww, sr, sc, head as int, k as int);
            }
        },
    }
}

/// Opens the zero region of `(sr, sc)` and the masked safe cells that
/// border it, breadth first with an explicit queue.
pub fn unmask_from_position(map: &mut Vec<MineBox>, h: usize, w: usize, sr: usize, sc: usize)
    requires
        old(map)@.len() == h * w,
        open_zero(old(map)@, h as int, w as int, sr as int, sc as int),
    ensures
        final(map)@.len() == h * w,
        forall|r: int, c: int|
            in_map(h as int, w as int, r, c) ==> (#[trigger] cell(final(map)@, w as int, r, c)).box_type
                == cell(old(map)@, w as int, r, c).box_type && cell(final(map)@, w as int, r, c).mask_type
                == if flood_reveals(old(map)@, h as int, w as int, sr as int, sc as int, r, c) {
                MaskType::Unmasked
            } else {
                cell(old(map)@, w as int, r, c).mask_type
            },
{
    let ghost m0 = map@;
    let ghost (hh, ww, ssr, ssc) = (h as int, w as int, sr as int, sc as int);
    let len = map.len();
    let si = index_of(h, w, sr, sc, len);
    let b = map[si];
    proof {
        lemma_cell_update(map@, hh, ww, ssr, ssc, MineBox { box_type: b.box_type, mask_type: MaskType::Unmasked });
        lemma_masked_update(map@, si as int, MineBox { box_type: b.box_type, mask_type: MaskType::Unmasked }, map@.len() as int);
        let start = seq![(ssr, ssc)];
        assert(is_path(m0, hh, ww, ssr, ssc, start) && start.last() == (ssr, ssc));
    }
    map.set(si, MineBox { box_type: b.box_type, mask_type: MaskType::Unmasked });
    let mut queue: Vec<(usize, usize)> = Vec::new();
    queue.push((sr, sc));
    proof {
        assert forall|r2: int, c2: int|
            #[trigger] open_zero(m0, hh, ww, r2, c2) && cell(map@, ww, r2, c2).mask_type
                != MaskType::Masked implies exists|q: int|
            #![trigger queue@[q]]
            0 <= q < queue@.len() && queue@[q].0 == r2 && queue@[q].1 == c2 by {
            assert(r2 == ssr && c2 == ssc);
            assert(queue@[0].0 == r2 && queue@[0].1 == c2);
        }
    }
    proof {
        reveal(inv_cells);
        reveal(inv_queue);
        reveal(inv_done);
        reveal(inv_queued);
        lemma_cell_update(m0, hh, ww, ssr, ssc, MineBox { box_type: b.box_type, mask_type: MaskType::Unmasked });
        assert(in_region(m0, hh, ww, ssr, ssc, ssr, ssc));
        assert(queue@[0] == (sr, sc));
    }
    let mut head: usize = 0;
    while head < queue.len()
        invariant
            len == h * w,
            hh == h && ww == w && ssr == sr && ssc == sc,
            head <= queue@.len(),
            flood_inv(m0, map@, queue@, hh, ww, ssr, ssc, head as int, 0),
            2 * masked_from(map@, len as int) + queue@.len() <= 2 * masked_from(m0, len as int) + 1,
        decreases 2 * masked_from(map@, len as int) + queue@.len() - head,
    {
        let ghost masked_before = masked_from(map@, len as int);
        let ghost qlen_before = queue@.len();
        let mut k: usize = 0;
        while k < 8
            invariant
                len == h * w,
                hh == h && ww == w && ssr == sr && ssc == sc,
                head < qlen_before <= queue@.len(),
                k <= 8,
                flood_inv(m0, map@, queue@, hh, ww, ssr, ssc, head as int, k as int),
                2 * masked_from(map@, len as int) + queue@.len() <= 2 * masked_before + qlen_before,
                masked_from(map@, len as int) <= masked_before,
                2 * masked_before + qlen_before <= 2 * masked_from(m0, len as int) + 1,
            decreases 8 - k,
        {
            flood_step(map, &mut queue, h, w, head, k, Ghost(m0), Ghost(ssr), Ghost(ssc));
            k += 1;
        }
        proof {
            lemma_done_next(m0, map@, queue@, hh, ww, head as int);
        }
        head += 1;
    }
    proof {
        reveal(inv_cells);
        reveal(inv_done);
        reveal(inv_queued);
        assert forall|r: int, c: int| in_map(hh, ww, r, c) implies (#[trigger] cell(map@, ww, r, c)).box_type
            == cell(m0, ww, r, c).box_type && cell(map@, ww, r, c).mask_type == if flood_reveals(
            m0,
            hh,
            ww,
            ssr,
            ssc,
            r,
            c,
        ) {
            MaskType::Unmasked
        } else {
            cell(m0, ww, r, c).mask_type
        } by {
            if in_region(m0, hh, ww, ssr, ssc, r, c) {
                let path = choose|path: Seq<(int, int)>|
                    #[trigger] is_path(m0, hh, ww, ssr, ssc, path) && path.last() == (r, c);
                lemma_flood_complete(m0, map@, queue@, hh, ww, ssr, ssc, path, path.len() - 1);
            } else if flood_reveals(m0, hh, ww, ssr, ssc, r, c) {
                let (pr, pc) = choose|pr: int, pc: int|
                    #[trigger] in_region(m0, hh, ww, ssr, ssc, pr, pc) && adjacent(pr, pc, r, c);
                let path = choose|path: Seq<(int, int)>|
                    #[trigger] is_path(m0, hh, ww, ssr, ssc, path) && path.last() == (pr, pc);
                lemma_flood_complete(m0, map@, queue@, hh, ww, ssr, ssc, path, path.len() - 1);
                let q = choose|q: int| #![trigger queue@[q]] 0 <= q < queue@.len() && queue@[q].0 == pr && queue@[q].1 == pc;
                let k = choose|k: int| 0 <= k < 8 && r == pr + #[trigger] nb_r(k) && c == pc + #[trigger] nb_c(k);
                assert(queue@[q].0 + nb_r(k) == r && queue@[q].1 + nb_c(k) == c);
            }
        }
    }
}

/// The board `m2` is `m1` after the flood of `(sr, sc)`.
pub open spec fn flood_rel(m1: Seq<MineBox>, m2: Seq<MineBox>, h: int, w: int, sr: int, sc: int) -> bool {
    &&& m2.len() == m1.len()
    &&& forall|r: int, c: int|
        in_map(h, w, r, c) ==> (#[trigger] cell(m2, w, r, c)).box_type == cell(m1, w, r, c).box_type
            && cell(m2, w, r, c).mask_type == if flood_reveals(m1, h, w, sr, sc, r, c) {
            MaskType::Unmasked
        } else {
            cell(m1, w, r, c).mask_type
        }
}

} // verus!
