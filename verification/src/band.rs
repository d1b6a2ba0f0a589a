//! The band that a route on a grid of half the side marks out on the full
//! grid.
//!
//! Each cell of the coarse route covers a block of two by two cells of the
//! fine grid, and each diagonal move adds the two cells that join its blocks
//! edge to edge. The band is the union of these.

use crate::model::{has_way_on, is_passable, Region};
use crate::path::{
    col_after, is_route, lemma_position_monotone, lemma_route_bounds, row_after, Move,
};
use vstd::prelude::*;

verus! {

/// Cell (`y`, `x`) lies in the block of the route's cell number `k`.
pub open spec fn in_block(g: Seq<Move>, k: int, y: int, x: int) -> bool {
    &&& 2 * row_after(g, k) <= y <= 2 * row_after(g, k) + 1
    &&& 2 * col_after(g, k) <= x <= 2 * col_after(g, k) + 1
}

/// Cell (`y`, `x`) is one of the two cells that join the blocks of cells
/// `k` and `k + 1` of the route, which a diagonal move connects.
pub open spec fn in_link(g: Seq<Move>, k: int, y: int, x: int) -> bool {
    &&& g[k] == Move::Diagonal
    &&& (y == 2 * row_after(g, k) + 1 && x == 2 * col_after(g, k) + 2) || (y == 2 * row_after(g, k)
        + 2 && x == 2 * col_after(g, k) + 1)
}

/// Cell (`y`, `x`) lies in the part of the band that the route's cells 0 to
/// `k` and the moves between them mark out.
pub open spec fn in_band_upto(g: Seq<Move>, k: int, y: int, x: int) -> bool
    decreases k,
{
    if k <= 0 {
        in_block(g, 0, y, x)
    } else {
        in_band_upto(g, k - 1, y, x) || in_link(g, k - 1, y, x) || in_block(g, k, y, x)
    }
}

/// Cell (`y`, `x`) lies in the part of the band that the route's cells from
/// `k` on and the moves between and after them mark out.
pub open spec fn in_band_from(g: Seq<Move>, k: int, y: int, x: int) -> bool
    decreases g.len() - k,
{
    if k >= g.len() - 1 {
        in_block(g, k, y, x)
    } else {
        in_block(g, k, y, x) || in_link(g, k, y, x) || in_band_from(g, k + 1, y, x)
    }
}

/// The part of the band up to the route's cell `k`, as a region.
pub open spec fn band_upto(g: Seq<Move>, k: int) -> Region {
    |y: int, x: int| in_band_upto(g, k, y, x)
}

/// The band of the whole route.
pub open spec fn band(g: Seq<Move>) -> Region {
    band_upto(g, g.len() - 1)
}

/// The part of the band up to cell `k` lies below and left of the far
/// corner of that cell's block.
pub proof fn lemma_band_upto_bounds(g: Seq<Move>, k: int, y: int, x: int)
    requires
        0 <= k,
        in_band_upto(g, k, y, x),
    ensures
        0 <= y <= 2 * row_after(g, k) + 1,
        0 <= x <= 2 * col_after(g, k) + 1,
    decreases k,
{
    lemma_position_monotone(g, 0, k);
    if k > 0 {
        lemma_position_monotone(g, k - 1, k);
        if in_band_upto(g, k - 1, y, x) {
            lemma_band_upto_bounds(g, k - 1, y, x);
        }
    }
}

/// The part of the band from cell `k` on lies above and right of the near
/// corner of that cell's block.
pub proof fn lemma_band_from_bounds(g: Seq<Move>, k: int, y: int, x: int)
    requires
        0 <= k <= g.len() - 1,
        in_band_from(g, k, y, x),
    ensures
        2 * row_after(g, k) <= y,
        2 * col_after(g, k) <= x,
    decreases g.len() - k,
{
    if k < g.len() - 1 {
        lemma_position_monotone(g, k, k + 1);
        if in_band_from(g, k + 1, y, x) {
            lemma_band_from_bounds(g, k + 1, y, x);
        }
    }
}

/// A cell of the band lies in the part up to cell `k`, in the link after
/// cell `k`, or in the part from cell `k + 1` on.
pub proof fn lemma_band_splits(g: Seq<Move>, k: int, y: int, x: int)
    requires
        0 <= k < g.len() - 1,
    ensures
        band(g)(y, x) <==> (in_band_upto(g, k, y, x) || in_link(g, k, y, x) || in_band_from(
            g,
            k + 1,
            y,
            x,
        )),
{
    lemma_band_splits_at(g, g.len() - 1, k, y, x);
}

/// The part of the band up to cell `n` splits at every cell `k` below `n`,
/// where the part after the split is cut off at `n` as well.
proof fn lemma_band_splits_at(g: Seq<Move>, n: int, k: int, y: int, x: int)
    requires
        0 <= k < n,
        n == g.len() - 1,
    ensures
        in_band_upto(g, n, y, x) <==> (in_band_upto(g, k, y, x) || in_link(g, k, y, x)
            || in_band_from(g, k + 1, y, x)),
    decreases n - k,
{
    if k == n - 1 {
    } else {
        lemma_band_splits_at(g, n, k + 1, y, x);
    }
}

/// The part of the band from cell 0 on is the whole band.
pub proof fn lemma_band_from_start(g: Seq<Move>, y: int, x: int)
    requires
        g.len() >= 1,
    ensures
        band(g)(y, x) <==> in_band_from(g, 0, y, x),
{
    if g.len() > 1 {
        lemma_band_splits(g, 0, y, x);
    }
}

/// A part of the band grows with the number of route cells that mark it.
pub proof fn lemma_band_upto_grows(g: Seq<Move>, j: int, k: int, y: int, x: int)
    requires
        j <= k,
        in_band_upto(g, j, y, x),
    ensures
        in_band_upto(g, k, y, x),
    decreases k - j,
{
    if j < k {
        lemma_band_upto_grows(g, j, k - 1, y, x);
    }
}

/// Where the route's cells lie on the fine grid: the far corner of the
/// block of cell `k` is inside the square, and the last block ends in the
/// square's far corner.
pub proof fn lemma_block_in_square(g: Seq<Move>, side: int, k: int)
    requires
        is_route(g, side / 2),
        side % 2 == 0,
        0 <= k <= g.len() - 1,
    ensures
        side >= 2,
        0 <= 2 * row_after(g, k) + 1 <= side - 1,
        0 <= 2 * col_after(g, k) + 1 <= side - 1,
        2 * row_after(g, g.len() - 1) + 1 == side - 1,
        2 * col_after(g, g.len() - 1) + 1 == side - 1,
{
    lemma_route_bounds(g, side / 2, k);
}

/// Every cell in the part of the band up to cell `k`, other than the far
/// corner of that cell's block, has a way on within that part.
pub proof fn lemma_way_on_upto(g: Seq<Move>, side: int, k: int, y: int, x: int)
    requires
        is_route(g, side / 2),
        side % 2 == 0,
        0 <= k <= g.len() - 1,
        in_band_upto(g, k, y, x),
        !(y == 2 * row_after(g, k) + 1 && x == 2 * col_after(g, k) + 1),
    ensures
        has_way_on(band_upto(g, k), side, y, x),
    decreases k,
{
    lemma_block_in_square(g, side, k);
    let r = band_upto(g, k);
    if k > 0 {
        lemma_block_in_square(g, side, k - 1);
        let py = 2 * row_after(g, k - 1) + 1;
        let px = 2 * col_after(g, k - 1) + 1;
        assert(g[k - 1] != Move::Stop);
        if in_band_upto(g, k - 1, y, x) {
            if y == py && x == px {
                assert(in_block(g, k - 1, y, x));
                match g[k - 1] {
                    Move::Vertical => {
                        assert(in_block(g, k, y + 1, x));
                    },
                    Move::Horizontal => {
                        assert(in_block(g, k, y, x + 1));
                    },
                    _ => {
                        assert(in_link(g, k - 1, y + 1, x));
                        assert(in_block(g, k, y + 1, x + 1));
                    },
                }
                assert(has_way_on(r, side, y, x));
            } else {
                lemma_way_on_upto(g, side, k - 1, y, x);
                let q = band_upto(g, k - 1);
                assert(q(y + 1, x) ==> r(y + 1, x));
                assert(q(y, x + 1) ==> r(y, x + 1));
                assert(q(y + 1, x + 1) ==> r(y + 1, x + 1));
            }
        } else if in_link(g, k - 1, y, x) {
            assert(in_block(g, k, 2 * row_after(g, k), 2 * col_after(g, k)));
            assert(r(y + 1, x) || r(y, x + 1));
        } else {
            assert(in_block(g, k, y, x));
            assert(in_block(g, k, 2 * row_after(g, k) + 1, x));
            assert(in_block(g, k, y, 2 * col_after(g, k) + 1));
        }
    } else {
        assert(in_block(g, k, 2 * row_after(g, k) + 1, x));
        assert(in_block(g, k, y, 2 * col_after(g, k) + 1));
    }
}

/// The band of a route on the grid of half the side is passable.
pub proof fn lemma_band_is_passable(g: Seq<Move>, side: int)
    requires
        is_route(g, side / 2),
        side % 2 == 0,
    ensures
        is_passable(band(g), side),
{
    let r = band(g);
    let n = g.len() - 1;
    lemma_block_in_square(g, side, n);
    lemma_block_in_square(g, side, 0);
    lemma_band_upto_grows(g, 0, n, 0, 0);
    assert(in_block(g, n, side - 1, side - 1));
    assert forall|y: int, x: int| #[trigger] r(y, x) implies 0 <= y < side && 0 <= x < side by {
        lemma_band_upto_bounds(g, n, y, x);
    }
    assert forall|y: int, x: int|
        r(y, x) && !(y == side - 1 && x == side - 1) implies #[trigger] has_way_on(
        r,
        side,
        y,
        x,
    ) by {
        lemma_way_on_upto(g, side, n, y, x);
    }
}

} // verus!
