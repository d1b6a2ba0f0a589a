//! Filling the table of onward costs and moves inside the band of a coarser
//! route, from the far corner back to the near one.

use crate::band::{
    band, in_band_from, in_band_upto, in_block, in_link, lemma_band_from_bounds,
    lemma_band_from_start, lemma_band_is_passable, lemma_band_splits, lemma_band_upto_bounds,
    lemma_block_in_square,
};
use crate::grid::Grid;
use crate::loss_map::{fenced, losses_agree};
use crate::model::{onward, Weights, MAX_SIDE};
use crate::path::{col_after, is_route, lemma_position_monotone, row_after, Move, Path, PathPoint};
use crate::path_map::{
    calc_path_cell, lemma_path_cell_matches, neighbour_ready, path_cell_value, paths_agree,
    point_of,
};
use vstd::prelude::*;

verus! {

/// The cell holds what its own formula gives on the tables as they stand.
pub open spec fn way_settled(
    losses: Grid<u64>,
    paths: Grid<PathPoint>,
    size: int,
    y: int,
    x: int,
) -> bool {
    paths.at(y, x) == path_cell_value(losses, paths, size, y, x)
}

/// Cell (`a`, `b`) is one of the cells that a step back to the block with
/// far corner (`y`, `x`) computes: the block, and with `joints` the cell
/// above and the cell right of the far corner.
pub open spec fn retreat_cell(y: int, x: int, joints: bool, a: int, b: int) -> bool {
    ||| y - 1 <= a <= y && x - 1 <= b <= x
    ||| joints && a == y + 1 && b == x
    ||| joints && a == y && b == x + 1
}

/// What a step back to the block with far corner (`y`, `x`) leaves behind:
/// the cells that it computes settled, and nothing else changed.
pub open spec fn backed(
    losses: Grid<u64>,
    before: Grid<PathPoint>,
    after: Grid<PathPoint>,
    size: int,
    y: int,
    x: int,
    joints: bool,
) -> bool {
    &&& after.wf()
    &&& after.side() == before.side()
    &&& way_settled(losses, after, size, y, x)
    &&& way_settled(losses, after, size, y, x - 1)
    &&& way_settled(losses, after, size, y - 1, x)
    &&& way_settled(losses, after, size, y - 1, x - 1)
    &&& joints ==> way_settled(losses, after, size, y + 1, x) && way_settled(
        losses,
        after,
        size,
        y,
        x + 1,
    )
    &&& forall|a: int, b: int|
        0 <= a < before.side() && 0 <= b < before.side() && !retreat_cell(y, x, joints, a, b)
            ==> #[trigger] after.at(a, b) == before.at(a, b)
}

/// The two tables hold the same entries in the cells above, right of and
/// diagonally above (`y`, `x`), as far as these lie in the square.
pub open spec fn same_ahead(
    p: Grid<PathPoint>,
    q: Grid<PathPoint>,
    size: int,
    y: int,
    x: int,
) -> bool {
    &&& y + 1 < size ==> p.at(y + 1, x) == q.at(y + 1, x)
    &&& x + 1 < size ==> p.at(y, x + 1) == q.at(y, x + 1)
    &&& y + 1 < size && x + 1 < size ==> p.at(y + 1, x + 1) == q.at(y + 1, x + 1)
}

/// A cell's formula reads the onward table only ahead of the cell.
pub proof fn lemma_path_cell_reads_ahead(
    losses: Grid<u64>,
    p: Grid<PathPoint>,
    q: Grid<PathPoint>,
    size: int,
    y: int,
    x: int,
)
    requires
        0 <= y < size,
        0 <= x < size,
        same_ahead(p, q, size, y, x),
    ensures
        path_cell_value(losses, p, size, y, x) == path_cell_value(losses, q, size, y, x),
{
}

/// Computes the block with far corner (`y`, `x`), far corner first.
fn calc_path_block(losses: &Grid<u64>, paths: &mut Grid<PathPoint>, size: usize, y: usize, x: usize)
    requires
        losses.wf(),
        old(paths).wf(),
        losses.side() == old(paths).side(),
        size <= losses.side(),
        1 <= y < size,
        1 <= x < size,
    ensures
        backed(*losses, *old(paths), *final(paths), size as int, y as int, x as int, false),
{
    let ghost held0 = *paths;
    calc_path_cell(losses, paths, size, y, x);
    let ghost held1 = *paths;
    calc_path_cell(losses, paths, size, y, x - 1);
    let ghost held2 = *paths;
    calc_path_cell(losses, paths, size, y - 1, x);
    let ghost held3 = *paths;
    calc_path_cell(losses, paths, size, y - 1, x - 1);
    proof {
        let held4 = *paths;
        let s = size as int;
        assert(same_ahead(held0, held4, s, y as int, x as int));
        lemma_path_cell_reads_ahead(*losses, held0, held4, s, y as int, x as int);
        assert(same_ahead(held1, held4, s, y as int, x - 1));
        lemma_path_cell_reads_ahead(*losses, held1, held4, s, y as int, x - 1);
        assert(same_ahead(held2, held4, s, y - 1, x as int));
        lemma_path_cell_reads_ahead(*losses, held2, held4, s, y - 1, x as int);
        assert(same_ahead(held3, held4, s, y - 1, x - 1));
        lemma_path_cell_reads_ahead(*losses, held3, held4, s, y - 1, x - 1);
    }
}

/// Takes the onward table one step back: with `joints` it computes the cell
/// above and the cell right of (`y`, `x`) first, and then the block with far
/// corner (`y`, `x`), far corner first.
pub fn retreat(
    losses: &Grid<u64>,
    paths: &mut Grid<PathPoint>,
    size: usize,
    y: usize,
    x: usize,
    joints: bool,
)
    requires
        losses.wf(),
        old(paths).wf(),
        losses.side() == old(paths).side(),
        size <= losses.side(),
        1 <= y < size,
        1 <= x < size,
        joints ==> y + 1 < size && x + 1 < size,
    ensures
        backed(*losses, *old(paths), *final(paths), size as int, y as int, x as int, joints),
{
    if joints {
        let ghost held0 = *paths;
        calc_path_cell(losses, paths, size, y + 1, x);
        let ghost held1 = *paths;
        calc_path_cell(losses, paths, size, y, x + 1);
        let ghost held2 = *paths;
        calc_path_block(losses, paths, size, y, x);
        proof {
            let held3 = *paths;
            let s = size as int;
            assert(same_ahead(held0, held3, s, y + 1, x as int));
            lemma_path_cell_reads_ahead(*losses, held0, held3, s, y + 1, x as int);
            assert(same_ahead(held1, held3, s, y as int, x + 1));
            lemma_path_cell_reads_ahead(*losses, held1, held3, s, y as int, x + 1);
        }
    } else {
        calc_path_block(losses, paths, size, y, x);
    }
}

/// The onward table is right on the part of the band from cell `k` of the
/// route on.
pub open spec fn band_routed(
    p: Grid<PathPoint>,
    w: Weights,
    route: Seq<Move>,
    size: int,
    k: int,
) -> bool {
    forall|a: int, b: int|
        in_band_from(route, k, a, b) ==> #[trigger] p.at(a, b) == point_of(
            onward(w, band(route), size, a, b),
        )
}

/// A settled cell of the band whose neighbours are ready holds the onward
/// cost and move.
proof fn lemma_settled_cell_routed(
    losses: Grid<u64>,
    paths: Grid<PathPoint>,
    w: Weights,
    route: Seq<Move>,
    size: int,
    y: int,
    x: int,
)
    requires
        is_route(route, size / 2),
        size % 2 == 0,
        size <= MAX_SIDE,
        band(route)(y, x),
        losses_agree(losses, w, band(route)),
        way_settled(losses, paths, size, y, x),
        neighbour_ready(losses, paths, w, band(route), size, y + 1, x),
        neighbour_ready(losses, paths, w, band(route), size, y, x + 1),
        neighbour_ready(losses, paths, w, band(route), size, y + 1, x + 1),
    ensures
        paths.at(y, x) == point_of(onward(w, band(route), size, y, x)),
{
    lemma_band_is_passable(route, size);
    lemma_path_cell_matches(losses, paths, w, band(route), size, y, x);
}

/// The far corner's block, computed on a loss table that is right on the
/// band, is right.
pub proof fn lemma_corner_routed(
    losses: Grid<u64>,
    before: Grid<PathPoint>,
    after: Grid<PathPoint>,
    w: Weights,
    route: Seq<Move>,
    size: int,
)
    requires
        is_route(route, size / 2),
        size % 2 == 0,
        size <= losses.side() <= MAX_SIDE,
        losses_agree(losses, w, band(route)),
        backed(losses, before, after, size, size - 1, size - 1, false),
    ensures
        band_routed(after, w, route, size, route.len() - 1),
{
    let n = route.len() - 1;
    let r = band(route);
    let y = size - 1;
    let x = size - 1;
    lemma_block_in_square(route, size, n);
    assert forall|a: int, b: int| in_block(route, n, a, b) implies r(a, b) by {}
    assert(in_block(route, n, y, x) && in_block(route, n, y, x - 1) && in_block(route, n, y - 1, x)
        && in_block(route, n, y - 1, x - 1));
    assert(after.at(y, x) == after.at(y, x));
    lemma_settled_cell_routed(losses, after, w, route, size, y, x);
    assert(after.at(y, x - 1) == after.at(y, x - 1));
    lemma_settled_cell_routed(losses, after, w, route, size, y, x - 1);
    assert(after.at(y - 1, x) == after.at(y - 1, x));
    lemma_settled_cell_routed(losses, after, w, route, size, y - 1, x);
    assert(after.at(y - 1, x - 1) == after.at(y - 1, x - 1));
    lemma_settled_cell_routed(losses, after, w, route, size, y - 1, x - 1);
}

/// After a step back to cell `k` of the route, a cell ahead of a band cell
/// is ready as soon as it is right wherever it belongs to the part of the
/// band that the step has just computed.
proof fn lemma_neighbour_is_ready(
    losses: Grid<u64>,
    before: Grid<PathPoint>,
    after: Grid<PathPoint>,
    w: Weights,
    route: Seq<Move>,
    size: int,
    k: int,
    y: int,
    x: int,
)
    requires
        is_route(route, size / 2),
        size % 2 == 0,
        size <= losses.side() <= MAX_SIDE,
        losses.side() == before.side(),
        0 <= k < route.len() - 1,
        losses_agree(losses, w, band(route)),
        fenced(losses, band(route), size),
        band_routed(before, w, route, size, k + 1),
        forall|a: int, b: int|
            0 <= a < before.side() && 0 <= b < before.side() && !retreat_cell(
                2 * row_after(route, k) + 1,
                2 * col_after(route, k) + 1,
                route[k] == Move::Diagonal,
                a,
                b,
            ) ==> #[trigger] after.at(a, b) == before.at(a, b),
        band(route)(y - 1, x) || band(route)(y, x - 1) || band(route)(y - 1, x - 1),
        in_band_upto(route, k, y, x) || in_link(route, k, y, x) ==> after.at(y, x) == point_of(
            onward(w, band(route), size, y, x),
        ),
    ensures
        neighbour_ready(losses, after, w, band(route), size, y, x),
{
    let r = band(route);
    if 0 <= y < size && 0 <= x < size {
        if r(y, x) {
            lemma_band_splits(route, k, y, x);
            assert(losses.at(y, x) == losses.at(y, x));
            if !(in_band_upto(route, k, y, x) || in_link(route, k, y, x)) {
                lemma_band_from_bounds(route, k + 1, y, x);
                lemma_position_monotone(route, k, k + 1);
                assert(route[k] != Move::Stop);
                assert(before.at(y, x) == point_of(onward(w, r, size, y, x)));
                assert(after.at(y, x) == before.at(y, x));
            }
        } else {
            assert(losses.at(y, x) == losses.at(y, x));
        }
    }
}

/// A cell that a step back to cell `k` of the route has settled is right if
/// the cells ahead of it that the same step computes are right.
proof fn lemma_retreat_cell_routed(
    losses: Grid<u64>,
    before: Grid<PathPoint>,
    after: Grid<PathPoint>,
    w: Weights,
    route: Seq<Move>,
    size: int,
    k: int,
    y: int,
    x: int,
)
    requires
        is_route(route, size / 2),
        size % 2 == 0,
        size <= losses.side() <= MAX_SIDE,
        losses.side() == before.side(),
        0 <= k < route.len() - 1,
        losses_agree(losses, w, band(route)),
        fenced(losses, band(route), size),
        band_routed(before, w, route, size, k + 1),
        forall|a: int, b: int|
            0 <= a < before.side() && 0 <= b < before.side() && !retreat_cell(
                2 * row_after(route, k) + 1,
                2 * col_after(route, k) + 1,
                route[k] == Move::Diagonal,
                a,
                b,
            ) ==> #[trigger] after.at(a, b) == before.at(a, b),
        in_band_upto(route, k, y, x) || in_link(route, k, y, x),
        way_settled(losses, after, size, y, x),
        in_band_upto(route, k, y + 1, x) || in_link(route, k, y + 1, x) ==> after.at(y + 1, x)
            == point_of(onward(w, band(route), size, y + 1, x)),
        in_band_upto(route, k, y, x + 1) || in_link(route, k, y, x + 1) ==> after.at(y, x + 1)
            == point_of(onward(w, band(route), size, y, x + 1)),
        in_band_upto(route, k, y + 1, x + 1) || in_link(route, k, y + 1, x + 1) ==> after.at(
            y + 1,
            x + 1,
        ) == point_of(onward(w, band(route), size, y + 1, x + 1)),
    ensures
        after.at(y, x) == point_of(onward(w, band(route), size, y, x)),
{
    lemma_band_splits(route, k, y, x);
    lemma_neighbour_is_ready(losses, before, after, w, route, size, k, y + 1, x);
    lemma_neighbour_is_ready(losses, before, after, w, route, size, k, y, x + 1);
    lemma_neighbour_is_ready(losses, before, after, w, route, size, k, y + 1, x + 1);
    lemma_settled_cell_routed(losses, after, w, route, size, y, x);
}

/// A step back keeps the onward table right on the grown part of the band.
pub proof fn lemma_retreat_keeps_routed(
    losses: Grid<u64>,
    before: Grid<PathPoint>,
    after: Grid<PathPoint>,
    w: Weights,
    route: Seq<Move>,
    size: int,
    k: int,
)
    requires
        is_route(route, size / 2),
        size % 2 == 0,
        size <= losses.side() <= MAX_SIDE,
        losses.side() == before.side(),
        0 <= k < route.len() - 1,
        losses_agree(losses, w, band(route)),
        fenced(losses, band(route), size),
        band_routed(before, w, route, size, k + 1),
        backed(
            losses,
            before,
            after,
            size,
            2 * row_after(route, k) + 1,
            2 * col_after(route, k) + 1,
            route[k] == Move::Diagonal,
        ),
    ensures
        band_routed(after, w, route, size, k),
{
    let r = band(route);
    let y = 2 * row_after(route, k) + 1;
    let x = 2 * col_after(route, k) + 1;
    let joints = route[k] == Move::Diagonal;
    lemma_block_in_square(route, size, k);
    lemma_block_in_square(route, size, k + 1);
    lemma_block_in_square(route, size, route.len() - 1);
    lemma_position_monotone(route, k, k + 1);
    assert(route[k] != Move::Stop);
    assert forall|a: int, b: int| #[trigger] in_band_upto(route, k, a, b) implies 0 <= a <= y && 0
        <= b <= x by {
        lemma_band_upto_bounds(route, k, a, b);
    }
    assert(in_block(route, k, y, x) && in_block(route, k, y, x - 1) && in_block(route, k, y - 1, x)
        && in_block(route, k, y - 1, x - 1));
    assert(in_band_upto(route, k, y, x) && in_band_upto(route, k, y, x - 1) && in_band_upto(
        route,
        k,
        y - 1,
        x,
    ) && in_band_upto(route, k, y - 1, x - 1));
    if joints {
        assert(in_link(route, k, y + 1, x) && in_link(route, k, y, x + 1));
        lemma_retreat_cell_routed(losses, before, after, w, route, size, k, y + 1, x);
        lemma_retreat_cell_routed(losses, before, after, w, route, size, k, y, x + 1);
    }
    lemma_retreat_cell_routed(losses, before, after, w, route, size, k, y, x);
    lemma_retreat_cell_routed(losses, before, after, w, route, size, k, y, x - 1);
    lemma_retreat_cell_routed(losses, before, after, w, route, size, k, y - 1, x);
    lemma_retreat_cell_routed(losses, before, after, w, route, size, k, y - 1, x - 1);
    assert forall|a: int, b: int| in_band_from(route, k, a, b) implies #[trigger] after.at(a, b)
        == point_of(onward(w, r, size, a, b)) by {
        if in_band_from(route, k + 1, a, b) {
            lemma_band_from_bounds(route, k + 1, a, b);
            lemma_band_splits(route, k, a, b);
            lemma_band_upto_bounds(route, route.len() - 1, a, b);
            assert(before.at(a, b) == point_of(onward(w, r, size, a, b)));
        }
    }
}

/// Outside the part of the band from cell `k` of the route on, the second
/// table holds what the first holds.
pub open spec fn kept_outside(
    start: Grid<PathPoint>,
    p: Grid<PathPoint>,
    route: Seq<Move>,
    k: int,
) -> bool {
    forall|a: int, b: int|
        0 <= a < start.side() && 0 <= b < start.side() && !in_band_from(route, k, a, b)
            ==> #[trigger] p.at(a, b) == start.at(a, b)
}

/// A step back writes only to cells of the band.
pub proof fn lemma_retreat_stays_in_band(
    losses: Grid<u64>,
    start: Grid<PathPoint>,
    before: Grid<PathPoint>,
    after: Grid<PathPoint>,
    route: Seq<Move>,
    size: int,
    k: int,
)
    requires
        0 <= k <= route.len() - 1,
        before.side() == start.side(),
        k < route.len() - 1 ==> kept_outside(start, before, route, k + 1),
        k == route.len() - 1 ==> before == start,
        backed(
            losses,
            before,
            after,
            size,
            2 * row_after(route, k) + 1,
            2 * col_after(route, k) + 1,
            k < route.len() - 1 && route[k] == Move::Diagonal,
        ),
    ensures
        kept_outside(start, after, route, k),
{
    assert forall|a: int, b: int|
        0 <= a < start.side() && 0 <= b < start.side() && !in_band_from(
            route,
            k,
            a,
            b,
        ) implies #[trigger] after.at(a, b) == start.at(a, b) by {
        assert(!in_block(route, k, a, b));
        if k < route.len() - 1 {
            assert(!in_link(route, k, a, b));
            assert(!in_band_from(route, k + 1, a, b));
            assert(before.at(a, b) == start.at(a, b));
        }
    }
}

/// Fills the band of `guide` with onward costs and moves.
///
/// The block at the far corner is computed first; then every move of the
/// guide before its `Stop`, last move first, takes the table one step back.
pub fn fill_band_paths<const MAX_PATH_LEN: usize>(
    losses: &Grid<u64>,
    paths: &mut Grid<PathPoint>,
    size: usize,
    guide: &Path<MAX_PATH_LEN>,
    Ghost(w): Ghost<Weights>,
)
    requires
        losses.wf(),
        old(paths).wf(),
        losses.side() == old(paths).side(),
        size <= losses.side() <= MAX_SIDE,
        size % 2 == 0,
        is_route(guide.moves(), size as int / 2),
        losses_agree(*losses, w, band(guide.moves())),
        fenced(*losses, band(guide.moves()), size as int),
    ensures
        final(paths).wf(),
        final(paths).side() == old(paths).side(),
        paths_agree(*final(paths), w, band(guide.moves()), size as int),
        forall|a: int, b: int|
            0 <= a < old(paths).side() && 0 <= b < old(paths).side() && !band(guide.moves())(a, b)
                ==> #[trigger] final(paths).at(a, b) == old(paths).at(a, b),
{
    let ghost route = guide.moves();
    proof {
        lemma_block_in_square(route, size as int, route.len() - 1);
    }
    let mut y: usize = size - 1;
    let mut x: usize = size - 1;
    let ghost start = *paths;
    retreat(losses, paths, size, y, x, false);
    proof {
        lemma_corner_routed(*losses, start, *paths, w, route, size as int);
        lemma_retreat_stays_in_band(
            *losses,
            start,
            start,
            *paths,
            route,
            size as int,
            route.len() - 1,
        );
    }
    let mut k: usize = guide.len() - 1;
    while k > 0
        invariant
            k <= route.len() - 1,
            route == guide.moves(),
            losses.wf(),
            paths.wf(),
            paths.side() == old(paths).side(),
            losses.side() == paths.side(),
            size <= losses.side() <= MAX_SIDE,
            size % 2 == 0,
            is_route(route, size as int / 2),
            losses_agree(*losses, w, band(route)),
            fenced(*losses, band(route), size as int),
            y == 2 * row_after(route, k as int) + 1,
            x == 2 * col_after(route, k as int) + 1,
            band_routed(*paths, w, route, size as int, k as int),
            start.side() == paths.side(),
            kept_outside(start, *paths, route, k as int),
        decreases k,
    {
        k -= 1;
        let to_parent = guide.point(k).to_parent;
        let ghost before = *paths;
        proof {
            assert(route[k as int] == to_parent);
            assert(to_parent != Move::Stop);
            lemma_block_in_square(route, size as int, k as int);
            lemma_block_in_square(route, size as int, k as int + 1);
            lemma_position_monotone(route, k as int, k as int + 1);
        }
        match to_parent {
            Move::Vertical => {
                y -= 2;
                retreat(losses, paths, size, y, x, false);
            },
            Move::Horizontal => {
                x -= 2;
                retreat(losses, paths, size, y, x, false);
            },
            Move::Diagonal => {
                y -= 2;
                x -= 2;
                retreat(losses, paths, size, y, x, true);
            },
            Move::Stop => {},
        }
        proof {
            lemma_retreat_keeps_routed(*losses, before, *paths, w, route, size as int, k as int);
            lemma_retreat_stays_in_band(*losses, start, before, *paths, route, size as int, k as int);
        }
    }
    proof {
        assert forall|a: int, b: int| band(route)(a, b) implies #[trigger] paths.at(a, b)
            == point_of(onward(w, band(route), size as int, a, b)) by {
            lemma_band_from_start(route, a, b);
        }
        assert forall|a: int, b: int|
            0 <= a < start.side() && 0 <= b < start.side() && !band(route)(
                a,
                b,
            ) implies #[trigger] paths.at(a, b) == start.at(a, b) by {
            lemma_band_from_start(route, a, b);
        }
    }
}

} // verus!
