//! Filling the table of cumulative losses inside the band of a coarser
//! route, and fencing the band with `INFINITY`.

use crate::band::{
    band, band_upto, in_band_upto, in_block, in_link, lemma_band_upto_bounds, lemma_block_in_square,
};
use crate::grid::Grid;
use crate::loss_map::{
    calc_loss_cell, fenced, lemma_loss_cell_matches, loss_cell_value, losses_agree, margin_cell,
    region_answered, seed_margin, stamp, weights,
};
use crate::model::{cumulative_loss, Region, Weights, INFINITY, MAX_SIDE};
use crate::path::{col_after, is_route, lemma_position_monotone, row_after, Move, Path};
use crate::plugin::{answers, is_pure};
use vstd::prelude::*;

verus! {

/// The cumulative loss of a cell depends on the region only through the
/// cells that lie neither above nor right of it.
pub proof fn lemma_loss_depends_on_cone(w: Weights, r1: Region, r2: Region, y: int, x: int)
    requires
        forall|a: int, b: int| 0 <= a <= y && 0 <= b <= x ==> r1(a, b) == #[trigger] r2(a, b),
    ensures
        cumulative_loss(w, r1, y, x) == cumulative_loss(w, r2, y, x),
    decreases y + x,
{
    if y >= 0 && x >= 0 {
        if x > 0 {
            lemma_loss_depends_on_cone(w, r1, r2, y, x - 1);
            assert(r1(y, x - 1) == r2(y, x - 1));
        }
        if y > 0 {
            lemma_loss_depends_on_cone(w, r1, r2, y - 1, x);
            assert(r1(y - 1, x) == r2(y - 1, x));
        }
        if y > 0 && x > 0 {
            lemma_loss_depends_on_cone(w, r1, r2, y - 1, x - 1);
            assert(r1(y - 1, x - 1) == r2(y - 1, x - 1));
        }
    }
}

/// The cell holds what its own formula gives on the table as it stands.
pub open spec fn settled(g: Grid<u64>, w: Weights, y: int, x: int) -> bool {
    g.at(y, x) == loss_cell_value(g, y, x, w(y, x))
}

/// The four cells of the block whose far corner is (`y`, `x`) are settled.
pub open spec fn block_settled(g: Grid<u64>, w: Weights, y: int, x: int) -> bool {
    &&& settled(g, w, y - 1, x - 1)
    &&& settled(g, w, y - 1, x)
    &&& settled(g, w, y, x - 1)
    &&& settled(g, w, y, x)
}

/// The loss function is known to return for the four cells of the block
/// whose far corner is (`y`, `x`).
pub open spec fn block_answered<T, F: Fn(&T, &T) -> u32>(
    loss_fn: F,
    ys: Seq<T>,
    xs: Seq<T>,
    y: int,
    x: int,
) -> bool {
    &&& answers::<T, u32, F>(loss_fn, ys[y - 1], xs[x - 1])
    &&& answers::<T, u32, F>(loss_fn, ys[y - 1], xs[x])
    &&& answers::<T, u32, F>(loss_fn, ys[y], xs[x - 1])
    &&& answers::<T, u32, F>(loss_fn, ys[y], xs[x])
}

/// Cell (`a`, `b`) lies in the block whose far corner is (`y`, `x`).
pub open spec fn block_cell(y: int, x: int, a: int, b: int) -> bool {
    y - 1 <= a <= y && x - 1 <= b <= x
}

/// Cell (`a`, `b`) is one of the five cells above and right of the block
/// whose far corner is (`y`, `x`).
pub open spec fn fringe_cell(y: int, x: int, a: int, b: int) -> bool {
    (a == y + 1 && x - 1 <= b <= x + 1) || (b == x + 1 && y - 1 <= a <= y)
}

/// The cells of the fringe that lie on the table hold `INFINITY`.
pub open spec fn fringe_stamped(g: Grid<u64>, y: int, x: int) -> bool {
    forall|a: int, b: int|
        #![trigger g.at(a, b)]
        fringe_cell(y, x, a, b) && 0 <= a < g.side() && 0 <= b < g.side() ==> g.at(a, b)
            == INFINITY
}

/// Marks the five cells above and right of the block whose far corner is
/// (`y`, `x`), as far as they lie on the table.
pub fn set_top_right_bounds(losses: &mut Grid<u64>, y: usize, x: usize)
    requires
        old(losses).wf(),
        1 <= y < old(losses).side(),
        1 <= x < old(losses).side(),
    ensures
        final(losses).wf(),
        final(losses).side() == old(losses).side(),
        fringe_stamped(*final(losses), y as int, x as int),
        forall|a: int, b: int|
            0 <= a < old(losses).side() && 0 <= b < old(losses).side() && !fringe_cell(
                y as int,
                x as int,
                a,
                b,
            ) ==> #[trigger] final(losses).at(a, b) == old(losses).at(a, b),
{
    let side = losses.side_len();
    if y < side - 1 {
        stamp(losses, y + 1, x - 1);
        stamp(losses, y + 1, x);
    }
    if y < side - 1 && x < side - 1 {
        stamp(losses, y + 1, x + 1);
    }
    if x < side - 1 {
        stamp(losses, y, x + 1);
        stamp(losses, y - 1, x + 1);
    }
}

/// Computes the four cells of the block whose far corner is (`y`, `x`),
/// nearest first.
pub fn calc_block<T, F: Fn(&T, &T) -> u32>(
    losses: &mut Grid<u64>,
    sig_y: &[T],
    sig_x: &[T],
    loss_fn: &F,
    y: usize,
    x: usize,
)
    requires
        old(losses).wf(),
        1 <= y < old(losses).side(),
        1 <= x < old(losses).side(),
        y < sig_y@.len(),
        x < sig_x@.len(),
        is_pure::<T, u32, F>(*loss_fn),
    ensures
        final(losses).wf(),
        final(losses).side() == old(losses).side(),
        block_settled(*final(losses), weights(*loss_fn, sig_y@, sig_x@), y as int, x as int),
        block_answered(*loss_fn, sig_y@, sig_x@, y as int, x as int),
        forall|a: int, b: int|
            0 <= a < old(losses).side() && 0 <= b < old(losses).side() && !block_cell(
                y as int,
                x as int,
                a,
                b,
            ) ==> #[trigger] final(losses).at(a, b) == old(losses).at(a, b),
{
    calc_loss_cell(losses, sig_y, sig_x, loss_fn, y - 1, x - 1);
    calc_loss_cell(losses, sig_y, sig_x, loss_fn, y - 1, x);
    calc_loss_cell(losses, sig_y, sig_x, loss_fn, y, x - 1);
    calc_loss_cell(losses, sig_y, sig_x, loss_fn, y, x);
}

/// What a vertical step to the block with far corner (`y`, `x`) leaves
/// behind: the block settled, its fringe marked, and, unless the block lies
/// on the left edge, the cells left of it marked; nothing else is changed.
/// `corner` tells whether the cell diagonally below the block was marked
/// too.
pub open spec fn rose(
    before: Grid<u64>,
    after: Grid<u64>,
    w: Weights,
    y: int,
    x: int,
    corner: bool,
) -> bool {
    &&& after.wf()
    &&& after.side() == before.side()
    &&& block_settled(after, w, y, x)
    &&& fringe_stamped(after, y, x)
    &&& x > 1 ==> {
        &&& after.at(y, x - 2) == INFINITY
        &&& after.at(y - 1, x - 2) == INFINITY
        &&& corner ==> after.at(y - 2, x - 2) == INFINITY
    }
    &&& forall|a: int, b: int|
        0 <= a < before.side() && 0 <= b < before.side() && !block_cell(y, x, a, b)
            && !fringe_cell(y, x, a, b) && !(b == x - 2 && (a == y || a == y - 1 || (corner && a
            == y - 2))) ==> #[trigger] after.at(a, b) == before.at(a, b)
}

/// What a horizontal step to the block with far corner (`y`, `x`) leaves
/// behind; the mirror image of `rose`.
pub open spec fn ran(
    before: Grid<u64>,
    after: Grid<u64>,
    w: Weights,
    y: int,
    x: int,
    corner: bool,
) -> bool {
    &&& after.wf()
    &&& after.side() == before.side()
    &&& block_settled(after, w, y, x)
    &&& fringe_stamped(after, y, x)
    &&& y > 1 ==> {
        &&& after.at(y - 2, x) == INFINITY
        &&& after.at(y - 2, x - 1) == INFINITY
        &&& corner ==> after.at(y - 2, x - 2) == INFINITY
    }
    &&& forall|a: int, b: int|
        0 <= a < before.side() && 0 <= b < before.side() && !block_cell(y, x, a, b)
            && !fringe_cell(y, x, a, b) && !(a == y - 2 && (b == x || b == x - 1 || (corner && b
            == x - 2))) ==> #[trigger] after.at(a, b) == before.at(a, b)
}

/// Cell (`a`, `b`) is one of the four cells that a diagonal step to the
/// block with far corner (`y`, `x`) marks beside the cells that it computes.
pub open spec fn flank_cell(y: int, x: int, a: int, b: int) -> bool {
    ||| (a == y && b == x - 2)
    ||| (a == y - 1 && b == x - 3)
    ||| (a == y - 2 && b == x)
    ||| (a == y - 3 && b == x - 1)
}

/// Cell (`a`, `b`) is one of the two cells that a diagonal step to the
/// block with far corner (`y`, `x`) computes beside the block.
pub open spec fn joint_cell(y: int, x: int, a: int, b: int) -> bool {
    (a == y - 2 && b == x - 1) || (a == y - 1 && b == x - 2)
}

/// What a diagonal step to the block with far corner (`y`, `x`) leaves
/// behind: the two joints and the block settled, the fringe and the four
/// flanks marked; nothing else is changed.
pub open spec fn leapt(before: Grid<u64>, after: Grid<u64>, w: Weights, y: int, x: int) -> bool {
    &&& after.wf()
    &&& after.side() == before.side()
    &&& block_settled(after, w, y, x)
    &&& settled(after, w, y - 2, x - 1)
    &&& settled(after, w, y - 1, x - 2)
    &&& fringe_stamped(after, y, x)
    &&& after.at(y, x - 2) == INFINITY
    &&& after.at(y - 1, x - 3) == INFINITY
    &&& after.at(y - 2, x) == INFINITY
    &&& after.at(y - 3, x - 1) == INFINITY
    &&& forall|a: int, b: int|
        0 <= a < before.side() && 0 <= b < before.side() && !block_cell(y, x, a, b)
            && !fringe_cell(y, x, a, b) && !flank_cell(y, x, a, b) && !joint_cell(y, x, a, b)
            ==> #[trigger] after.at(a, b) == before.at(a, b)
}

/// Takes the table one vertical step on: marks the cells left of the new
/// block, computes the block and marks its fringe.
pub fn extend_up<T, F: Fn(&T, &T) -> u32>(
    losses: &mut Grid<u64>,
    sig_y: &[T],
    sig_x: &[T],
    loss_fn: &F,
    y: usize,
    x: usize,
    corner: bool,
)
    requires
        old(losses).wf(),
        3 <= y < old(losses).side(),
        1 <= x < old(losses).side(),
        y < sig_y@.len(),
        x < sig_x@.len(),
        is_pure::<T, u32, F>(*loss_fn),
    ensures
        rose(
            *old(losses),
            *final(losses),
            weights(*loss_fn, sig_y@, sig_x@),
            y as int,
            x as int,
            corner,
        ),
        block_answered(*loss_fn, sig_y@, sig_x@, y as int, x as int),
{
    if x > 1 {
        stamp(losses, y, x - 2);
        stamp(losses, y - 1, x - 2);
        if corner {
            stamp(losses, y - 2, x - 2);
        }
    }
    calc_block(losses, sig_y, sig_x, loss_fn, y, x);
    set_top_right_bounds(losses, y, x);
}

/// Takes the table one horizontal step on: marks the cells below the new
/// block, computes the block and marks its fringe.
pub fn extend_right<T, F: Fn(&T, &T) -> u32>(
    losses: &mut Grid<u64>,
    sig_y: &[T],
    sig_x: &[T],
    loss_fn: &F,
    y: usize,
    x: usize,
    corner: bool,
)
    requires
        old(losses).wf(),
        1 <= y < old(losses).side(),
        3 <= x < old(losses).side(),
        y < sig_y@.len(),
        x < sig_x@.len(),
        is_pure::<T, u32, F>(*loss_fn),
    ensures
        ran(
            *old(losses),
            *final(losses),
            weights(*loss_fn, sig_y@, sig_x@),
            y as int,
            x as int,
            corner,
        ),
        block_answered(*loss_fn, sig_y@, sig_x@, y as int, x as int),
{
    if y > 1 {
        stamp(losses, y - 2, x);
        stamp(losses, y - 2, x - 1);
        if corner {
            stamp(losses, y - 2, x - 2);
        }
    }
    calc_block(losses, sig_y, sig_x, loss_fn, y, x);
    set_top_right_bounds(losses, y, x);
}

/// Takes the table one diagonal step on: marks the four flanks, computes the
/// two joints and the new block, and marks the block's fringe.
pub fn extend_diagonal<T, F: Fn(&T, &T) -> u32>(
    losses: &mut Grid<u64>,
    sig_y: &[T],
    sig_x: &[T],
    loss_fn: &F,
    y: usize,
    x: usize,
)
    requires
        old(losses).wf(),
        3 <= y < old(losses).side(),
        3 <= x < old(losses).side(),
        y < sig_y@.len(),
        x < sig_x@.len(),
        is_pure::<T, u32, F>(*loss_fn),
    ensures
        leapt(*old(losses), *final(losses), weights(*loss_fn, sig_y@, sig_x@), y as int, x as int),
        block_answered(*loss_fn, sig_y@, sig_x@, y as int, x as int),
        answers::<T, u32, F>(*loss_fn, sig_y@[y - 2], sig_x@[x - 1]),
        answers::<T, u32, F>(*loss_fn, sig_y@[y - 1], sig_x@[x - 2]),
{
    stamp(losses, y, x - 2);
    stamp(losses, y - 1, x - 3);
    stamp(losses, y - 2, x);
    stamp(losses, y - 3, x - 1);
    calc_loss_cell(losses, sig_y, sig_x, loss_fn, y - 2, x - 1);
    calc_loss_cell(losses, sig_y, sig_x, loss_fn, y - 1, x - 2);
    calc_block(losses, sig_y, sig_x, loss_fn, y, x);
    set_top_right_bounds(losses, y, x);
}

/// The table is right on the part of the band up to cell `k` of the route,
/// and that part is fenced.
pub open spec fn band_filled(g: Grid<u64>, w: Weights, route: Seq<Move>, k: int) -> bool {
    &&& losses_agree(g, w, band_upto(route, k))
    &&& fenced(g, band_upto(route, k), g.side())
}

/// The cells of the part of the band up to cell `k` keep their cumulative
/// loss when the band grows by one more cell of the route.
proof fn lemma_growth_keeps_losses(w: Weights, route: Seq<Move>, k: int, y: int, x: int)
    requires
        0 <= k,
        in_band_upto(route, k, y, x),
    ensures
        cumulative_loss(w, band_upto(route, k), y, x) == cumulative_loss(
            w,
            band_upto(route, k + 1),
            y,
            x,
        ),
{
    let r0 = band_upto(route, k);
    let r1 = band_upto(route, k + 1);
    lemma_band_upto_bounds(route, k, y, x);
    lemma_position_monotone(route, k, k + 1);
    assert forall|a: int, b: int| 0 <= a <= y && 0 <= b <= x implies r0(a, b) == #[trigger] r1(
        a,
        b,
    ) by {
        assert(!in_link(route, k, a, b));
        assert(!in_block(route, k + 1, a, b) || in_block(route, k, a, b));
        if in_block(route, k, a, b) {
            assert(in_band_upto(route, k, a, b));
        }
    }
    lemma_loss_depends_on_cone(w, r0, r1, y, x);
}

/// Whether the cell diagonally below the block that a step enters belongs
/// to the band: it does exactly if the step before came in from that side.
proof fn lemma_corner_below(route: Seq<Move>, side: int, k: int, entered_from: Move)
    requires
        is_route(route, side / 2),
        side % 2 == 0,
        0 <= k < route.len() - 1,
        entered_from == Move::Horizontal || entered_from == Move::Vertical,
    ensures
        entered_from == Move::Horizontal ==> (in_band_upto(
            route,
            k,
            2 * row_after(route, k) + 1,
            2 * col_after(route, k) - 1,
        ) <==> k > 0 && route[k - 1] == Move::Horizontal),
        entered_from == Move::Vertical ==> (in_band_upto(
            route,
            k,
            2 * row_after(route, k) - 1,
            2 * col_after(route, k) + 1,
        ) <==> k > 0 && route[k - 1] == Move::Vertical),
{
    let (py, px) = if entered_from == Move::Horizontal {
        (2 * row_after(route, k) + 1, 2 * col_after(route, k) - 1)
    } else {
        (2 * row_after(route, k) - 1, 2 * col_after(route, k) + 1)
    };
    lemma_position_monotone(route, 0, k);
    if k > 0 {
        assert(route[k - 1] != Move::Stop);
        if in_band_upto(route, k - 1, py, px) {
            lemma_band_upto_bounds(route, k - 1, py, px);
        }
        if route[k - 1] == entered_from {
            assert(in_block(route, k - 1, py, px));
            assert(in_band_upto(route, k - 1, py, px));
        }
    }
}

/// A vertical step keeps the table right and fenced on the grown band.
pub proof fn lemma_rise_keeps_filled(
    before: Grid<u64>,
    after: Grid<u64>,
    w: Weights,
    route: Seq<Move>,
    side: int,
    k: int,
    corner: bool,
)
    requires
        is_route(route, side / 2),
        side % 2 == 0,
        side <= before.side() <= MAX_SIDE,
        0 <= k < route.len() - 1,
        route[k] == Move::Vertical,
        corner == !(k > 0 && route[k - 1] == Move::Horizontal),
        band_filled(before, w, route, k),
        rose(
            before,
            after,
            w,
            2 * row_after(route, k + 1) + 1,
            2 * col_after(route, k + 1) + 1,
            corner,
        ),
    ensures
        band_filled(after, w, route, k + 1),
{
    let r0 = band_upto(route, k);
    let r1 = band_upto(route, k + 1);
    let y = 2 * row_after(route, k + 1) + 1;
    let x = 2 * col_after(route, k + 1) + 1;
    lemma_block_in_square(route, side, k);
    lemma_block_in_square(route, side, k + 1);
    lemma_corner_below(route, side, k, Move::Horizontal);
    assert forall|a: int, b: int| #[trigger] in_band_upto(route, k, a, b) implies 0 <= a <= y - 2
        && 0 <= b <= x by {
        lemma_band_upto_bounds(route, k, a, b);
    }
    assert forall|a: int, b: int| #[trigger]
        in_band_upto(route, k + 1, a, b) <==> in_band_upto(route, k, a, b) || block_cell(
            y,
            x,
            a,
            b,
        ) by {}
    assert forall|a: int, b: int| r0(a, b) implies #[trigger] after.at(a, b) == cumulative_loss(
        w,
        r1,
        a,
        b,
    ) by {
        lemma_growth_keeps_losses(w, route, k, a, b);
        assert(before.at(a, b) == cumulative_loss(w, r0, a, b));
    }
    assert(in_block(route, k, y - 2, x - 1));
    assert(in_block(route, k, y - 2, x));
    assert(r0(y - 2, x - 1) && r0(y - 2, x));
    lemma_loss_cell_matches(after, w, r1, y - 1, x - 1);
    lemma_loss_cell_matches(after, w, r1, y - 1, x);
    lemma_loss_cell_matches(after, w, r1, y, x - 1);
    lemma_loss_cell_matches(after, w, r1, y, x);
    assert(losses_agree(after, w, r1));
    assert(fenced(after, r1, after.side()));
}

/// A horizontal step keeps the table right and fenced on the grown band.
pub proof fn lemma_run_keeps_filled(
    before: Grid<u64>,
    after: Grid<u64>,
    w: Weights,
    route: Seq<Move>,
    side: int,
    k: int,
    corner: bool,
)
    requires
        is_route(route, side / 2),
        side % 2 == 0,
        side <= before.side() <= MAX_SIDE,
        0 <= k < route.len() - 1,
        route[k] == Move::Horizontal,
        corner == !(k > 0 && route[k - 1] == Move::Vertical),
        band_filled(before, w, route, k),
        ran(
            before,
            after,
            w,
            2 * row_after(route, k + 1) + 1,
            2 * col_after(route, k + 1) + 1,
            corner,
        ),
    ensures
        band_filled(after, w, route, k + 1),
{
    let r0 = band_upto(route, k);
    let r1 = band_upto(route, k + 1);
    let y = 2 * row_after(route, k + 1) + 1;
    let x = 2 * col_after(route, k + 1) + 1;
    lemma_block_in_square(route, side, k);
    lemma_block_in_square(route, side, k + 1);
    lemma_corner_below(route, side, k, Move::Vertical);
    assert forall|a: int, b: int| #[trigger] in_band_upto(route, k, a, b) implies 0 <= a <= y
        && 0 <= b <= x - 2 by {
        lemma_band_upto_bounds(route, k, a, b);
    }
    assert forall|a: int, b: int| #[trigger]
        in_band_upto(route, k + 1, a, b) <==> in_band_upto(route, k, a, b) || block_cell(
            y,
            x,
            a,
            b,
        ) by {}
    assert forall|a: int, b: int| r0(a, b) implies #[trigger] after.at(a, b) == cumulative_loss(
        w,
        r1,
        a,
        b,
    ) by {
        lemma_growth_keeps_losses(w, route, k, a, b);
        assert(before.at(a, b) == cumulative_loss(w, r0, a, b));
    }
    assert(in_block(route, k, y - 1, x - 2));
    assert(in_block(route, k, y, x - 2));
    assert(r0(y - 1, x - 2) && r0(y, x - 2));
    lemma_loss_cell_matches(after, w, r1, y - 1, x - 1);
    lemma_loss_cell_matches(after, w, r1, y - 1, x);
    lemma_loss_cell_matches(after, w, r1, y, x - 1);
    lemma_loss_cell_matches(after, w, r1, y, x);
    assert(losses_agree(after, w, r1));
    assert(fenced(after, r1, after.side()));
}

/// A diagonal step keeps the table right and fenced on the grown band.
pub proof fn lemma_leap_keeps_filled(
    before: Grid<u64>,
    after: Grid<u64>,
    w: Weights,
    route: Seq<Move>,
    side: int,
    k: int,
)
    requires
        is_route(route, side / 2),
        side % 2 == 0,
        side <= before.side() <= MAX_SIDE,
        0 <= k < route.len() - 1,
        route[k] == Move::Diagonal,
        band_filled(before, w, route, k),
        leapt(before, after, w, 2 * row_after(route, k + 1) + 1, 2 * col_after(route, k + 1) + 1),
    ensures
        band_filled(after, w, route, k + 1),
{
    let r0 = band_upto(route, k);
    let r1 = band_upto(route, k + 1);
    let y = 2 * row_after(route, k + 1) + 1;
    let x = 2 * col_after(route, k + 1) + 1;
    lemma_block_in_square(route, side, k);
    lemma_block_in_square(route, side, k + 1);
    assert forall|a: int, b: int| #[trigger] in_band_upto(route, k, a, b) implies 0 <= a <= y - 2
        && 0 <= b <= x - 2 by {
        lemma_band_upto_bounds(route, k, a, b);
    }
    assert forall|a: int, b: int| #[trigger]
        in_band_upto(route, k + 1, a, b) <==> in_band_upto(route, k, a, b) || block_cell(
            y,
            x,
            a,
            b,
        ) || joint_cell(y, x, a, b) by {}
    assert forall|a: int, b: int| r0(a, b) implies #[trigger] after.at(a, b) == cumulative_loss(
        w,
        r1,
        a,
        b,
    ) by {
        lemma_growth_keeps_losses(w, route, k, a, b);
        assert(before.at(a, b) == cumulative_loss(w, r0, a, b));
    }
    assert(in_block(route, k, y - 2, x - 2));
    assert(in_block(route, k, y - 3, x - 2));
    assert(in_block(route, k, y - 2, x - 3));
    assert(r0(y - 2, x - 2) && r0(y - 3, x - 2) && r0(y - 2, x - 3));
    lemma_loss_cell_matches(after, w, r1, y - 2, x - 1);
    lemma_loss_cell_matches(after, w, r1, y - 1, x - 2);
    lemma_loss_cell_matches(after, w, r1, y - 1, x - 1);
    lemma_loss_cell_matches(after, w, r1, y - 1, x);
    lemma_loss_cell_matches(after, w, r1, y, x - 1);
    lemma_loss_cell_matches(after, w, r1, y, x);
    assert(losses_agree(after, w, r1));
    assert(fenced(after, r1, after.side()));
}

/// What the step with move number `k` of the route leaves behind.
pub open spec fn stepped(
    before: Grid<u64>,
    after: Grid<u64>,
    w: Weights,
    route: Seq<Move>,
    k: int,
) -> bool {
    let y = 2 * row_after(route, k + 1) + 1;
    let x = 2 * col_after(route, k + 1) + 1;
    match route[k] {
        Move::Vertical => rose(
            before,
            after,
            w,
            y,
            x,
            !(k > 0 && route[k - 1] == Move::Horizontal),
        ),
        Move::Horizontal => ran(before, after, w, y, x, !(k > 0 && route[k - 1] == Move::Vertical)),
        Move::Diagonal => leapt(before, after, w, y, x),
        Move::Stop => false,
    }
}

/// Cell (`a`, `b`) is one that the arrival in cell `k` of the route marks
/// with `INFINITY`: a cell of the fringe of the block, or one of the cells
/// beside the block on the side from which the block was not entered.
pub open spec fn step_marks(route: Seq<Move>, k: int, a: int, b: int) -> bool {
    let y = 2 * row_after(route, k) + 1;
    let x = 2 * col_after(route, k) + 1;
    ||| fringe_cell(y, x, a, b)
    ||| k >= 1 && route[k - 1] == Move::Vertical && x > 1 && b == x - 2 && (a == y || a == y - 1
        || (a == y - 2 && !(k >= 2 && route[k - 2] == Move::Horizontal)))
    ||| k >= 1 && route[k - 1] == Move::Horizontal && y > 1 && a == y - 2 && (b == x || b == x
        - 1 || (b == x - 2 && !(k >= 2 && route[k - 2] == Move::Vertical)))
    ||| k >= 1 && route[k - 1] == Move::Diagonal && flank_cell(y, x, a, b)
}

/// Cell (`a`, `b`) is marked on the way to cell `k` of the route.
pub open spec fn in_marks_upto(route: Seq<Move>, k: int, a: int, b: int) -> bool
    decreases k,
{
    if k <= 0 {
        step_marks(route, 0, a, b)
    } else {
        in_marks_upto(route, k - 1, a, b) || step_marks(route, k, a, b)
    }
}

/// Cell (`a`, `b`) is marked when the band of the route is filled on a
/// square of side `size`: on the way along the route, or as one of the five
/// cells outside the far corner.
pub open spec fn marked(route: Seq<Move>, size: int, a: int, b: int) -> bool {
    in_marks_upto(route, route.len() - 1, a, b) || margin_cell(size, a, b)
}

/// Outside the part of the band up to cell `k` of the route, the second
/// table holds `INFINITY` in the cells marked so far and what the first
/// table holds everywhere else.
pub open spec fn marks_kept(
    start: Grid<u64>,
    g: Grid<u64>,
    route: Seq<Move>,
    k: int,
    size: int,
) -> bool {
    forall|a: int, b: int|
        0 <= a < start.side() && 0 <= b < start.side() && !in_band_upto(route, k, a, b)
            ==> #[trigger] g.at(a, b) == (if in_marks_upto(route, k, a, b) || margin_cell(
            size,
            a,
            b,
        ) {
            INFINITY
        } else {
            start.at(a, b)
        })
}

/// A step marks the cells that `step_marks` names and writes to no other
/// cell outside the band.
pub proof fn lemma_step_keeps_marks(
    start: Grid<u64>,
    before: Grid<u64>,
    after: Grid<u64>,
    w: Weights,
    route: Seq<Move>,
    size: int,
    k: int,
)
    requires
        is_route(route, size / 2),
        size % 2 == 0,
        size <= start.side(),
        start.side() == before.side(),
        0 <= k < route.len() - 1,
        marks_kept(start, before, route, k, size),
        stepped(before, after, w, route, k),
    ensures
        marks_kept(start, after, route, k + 1, size),
{
    let y = 2 * row_after(route, k + 1) + 1;
    let x = 2 * col_after(route, k + 1) + 1;
    lemma_block_in_square(route, size, k);
    lemma_block_in_square(route, size, k + 1);
    assert(route[k] != Move::Stop);
    assert forall|a: int, b: int|
        0 <= a < start.side() && 0 <= b < start.side() && !in_band_upto(
            route,
            k + 1,
            a,
            b,
        ) implies #[trigger] after.at(a, b) == (if in_marks_upto(route, k + 1, a, b)
        || margin_cell(size, a, b) {
        INFINITY
    } else {
        start.at(a, b)
    }) by {
        assert(!in_band_upto(route, k, a, b));
        assert(!in_block(route, k + 1, a, b));
        assert(!in_link(route, k, a, b));
        assert(!block_cell(y, x, a, b));
        assert(before.at(a, b) == (if in_marks_upto(route, k, a, b) || margin_cell(size, a, b) {
            INFINITY
        } else {
            start.at(a, b)
        }));
        assert(in_marks_upto(route, k + 1, a, b) == (in_marks_upto(route, k, a, b) || step_marks(
            route,
            k + 1,
            a,
            b,
        )));
    }
}

/// When a step has asked the loss function about the cells that it adds to
/// the band, the loss function is known to return on the grown band.
pub proof fn lemma_growth_is_answered<T, F: Fn(&T, &T) -> u32>(
    loss_fn: F,
    ys: Seq<T>,
    xs: Seq<T>,
    route: Seq<Move>,
    k: int,
)
    requires
        0 <= k < route.len() - 1,
        region_answered(loss_fn, ys, xs, band_upto(route, k)),
        block_answered(
            loss_fn,
            ys,
            xs,
            2 * row_after(route, k + 1) + 1,
            2 * col_after(route, k + 1) + 1,
        ),
        route[k] == Move::Diagonal ==> answers::<T, u32, F>(
            loss_fn,
            ys[2 * row_after(route, k + 1) - 1],
            xs[2 * col_after(route, k + 1)],
        ) && answers::<T, u32, F>(
            loss_fn,
            ys[2 * row_after(route, k + 1)],
            xs[2 * col_after(route, k + 1) - 1],
        ),
    ensures
        region_answered(loss_fn, ys, xs, band_upto(route, k + 1)),
{
    let r0 = band_upto(route, k);
    let r1 = band_upto(route, k + 1);
    assert forall|y: int, x: int| r1(y, x) implies #[trigger] answers::<T, u32, F>(
        loss_fn,
        ys[y],
        xs[x],
    ) by {
        if in_band_upto(route, k, y, x) {
            assert(r0(y, x));
        }
    }
}

/// Fills the band of `guide` with cumulative losses and fences it.
///
/// `guide` is a route on the grid of half the side. The first block is
/// computed at the near corner; then every move of the guide before its
/// `Stop` takes the table one step on. The cell diagonally below a block
/// entered by a vertical step is marked unless the step before was
/// horizontal, and likewise with the two directions exchanged.
pub fn fill_band_losses<T, F: Fn(&T, &T) -> u32, const MAX_PATH_LEN: usize>(
    losses: &mut Grid<u64>,
    sig_y: &[T],
    sig_x: &[T],
    loss_fn: &F,
    size: usize,
    guide: &Path<MAX_PATH_LEN>,
)
    requires
        old(losses).wf(),
        size <= old(losses).side() <= MAX_SIDE,
        size % 2 == 0,
        is_route(guide.moves(), size as int / 2),
        size <= sig_y@.len(),
        size <= sig_x@.len(),
        is_pure::<T, u32, F>(*loss_fn),
    ensures
        final(losses).wf(),
        final(losses).side() == old(losses).side(),
        losses_agree(*final(losses), weights(*loss_fn, sig_y@, sig_x@), band(guide.moves())),
        fenced(*final(losses), band(guide.moves()), size as int),
        region_answered(*loss_fn, sig_y@, sig_x@, band(guide.moves())),
        forall|a: int, b: int|
            0 <= a < old(losses).side() && 0 <= b < old(losses).side() && !band(guide.moves())(a, b)
                ==> #[trigger] final(losses).at(a, b) == (if marked(
                guide.moves(),
                size as int,
                a,
                b,
            ) {
                INFINITY
            } else {
                old(losses).at(a, b)
            }),
{
    let ghost w = weights(*loss_fn, sig_y@, sig_x@);
    let ghost route = guide.moves();
    let ghost start = *losses;
    proof {
        lemma_block_in_square(route, size as int, 0);
    }
    seed_margin(losses, size);
    calc_block(losses, sig_y, sig_x, loss_fn, 1, 1);
    set_top_right_bounds(losses, 1, 1);
    proof {
        let r0 = band_upto(route, 0);
        assert forall|a: int, b: int| #[trigger]
            in_band_upto(route, 0, a, b) <==> block_cell(1, 1, a, b) by {}
        lemma_loss_cell_matches(*losses, w, r0, 0, 0);
        lemma_loss_cell_matches(*losses, w, r0, 0, 1);
        lemma_loss_cell_matches(*losses, w, r0, 1, 0);
        lemma_loss_cell_matches(*losses, w, r0, 1, 1);
        assert(losses_agree(*losses, w, r0));
        assert(fenced(*losses, r0, losses.side()));
        assert(region_answered(*loss_fn, sig_y@, sig_x@, r0));
        assert(marks_kept(start, *losses, route, 0, size as int));
    }
    let mut y: usize = 1;
    let mut x: usize = 1;
    let mut last_move: Option<Move> = None;
    let steps = guide.len() - 1;
    let mut k: usize = 0;
    while k < steps
        invariant
            k <= steps,
            steps == route.len() - 1,
            route == guide.moves(),
            losses.wf(),
            losses.side() == old(losses).side(),
            size <= losses.side() <= MAX_SIDE,
            size % 2 == 0,
            is_route(route, size as int / 2),
            size <= sig_y@.len(),
            size <= sig_x@.len(),
            is_pure::<T, u32, F>(*loss_fn),
            w == weights(*loss_fn, sig_y@, sig_x@),
            y == 2 * row_after(route, k as int) + 1,
            x == 2 * col_after(route, k as int) + 1,
            k > 0 ==> last_move == Some(route[k - 1]),
            k == 0 ==> last_move.is_none(),
            band_filled(*losses, w, route, k as int),
            region_answered(*loss_fn, sig_y@, sig_x@, band_upto(route, k as int)),
            start.side() == losses.side(),
            marks_kept(start, *losses, route, k as int, size as int),
        decreases steps - k,
    {
        let to_parent = guide.point(k).to_parent;
        let ghost before = *losses;
        proof {
            assert(route[k as int] == to_parent);
            assert(to_parent != Move::Stop);
            lemma_block_in_square(route, size as int, k as int);
            lemma_block_in_square(route, size as int, k as int + 1);
        }
        match to_parent {
            Move::Vertical => {
                y += 2;
                let corner = match last_move {
                    Some(Move::Horizontal) => false,
                    _ => true,
                };
                extend_up(losses, sig_y, sig_x, loss_fn, y, x, corner);
                proof {
                    lemma_rise_keeps_filled(before, *losses, w, route, size as int, k as int, corner);
                }
            },
            Move::Horizontal => {
                x += 2;
                let corner = match last_move {
                    Some(Move::Vertical) => false,
                    _ => true,
                };
                extend_right(losses, sig_y, sig_x, loss_fn, y, x, corner);
                proof {
                    lemma_run_keeps_filled(before, *losses, w, route, size as int, k as int, corner);
                }
            },
            Move::Diagonal => {
                y += 2;
                x += 2;
                extend_diagonal(losses, sig_y, sig_x, loss_fn, y, x);
                proof {
                    lemma_leap_keeps_filled(before, *losses, w, route, size as int, k as int);
                }
            },
            Move::Stop => {},
        }
        proof {
            lemma_growth_is_answered(*loss_fn, sig_y@, sig_x@, route, k as int);
            lemma_step_keeps_marks(start, before, *losses, w, route, size as int, k as int);
        }
        last_move = Some(to_parent);
        k += 1;
    }
}

} // verus!
