//! What holds of every solve: how the cost in the far corner compares with
//! the walks through the region, what equal signals give, and what happens
//! when the two signals change places.

use crate::band::{
    band, in_band_upto, in_block, in_link, lemma_band_is_passable, lemma_band_upto_grows,
    lemma_block_in_square,
};
use crate::downsample::{
    depth, lemma_depth_at_most_limit, lemma_levels_below_depth, level, level_len,
};
use crate::dtw_solver::{level_region, level_weights, refined_trail, refinement_answered};
use crate::loss_map::weights;
use crate::model::{
    cumulative_loss, has_way_on, is_passable, lemma_cumulative_loss_bound,
    lemma_onward_in_passable, lemma_square_is_passable, lemma_trail_is_route, lesser, onward,
    square, trail, trail_moves, Onward, Region, Weights, MAX_SIDE,
};
use crate::path::{
    col_after, disparity_after, is_route, lemma_position_monotone, lemma_position_of_prefix,
    lemma_route_bounds, lemma_route_stays_below, moves_before_stop, row_after, warped_after, Move,
};
use crate::plugin::{answers, value_of};
use vstd::prelude::*;

verus! {

/// The total of the local losses in the cells that the first `k` moves
/// visit, the starting cell (0, 0) included.
pub open spec fn walk_loss(w: Weights, moves: Seq<Move>, k: int) -> int
    decreases k + 1,
{
    if k < 0 {
        0
    } else {
        walk_loss(w, moves, k - 1) + w(row_after(moves, k), col_after(moves, k))
    }
}

/// The cell reached after `i` moves lies in the region.
pub open spec fn visits(r: Region, moves: Seq<Move>, i: int) -> bool {
    r(row_after(moves, i), col_after(moves, i))
}

/// The first `k` moves leave their cells and stay inside the region.
pub open spec fn walks_inside(r: Region, moves: Seq<Move>, k: int) -> bool {
    &&& 0 <= k <= moves.len()
    &&& forall|i: int| 0 <= i < k ==> #[trigger] moves[i] != Move::Stop
    &&& forall|i: int| 0 <= i <= k ==> #[trigger] visits(r, moves, i)
}

/// The cumulative loss of a cell is at most the total of any walk that
/// reaches the cell inside the region.
pub proof fn lemma_loss_at_most_walk(w: Weights, r: Region, moves: Seq<Move>, k: int)
    requires
        walks_inside(r, moves, k),
    ensures
        cumulative_loss(w, r, row_after(moves, k), col_after(moves, k)) <= walk_loss(w, moves, k),
    decreases k,
{
    lemma_position_monotone(moves, 0, k);
    let y = row_after(moves, k);
    let x = col_after(moves, k);
    if k > 0 {
        lemma_loss_at_most_walk(w, r, moves, k - 1);
        lemma_position_monotone(moves, 0, k - 1);
        let py = row_after(moves, k - 1);
        let px = col_after(moves, k - 1);
        assert(visits(r, moves, k - 1));
        assert(moves[k - 1] != Move::Stop);
        lemma_cumulative_loss_bound(w, r, py, px);
        if x > 0 {
            lemma_cumulative_loss_bound(w, r, y, x - 1);
        }
        if y > 0 {
            lemma_cumulative_loss_bound(w, r, y - 1, x);
        }
        if y > 0 && x > 0 {
            lemma_cumulative_loss_bound(w, r, y - 1, x - 1);
        }
    } else {
        assert(walk_loss(w, moves, -1) == 0);
    }
}

/// The move that leads into cell (`y`, `x`) on a cheapest walk inside the
/// region: from the left, from below or from diagonally below, whichever
/// has the least cumulative loss; `Stop` if no such cell is in the region.
pub open spec fn cheapest_entry(w: Weights, r: Region, y: int, x: int) -> Move {
    let left = if x > 0 && r(y, x - 1) {
        Some(cumulative_loss(w, r, y, x - 1))
    } else {
        None
    };
    let down = if y > 0 && r(y - 1, x) {
        Some(cumulative_loss(w, r, y - 1, x))
    } else {
        None
    };
    let both = if y > 0 && x > 0 && r(y - 1, x - 1) {
        Some(cumulative_loss(w, r, y - 1, x - 1))
    } else {
        None
    };
    let best = lesser(left, lesser(down, both));
    if best.is_none() {
        Move::Stop
    } else if left == best {
        Move::Horizontal
    } else if down == best {
        Move::Vertical
    } else {
        Move::Diagonal
    }
}

/// The moves of a cheapest walk inside the region that ends in cell
/// (`y`, `x`).
pub open spec fn cheapest_walk(w: Weights, r: Region, y: int, x: int) -> Seq<Move>
    decreases y + x,
{
    let entry = cheapest_entry(w, r, y, x);
    if y < 0 || x < 0 || entry == Move::Stop {
        Seq::empty()
    } else {
        cheapest_walk(w, r, y - entry.rise(), x - entry.run()).push(entry)
    }
}

/// The total of a walk depends on the moves made only.
pub proof fn lemma_walk_loss_of_prefix(w: Weights, a: Seq<Move>, b: Seq<Move>, k: int)
    requires
        k <= a.len(),
        k <= b.len(),
        forall|i: int| 0 <= i < k ==> a[i] == b[i],
    ensures
        walk_loss(w, a, k) == walk_loss(w, b, k),
    decreases k + 1,
{
    if k >= 0 {
        lemma_walk_loss_of_prefix(w, a, b, k - 1);
        lemma_position_of_prefix(a, b, k);
    }
}

/// In the whole square the cheapest walk to a cell starts in the near
/// corner, leaves every cell on its way, stays in the square, ends in the
/// cell, and its total is the cumulative loss of the cell.
pub proof fn lemma_cheapest_walk(w: Weights, side: int, y: int, x: int)
    requires
        0 <= y < side,
        0 <= x < side,
    ensures
        walks_inside(
            square(side),
            cheapest_walk(w, square(side), y, x),
            cheapest_walk(w, square(side), y, x).len() as int,
        ),
        row_after(
            cheapest_walk(w, square(side), y, x),
            cheapest_walk(w, square(side), y, x).len() as int,
        ) == y,
        col_after(
            cheapest_walk(w, square(side), y, x),
            cheapest_walk(w, square(side), y, x).len() as int,
        ) == x,
        walk_loss(
            w,
            cheapest_walk(w, square(side), y, x),
            cheapest_walk(w, square(side), y, x).len() as int,
        ) == cumulative_loss(w, square(side), y, x),
    decreases y + x,
{
    let r = square(side);
    let entry = cheapest_entry(w, r, y, x);
    let walk = cheapest_walk(w, r, y, x);
    if entry == Move::Stop {
        assert(y == 0 && x == 0);
        assert(walk.len() == 0);
        assert(walk_loss(w, walk, -1) == 0);
        assert(visits(r, walk, 0));
    } else {
        let py = y - entry.rise();
        let px = x - entry.run();
        lemma_cheapest_walk(w, side, py, px);
        let before = cheapest_walk(w, r, py, px);
        let n = before.len() as int;
        assert(walk == before.push(entry));
        lemma_position_of_prefix(before, walk, n);
        lemma_walk_loss_of_prefix(w, before, walk, n);
        assert(walk[n] == entry);
        assert forall|i: int| 0 <= i <= n + 1 implies #[trigger] visits(r, walk, i) by {
            if i <= n {
                lemma_position_of_prefix(before, walk, i);
                assert(visits(r, before, i));
            }
        }
        assert forall|i: int| 0 <= i < n + 1 implies #[trigger] walk[i] != Move::Stop by {
            if i < n {
                assert(walk[i] == before[i]);
            }
        }
    }
}

/// On the whole square the cumulative loss of the far corner is the least
/// total of local losses over all routes: no route has a smaller total, and
/// the cheapest walk to the far corner, followed by `Stop`, is a route that
/// has this total.
pub proof fn lemma_corner_loss_is_least_total(w: Weights, side: int, moves: Seq<Move>)
    requires
        side >= 1,
        is_route(moves, side),
    ensures
        cumulative_loss(w, square(side), side - 1, side - 1) <= walk_loss(
            w,
            moves,
            moves.len() - 1,
        ),
        is_route(cheapest_walk(w, square(side), side - 1, side - 1).push(Move::Stop), side),
        walk_loss(
            w,
            cheapest_walk(w, square(side), side - 1, side - 1).push(Move::Stop),
            cheapest_walk(w, square(side), side - 1, side - 1).len() as int,
        ) == cumulative_loss(w, square(side), side - 1, side - 1),
{
    let r = square(side);
    let last = moves.len() - 1;
    assert forall|i: int| 0 <= i <= last implies #[trigger] visits(r, moves, i) by {
        lemma_route_bounds(moves, side, i);
    }
    lemma_loss_at_most_walk(w, r, moves, last);
    lemma_cheapest_walk(w, side, side - 1, side - 1);
    let walk = cheapest_walk(w, r, side - 1, side - 1);
    let route = walk.push(Move::Stop);
    let n = walk.len() as int;
    lemma_position_of_prefix(walk, route, n);
    lemma_walk_loss_of_prefix(w, walk, route, n);
    assert forall|i: int| 0 <= i < route.len() - 1 implies #[trigger] route[i] != Move::Stop by {
        assert(route[i] == walk[i]);
    }
}

/// The coarse route played at double size: one diagonal move into the first
/// block, then every move of the route twice, then `Stop`.
pub open spec fn doubled(route: Seq<Move>) -> Seq<Move> {
    Seq::new(
        (2 * route.len()) as nat,
        |i: int|
            if i == 0 {
                Move::Diagonal
            } else if i == 2 * route.len() - 1 {
                Move::Stop
            } else {
                route[(i - 1) / 2]
            },
    )
}

/// Where the doubled route is after its first move and `2 * k` further
/// ones: in the far corner of the block of the route's cell `k`.
proof fn lemma_doubled_position(route: Seq<Move>, k: int)
    requires
        0 <= k <= route.len() - 1,
    ensures
        row_after(doubled(route), 2 * k + 1) == 2 * row_after(route, k) + 1,
        col_after(doubled(route), 2 * k + 1) == 2 * col_after(route, k) + 1,
    decreases k,
{
    let d = doubled(route);
    if k > 0 {
        lemma_doubled_position(route, k - 1);
        assert(d[2 * k] == route[k - 1]);
        assert(d[2 * k - 1] == route[k - 1]);
        assert(row_after(d, 2 * k) == row_after(d, 2 * k - 1) + d[2 * k - 1].rise());
        assert(col_after(d, 2 * k) == col_after(d, 2 * k - 1) + d[2 * k - 1].run());
    } else {
        assert(d[0] == Move::Diagonal);
        assert(row_after(d, 0) == 0);
        assert(col_after(d, 0) == 0);
    }
}

/// The doubled route is a route on the grid of double the side and stays
/// inside the band of the coarse route.
pub proof fn lemma_doubled_is_inside_band(route: Seq<Move>, side: int)
    requires
        is_route(route, side / 2),
        side % 2 == 0,
    ensures
        is_route(doubled(route), side),
        walks_inside(band(route), doubled(route), doubled(route).len() - 1),
{
    let d = doubled(route);
    let n = route.len() - 1;
    let r = band(route);
    lemma_doubled_position(route, n);
    lemma_block_in_square(route, side, n);
    assert forall|i: int| 0 <= i < d.len() - 1 implies #[trigger] d[i] != Move::Stop by {
        if i > 0 {
            assert(route[(i - 1) / 2] != Move::Stop);
        }
    }
    assert forall|i: int| 0 <= i <= d.len() - 1 implies #[trigger] visits(r, d, i) by {
        if i == 0 {
            assert(row_after(d, 0) == 0 && col_after(d, 0) == 0);
            lemma_position_monotone(route, 0, 0);
            assert(in_block(route, 0, 0, 0));
            lemma_band_upto_grows(route, 0, n, 0, 0);
        } else {
            let k = (i - 1) / 2;
            lemma_doubled_position(route, k);
            if i == 2 * k + 1 {
                assert(in_block(route, k, row_after(d, i), col_after(d, i)));
                assert(in_band_upto(route, k, row_after(d, i), col_after(d, i)));
                lemma_band_upto_grows(route, k, n, row_after(d, i), col_after(d, i));
            } else {
                assert(i == 2 * k + 2);
                assert(d[i - 1] == route[k]);
                assert(route[k] != Move::Stop);
                lemma_position_monotone(route, k, k + 1);
                assert(in_block(route, k + 1, row_after(d, i), col_after(d, i)));
                assert(in_band_upto(route, k + 1, row_after(d, i), col_after(d, i)));
                lemma_band_upto_grows(route, k + 1, n, row_after(d, i), col_after(d, i));
            }
        }
    }
}

/// Refinement never does worse than doubling the guide: the cumulative loss
/// that the band gives the far corner is at most the total of local losses
/// along the doubled guide.
pub proof fn lemma_band_beats_doubled_guide(w: Weights, route: Seq<Move>, side: int)
    requires
        is_route(route, side / 2),
        side % 2 == 0,
        side <= MAX_SIDE,
    ensures
        is_route(doubled(route), side),
        cumulative_loss(w, band(route), side - 1, side - 1) <= walk_loss(
            w,
            doubled(route),
            doubled(route).len() - 1,
        ),
        trail(w, band(route), side, 0, 0).last().cost <= walk_loss(
            w,
            doubled(route),
            doubled(route).len() - 1,
        ),
{
    lemma_doubled_is_inside_band(route, side);
    lemma_loss_at_most_walk(w, band(route), doubled(route), doubled(route).len() - 1);
    lemma_band_is_passable(route, side);
    lemma_trail_is_route(w, band(route), side);
}

/// Solved on the whole square, the last point of the trail carries the
/// least total of local losses over all routes.
pub proof fn lemma_whole_square_is_exact(w: Weights, side: int, moves: Seq<Move>)
    requires
        1 <= side <= MAX_SIDE,
        is_route(moves, side),
    ensures
        trail(w, square(side), side, 0, 0).last().cost <= walk_loss(w, moves, moves.len() - 1),
        is_route(cheapest_walk(w, square(side), side - 1, side - 1).push(Move::Stop), side),
        trail(w, square(side), side, 0, 0).last().cost == walk_loss(
            w,
            cheapest_walk(w, square(side), side - 1, side - 1).push(Move::Stop),
            cheapest_walk(w, square(side), side - 1, side - 1).len() as int,
        ),
{
    lemma_corner_loss_is_least_total(w, side, moves);
    lemma_square_is_passable(side);
    lemma_trail_is_route(w, square(side), side);
}

/// The route that only moves diagonally: `side - 1` diagonal moves and then
/// `Stop`.
pub open spec fn diagonal_route(side: int) -> Seq<Move> {
    Seq::new(
        side as nat,
        |i: int|
            if i == side - 1 {
                Move::Stop
            } else {
                Move::Diagonal
            },
    )
}

/// The trail along the diagonal from cell (`from`, `from`) on, at no cost.
pub open spec fn diagonal_trail(side: int, from: int) -> Seq<Onward> {
    Seq::new(
        (side - from) as nat,
        |i: int|
            Onward {
                cost: 0,
                to_parent: if from + i == side - 1 {
                    Move::Stop
                } else {
                    Move::Diagonal
                },
            },
    )
}

/// Pairing a sample with the sample of the same index costs nothing.
pub open spec fn free_on_diagonal(w: Weights, side: int) -> bool {
    forall|i: int| 0 <= i < side ==> #[trigger] w(i, i) == 0
}

/// The region holds every cell of the diagonal.
pub open spec fn holds_diagonal(r: Region, side: int) -> bool {
    forall|i: int| 0 <= i < side ==> #[trigger] r(i, i)
}

/// Where the diagonal is free and inside the region, the cumulative loss of
/// its cells is zero.
pub proof fn lemma_diagonal_loss_is_zero(w: Weights, r: Region, side: int, i: int)
    requires
        free_on_diagonal(w, side),
        holds_diagonal(r, side),
        0 <= i < side,
    ensures
        cumulative_loss(w, r, i, i) == 0,
    decreases i,
{
    assert(w(i, i) == 0);
    if i > 0 {
        lemma_diagonal_loss_is_zero(w, r, side, i - 1);
        assert(r(i - 1, i - 1));
        lemma_cumulative_loss_bound(w, r, i, i - 1);
        lemma_cumulative_loss_bound(w, r, i - 1, i);
    }
}

/// Where the diagonal is free and inside a passable region, the onward
/// moves follow the diagonal at no cost.
pub proof fn lemma_diagonal_onward(w: Weights, r: Region, side: int, i: int)
    requires
        is_passable(r, side),
        side <= MAX_SIDE,
        free_on_diagonal(w, side),
        holds_diagonal(r, side),
        0 <= i < side,
    ensures
        onward(w, r, side, i, i).cost == 0,
        onward(w, r, side, i, i).to_parent == (if i == side - 1 {
            Move::Stop
        } else {
            Move::Diagonal
        }),
        trail(w, r, side, i, i) == diagonal_trail(side, i),
    decreases side - i,
{
    reveal(onward);
    lemma_diagonal_loss_is_zero(w, r, side, i);
    assert(r(i, i));
    if i < side - 1 {
        lemma_diagonal_onward(w, r, side, i + 1);
        assert(r(i + 1, i + 1));
        if r(i + 1, i) {
            lemma_onward_in_passable(w, r, side, i + 1, i);
        }
        if r(i, i + 1) {
            lemma_onward_in_passable(w, r, side, i, i + 1);
        }
        assert(trail(w, r, side, i, i) =~= diagonal_trail(side, i));
    } else {
        assert(trail(w, r, side, i, i) =~= diagonal_trail(side, i));
    }
}

/// The diagonal route reaches cell (`k`, `k`) after `k` moves.
pub proof fn lemma_diagonal_route_position(side: int, k: int)
    requires
        0 <= k <= side - 1,
    ensures
        row_after(diagonal_route(side), k) == k,
        col_after(diagonal_route(side), k) == k,
    decreases k,
{
    if k > 0 {
        lemma_diagonal_route_position(side, k - 1);
        assert(diagonal_route(side)[k - 1] == Move::Diagonal);
    }
}

/// The diagonal route is a route.
pub proof fn lemma_diagonal_route_is_route(side: int)
    requires
        side >= 1,
    ensures
        is_route(diagonal_route(side), side),
{
    lemma_diagonal_route_position(side, side - 1);
}

/// The band of the diagonal route holds the diagonal of the finer grid.
pub proof fn lemma_diagonal_band_holds_diagonal(half: int)
    requires
        half >= 1,
    ensures
        holds_diagonal(band(diagonal_route(half)), 2 * half),
{
    let g = diagonal_route(half);
    assert forall|i: int| 0 <= i < 2 * half implies #[trigger] band(g)(i, i) by {
        let k = i / 2;
        lemma_diagonal_route_position(half, k);
        assert(in_block(g, k, i, i));
        assert(in_band_upto(g, k, i, i));
        lemma_band_upto_grows(g, k, half - 1, i, i);
    }
}

/// Along the diagonal route a signal is warped onto itself and every
/// disparity is zero.
pub proof fn lemma_diagonal_leaves_signal<T>(signal: Seq<T>, k: int)
    requires
        signal.len() >= 1,
        0 <= k <= signal.len() - 1,
    ensures
        warped_after(signal, diagonal_route(signal.len() as int), k) == signal,
        disparity_after(signal.len() as int, diagonal_route(signal.len() as int), k) == Seq::new(
            signal.len(),
            |i: int| 0i64,
        ),
    decreases k,
{
    let n = signal.len() as int;
    if k > 0 {
        lemma_diagonal_leaves_signal(signal, k - 1);
        lemma_diagonal_route_position(n, k);
        assert(warped_after(signal, diagonal_route(n), k) =~= signal);
        assert(disparity_after(n, diagonal_route(n), k) =~= Seq::new(
            signal.len(),
            |i: int| 0i64,
        ));
    }
}

/// On the levels from `i` up, pairing a sample with the sample of the same
/// index costs nothing wherever the region of the level holds the cell.
pub open spec fn diagonal_is_free<T, D: Fn(&T, &T) -> T, L: Fn(&T, &T) -> u32>(
    downsample_fn: D,
    loss_fn: L,
    signal: Seq<T>,
    top: int,
    i: int,
) -> bool
    decreases top - i,
{
    &&& forall|k: int|
        level_region(downsample_fn, loss_fn, signal, signal, top, i)(k, k) ==> #[trigger] level_weights(
            downsample_fn,
            loss_fn,
            signal,
            signal,
            i,
        )(k, k) == 0
    &&& i < top ==> diagonal_is_free(downsample_fn, loss_fn, signal, top, i + 1)
}

/// A loss that is zero for equal samples frees the diagonal on every level.
pub proof fn lemma_zero_loss_frees_diagonal<T, D: Fn(&T, &T) -> T, L: Fn(&T, &T) -> u32>(
    downsample_fn: D,
    loss_fn: L,
    signal: Seq<T>,
    top: int,
    i: int,
)
    requires
        forall|a: T| #[trigger] value_of::<T, u32, L>(loss_fn, a, a) == 0,
    ensures
        diagonal_is_free(downsample_fn, loss_fn, signal, top, i),
    decreases top - i,
{
    let coarse = level(downsample_fn, signal, i);
    assert forall|k: int| #[trigger]
        level_weights(downsample_fn, loss_fn, signal, signal, i)(k, k) == 0 by {
        assert(value_of::<T, u32, L>(loss_fn, coarse[k], coarse[k]) == 0);
    }
    if i < top {
        lemma_zero_loss_frees_diagonal(downsample_fn, loss_fn, signal, top, i + 1);
    }
}

/// A loss function whose contract allows only zero for equal samples frees
/// the diagonal wherever it is known to have returned.
pub proof fn lemma_answers_free_diagonal<T, D: Fn(&T, &T) -> T, L: Fn(&T, &T) -> u32>(
    downsample_fn: D,
    loss_fn: L,
    signal: Seq<T>,
    top: int,
    i: int,
)
    requires
        forall|a: T, r: u32| #[trigger] call_ensures(loss_fn, (&a, &a), r) ==> r == 0,
        refinement_answered(downsample_fn, loss_fn, signal, signal, top, i),
    ensures
        diagonal_is_free(downsample_fn, loss_fn, signal, top, i),
    decreases top - i,
{
    let coarse = level(downsample_fn, signal, i);
    assert forall|k: int|
        level_region(downsample_fn, loss_fn, signal, signal, top, i)(
            k,
            k,
        ) implies #[trigger] level_weights(downsample_fn, loss_fn, signal, signal, i)(k, k)
        == 0 by {
        assert(answers::<T, u32, L>(loss_fn, coarse[k], coarse[k]));
    }
    if i < top {
        lemma_answers_free_diagonal(downsample_fn, loss_fn, signal, top, i + 1);
    }
}

/// On every level, equal signals are refined along the diagonal.
pub proof fn lemma_equal_signals_per_level<T, D: Fn(&T, &T) -> T, L: Fn(&T, &T) -> u32>(
    downsample_fn: D,
    loss_fn: L,
    signal: Seq<T>,
    limit: int,
    i: int,
)
    requires
        1 <= signal.len() <= MAX_SIDE,
        0 <= i <= depth(signal.len() as int, limit),
        diagonal_is_free(downsample_fn, loss_fn, signal, depth(signal.len() as int, limit), i),
    ensures
        refined_trail(
            downsample_fn,
            loss_fn,
            signal,
            signal,
            depth(signal.len() as int, limit),
            i,
        ) == diagonal_trail(level_len(signal.len() as int, i), 0),
        level_len(signal.len() as int, i) >= 1,
    decreases depth(signal.len() as int, limit) - i,
{
    let n = signal.len() as int;
    let top = depth(n, limit);
    let size = level_len(n, i);
    let w = level_weights(downsample_fn, loss_fn, signal, signal, i);
    let r = level_region(downsample_fn, loss_fn, signal, signal, top, i);
    lemma_levels_below_depth(n, limit, i);
    if i >= top {
        lemma_square_is_passable(size);
    } else {
        lemma_equal_signals_per_level(downsample_fn, loss_fn, signal, limit, i + 1);
        lemma_levels_below_depth(n, limit, i + 1);
        let half = level_len(n, i + 1);
        let above = refined_trail(downsample_fn, loss_fn, signal, signal, top, i + 1);
        assert(trail_moves(above) =~= diagonal_route(half));
        lemma_diagonal_route_is_route(half);
        lemma_band_is_passable(diagonal_route(half), size);
        lemma_diagonal_band_holds_diagonal(half);
    }
    assert(holds_diagonal(r, size));
    assert(free_on_diagonal(w, size)) by {
        assert forall|k: int| 0 <= k < size implies #[trigger] w(k, k) == 0 by {
            assert(r(k, k));
        }
    }
    lemma_diagonal_onward(w, r, size, 0);
}

/// Aligning a signal with itself, where pairing every sample with itself
/// costs nothing, gives the diagonal route at no cost; warping the signal
/// along it gives the signal back, and every disparity is zero.
pub proof fn lemma_equal_signals_give_diagonal<T, D: Fn(&T, &T) -> T, L: Fn(&T, &T) -> u32>(
    downsample_fn: D,
    loss_fn: L,
    signal: Seq<T>,
    limit: int,
)
    requires
        1 <= signal.len() <= MAX_SIDE,
        diagonal_is_free(downsample_fn, loss_fn, signal, depth(signal.len() as int, limit), 0),
    ensures
        refined_trail(
            downsample_fn,
            loss_fn,
            signal,
            signal,
            depth(signal.len() as int, limit),
            0,
        ) == diagonal_trail(signal.len() as int, 0),
        trail_moves(diagonal_trail(signal.len() as int, 0)) == diagonal_route(
            signal.len() as int,
        ),
        warped_after(
            signal,
            diagonal_route(signal.len() as int),
            moves_before_stop(diagonal_route(signal.len() as int), 0),
        ) == signal,
        disparity_after(
            signal.len() as int,
            diagonal_route(signal.len() as int),
            moves_before_stop(diagonal_route(signal.len() as int), 0),
        ) == Seq::new(signal.len(), |i: int| 0i64),
{
    let n = signal.len() as int;
    lemma_depth_at_most_limit(n, limit);
    lemma_equal_signals_per_level(downsample_fn, loss_fn, signal, limit, 0);
    assert(trail_moves(diagonal_trail(n, 0)) =~= diagonal_route(n));
    lemma_diagonal_route_is_route(n);
    lemma_route_stays_below(diagonal_route(n), n);
    lemma_diagonal_leaves_signal(signal, n - 1);
}

/// The move seen with rows and columns exchanged.
pub open spec fn mirrored(m: Move) -> Move {
    match m {
        Move::Vertical => Move::Horizontal,
        Move::Horizontal => Move::Vertical,
        other => other,
    }
}

/// The moves seen with rows and columns exchanged.
pub open spec fn mirrored_moves(moves: Seq<Move>) -> Seq<Move> {
    Seq::new(moves.len(), |i: int| mirrored(moves[i]))
}

/// The trail seen with rows and columns exchanged: the same costs, the
/// mirrored moves.
pub open spec fn mirrored_trail(t: Seq<Onward>) -> Seq<Onward> {
    Seq::new(t.len(), |i: int| Onward { cost: t[i].cost, to_parent: mirrored(t[i].to_parent) })
}

/// The second region is the first with rows and columns exchanged, and so
/// are the local losses inside it.
pub open spec fn transposes(w: Weights, r: Region, w2: Weights, r2: Region) -> bool {
    &&& forall|a: int, b: int| #[trigger] r2(a, b) == r(b, a)
    &&& forall|a: int, b: int| r(b, a) ==> #[trigger] w2(a, b) == w(b, a)
}

/// The onward costs above and right of cell (`y`, `x`) are equal and least,
/// and the diagonal one is not: the cell moves up, and so does its mirror
/// image.
pub open spec fn is_tied(w: Weights, r: Region, side: int, y: int, x: int) -> bool {
    let up = if r(y + 1, x) {
        Some(onward(w, r, side, y + 1, x).cost)
    } else {
        None
    };
    let right = if r(y, x + 1) {
        Some(onward(w, r, side, y, x + 1).cost)
    } else {
        None
    };
    let diag = if r(y + 1, x + 1) {
        Some(onward(w, r, side, y + 1, x + 1).cost)
    } else {
        None
    };
    let best = lesser(up, lesser(right, diag));
    0 <= y < side - 1 && 0 <= x < side - 1 && up == right && up == best && diag != best
}

/// No cell on the trail from cell (`y`, `x`) is tied.
pub open spec fn trail_is_tie_free(w: Weights, r: Region, side: int, y: int, x: int) -> bool
    decreases 2 * side - y - x,
{
    if !(0 <= y < side && 0 <= x < side) {
        true
    } else {
        let here = onward(w, r, side, y, x);
        !is_tied(w, r, side, y, x) && (here.to_parent == Move::Stop || trail_is_tie_free(
            w,
            r,
            side,
            y + here.to_parent.rise(),
            x + here.to_parent.run(),
        ))
    }
}

/// Exchanging rows and columns exchanges the coordinates of cumulative
/// losses.
pub proof fn lemma_loss_transposes(
    w: Weights,
    r: Region,
    w2: Weights,
    r2: Region,
    y: int,
    x: int,
)
    requires
        transposes(w, r, w2, r2),
        r(y, x),
    ensures
        cumulative_loss(w2, r2, x, y) == cumulative_loss(w, r, y, x),
    decreases y + x,
{
    if y >= 0 && x >= 0 {
        assert(w2(x, y) == w(y, x));
        assert(r2(x - 1, y) == r(y, x - 1));
        assert(r2(x, y - 1) == r(y - 1, x));
        assert(r2(x - 1, y - 1) == r(y - 1, x - 1));
        if x > 0 && r(y, x - 1) {
            lemma_loss_transposes(w, r, w2, r2, y, x - 1);
        }
        if y > 0 && r(y - 1, x) {
            lemma_loss_transposes(w, r, w2, r2, y - 1, x);
        }
        if y > 0 && x > 0 && r(y - 1, x - 1) {
            lemma_loss_transposes(w, r, w2, r2, y - 1, x - 1);
        }
    }
}

/// A passable region stays passable when rows and columns are exchanged.
pub proof fn lemma_passable_transposes(w: Weights, r: Region, w2: Weights, r2: Region, side: int)
    requires
        transposes(w, r, w2, r2),
        is_passable(r, side),
    ensures
        is_passable(r2, side),
{
    assert(r2(0, 0) == r(0, 0));
    assert(r2(side - 1, side - 1) == r(side - 1, side - 1));
    assert forall|y: int, x: int| #[trigger] r2(y, x) implies 0 <= y < side && 0 <= x < side by {
        assert(r(x, y));
    }
    assert forall|y: int, x: int|
        r2(y, x) && !(y == side - 1 && x == side - 1) implies #[trigger] has_way_on(
        r2,
        side,
        y,
        x,
    ) by {
        assert(r(x, y));
        assert(has_way_on(r, side, x, y));
        assert(r2(y + 1, x) == r(x, y + 1));
        assert(r2(y, x + 1) == r(x + 1, y));
        assert(r2(y + 1, x + 1) == r(x + 1, y + 1));
    }
}

/// Exchanging rows and columns exchanges the coordinates of onward costs,
/// and mirrors the onward move of every cell that is not tied.
pub proof fn lemma_onward_transposes(
    w: Weights,
    r: Region,
    w2: Weights,
    r2: Region,
    side: int,
    y: int,
    x: int,
)
    requires
        transposes(w, r, w2, r2),
        is_passable(r, side),
        side <= MAX_SIDE,
        r(y, x),
    ensures
        onward(w2, r2, side, x, y).cost == onward(w, r, side, y, x).cost,
        !is_tied(w, r, side, y, x) ==> onward(w2, r2, side, x, y).to_parent == mirrored(
            onward(w, r, side, y, x).to_parent,
        ),
    decreases 2 * side - y - x,
{
    reveal(onward);
    lemma_loss_transposes(w, r, w2, r2, y, x);
    assert(0 <= y < side && 0 <= x < side);
    assert(r2(x + 1, y) == r(y, x + 1));
    assert(r2(x, y + 1) == r(y + 1, x));
    assert(r2(x + 1, y + 1) == r(y + 1, x + 1));
    if !(y == side - 1 && x == side - 1) {
        assert(has_way_on(r, side, y, x));
    }
    if r(y + 1, x) {
        lemma_onward_transposes(w, r, w2, r2, side, y + 1, x);
    }
    if r(y, x + 1) {
        lemma_onward_transposes(w, r, w2, r2, side, y, x + 1);
    }
    if r(y + 1, x + 1) {
        lemma_onward_transposes(w, r, w2, r2, side, y + 1, x + 1);
    }
}

/// Exchanging rows and columns mirrors a trail on which no cell is tied.
pub proof fn lemma_trail_transposes(
    w: Weights,
    r: Region,
    w2: Weights,
    r2: Region,
    side: int,
    y: int,
    x: int,
)
    requires
        transposes(w, r, w2, r2),
        is_passable(r, side),
        side <= MAX_SIDE,
        r(y, x),
        trail_is_tie_free(w, r, side, y, x),
    ensures
        trail(w2, r2, side, x, y) == mirrored_trail(trail(w, r, side, y, x)),
    decreases 2 * side - y - x,
{
    lemma_onward_transposes(w, r, w2, r2, side, y, x);
    lemma_onward_in_passable(w, r, side, y, x);
    let here = onward(w, r, side, y, x);
    if here.to_parent != Move::Stop {
        let ny = y + here.to_parent.rise();
        let nx = x + here.to_parent.run();
        lemma_trail_transposes(w, r, w2, r2, side, ny, nx);
        assert(trail(w2, r2, side, x, y) =~= mirrored_trail(trail(w, r, side, y, x)));
    } else {
        assert(trail(w2, r2, side, x, y) =~= mirrored_trail(trail(w, r, side, y, x)));
    }
}

/// The mirrored moves reach the mirrored cells.
pub proof fn lemma_mirrored_position(moves: Seq<Move>, k: int)
    requires
        0 <= k <= moves.len(),
    ensures
        row_after(mirrored_moves(moves), k) == col_after(moves, k),
        col_after(mirrored_moves(moves), k) == row_after(moves, k),
    decreases k,
{
    if k > 0 {
        lemma_mirrored_position(moves, k - 1);
        assert(mirrored_moves(moves)[k - 1] == mirrored(moves[k - 1]));
    }
}

/// The band of the mirrored route is the mirror image of the band.
pub proof fn lemma_band_mirrors(route: Seq<Move>, k: int, y: int, x: int)
    requires
        0 <= k <= route.len() - 1,
    ensures
        in_band_upto(mirrored_moves(route), k, x, y) == in_band_upto(route, k, y, x),
    decreases k,
{
    let m = mirrored_moves(route);
    lemma_mirrored_position(route, k);
    assert(in_block(m, k, x, y) == in_block(route, k, y, x));
    if k > 0 {
        lemma_band_mirrors(route, k - 1, y, x);
        lemma_mirrored_position(route, k - 1);
        assert(m[k - 1] == mirrored(route[k - 1]));
        assert(in_link(m, k - 1, x, y) == in_link(route, k - 1, y, x));
    }
}

/// A mirrored route is a route.
pub proof fn lemma_mirrored_route(route: Seq<Move>, side: int)
    requires
        is_route(route, side),
    ensures
        is_route(mirrored_moves(route), side),
{
    let m = mirrored_moves(route);
    lemma_mirrored_position(route, route.len() - 1);
    assert forall|i: int| 0 <= i < m.len() - 1 implies #[trigger] m[i] != Move::Stop by {
        assert(route[i] != Move::Stop);
    }
}

/// On no level from `i` up does the trail of the refinement pass a tied
/// cell.
pub open spec fn refinement_is_tie_free<T, D: Fn(&T, &T) -> T, L: Fn(&T, &T) -> u32>(
    downsample_fn: D,
    loss_fn: L,
    ys: Seq<T>,
    xs: Seq<T>,
    top: int,
    i: int,
) -> bool
    decreases top - i,
{
    &&& trail_is_tie_free(
        level_weights(downsample_fn, loss_fn, ys, xs, i),
        level_region(downsample_fn, loss_fn, ys, xs, top, i),
        level_len(ys.len() as int, i),
        0,
        0,
    )
    &&& i < top ==> refinement_is_tie_free(downsample_fn, loss_fn, ys, xs, top, i + 1)
}

/// On the levels from `i` up, the local loss of a cell is the same when the
/// two signals change places, wherever both regions hold the cell.
pub open spec fn exchange_is_even<T, D: Fn(&T, &T) -> T, L: Fn(&T, &T) -> u32>(
    downsample_fn: D,
    loss_fn: L,
    ys: Seq<T>,
    xs: Seq<T>,
    top: int,
    i: int,
) -> bool
    decreases top - i,
{
    &&& forall|a: int, b: int|
        level_region(downsample_fn, loss_fn, ys, xs, top, i)(b, a) && level_region(
            downsample_fn,
            loss_fn,
            xs,
            ys,
            top,
            i,
        )(a, b) ==> #[trigger] level_weights(downsample_fn, loss_fn, xs, ys, i)(a, b)
            == level_weights(downsample_fn, loss_fn, ys, xs, i)(b, a)
    &&& i < top ==> exchange_is_even(downsample_fn, loss_fn, ys, xs, top, i + 1)
}

/// A loss that does not depend on the order of its two samples is even
/// under exchange on every level.
pub proof fn lemma_symmetric_loss_is_even<T, D: Fn(&T, &T) -> T, L: Fn(&T, &T) -> u32>(
    downsample_fn: D,
    loss_fn: L,
    ys: Seq<T>,
    xs: Seq<T>,
    top: int,
    i: int,
)
    requires
        forall|a: T, b: T| #[trigger]
            value_of::<T, u32, L>(loss_fn, a, b) == value_of::<T, u32, L>(loss_fn, b, a),
    ensures
        exchange_is_even(downsample_fn, loss_fn, ys, xs, top, i),
    decreases top - i,
{
    let ly = level(downsample_fn, ys, i);
    let lx = level(downsample_fn, xs, i);
    assert forall|a: int, b: int| #[trigger]
        level_weights(downsample_fn, loss_fn, xs, ys, i)(a, b) == level_weights(
            downsample_fn,
            loss_fn,
            ys,
            xs,
            i,
        )(b, a) by {
        assert(value_of::<T, u32, L>(loss_fn, lx[a], ly[b]) == value_of::<T, u32, L>(
            loss_fn,
            ly[b],
            lx[a],
        ));
    }
    if i < top {
        lemma_symmetric_loss_is_even(downsample_fn, loss_fn, ys, xs, top, i + 1);
    }
}

/// A loss function whose contract allows only equal results for a pair and
/// the exchanged pair is even under exchange wherever it is known to have
/// returned for both.
pub proof fn lemma_answers_are_even<T, D: Fn(&T, &T) -> T, L: Fn(&T, &T) -> u32>(
    downsample_fn: D,
    loss_fn: L,
    ys: Seq<T>,
    xs: Seq<T>,
    top: int,
    i: int,
)
    requires
        forall|a: T, b: T, p: u32, q: u32| #[trigger]
            call_ensures(loss_fn, (&a, &b), p) && #[trigger] call_ensures(loss_fn, (&b, &a), q)
                ==> p == q,
        refinement_answered(downsample_fn, loss_fn, ys, xs, top, i),
        refinement_answered(downsample_fn, loss_fn, xs, ys, top, i),
    ensures
        exchange_is_even(downsample_fn, loss_fn, ys, xs, top, i),
    decreases top - i,
{
    let ly = level(downsample_fn, ys, i);
    let lx = level(downsample_fn, xs, i);
    assert forall|a: int, b: int|
        level_region(downsample_fn, loss_fn, ys, xs, top, i)(b, a) && level_region(
            downsample_fn,
            loss_fn,
            xs,
            ys,
            top,
            i,
        )(a, b) implies #[trigger] level_weights(downsample_fn, loss_fn, xs, ys, i)(a, b)
        == level_weights(downsample_fn, loss_fn, ys, xs, i)(b, a) by {
        assert(answers::<T, u32, L>(loss_fn, ly[b], lx[a]));
        assert(answers::<T, u32, L>(loss_fn, lx[a], ly[b]));
    }
    if i < top {
        lemma_answers_are_even(downsample_fn, loss_fn, ys, xs, top, i + 1);
    }
}

/// On every level the trail of a refinement is a route on the level's
/// square.
pub proof fn lemma_refined_trail_is_route<T, D: Fn(&T, &T) -> T, L: Fn(&T, &T) -> u32>(
    downsample_fn: D,
    loss_fn: L,
    ys: Seq<T>,
    xs: Seq<T>,
    limit: int,
    i: int,
)
    requires
        1 <= ys.len() <= MAX_SIDE,
        0 <= i <= depth(ys.len() as int, limit),
    ensures
        1 <= level_len(ys.len() as int, i) <= MAX_SIDE,
        is_route(
            trail_moves(
                refined_trail(
                    downsample_fn,
                    loss_fn,
                    ys,
                    xs,
                    depth(ys.len() as int, limit),
                    i,
                ),
            ),
            level_len(ys.len() as int, i),
        ),
        i < depth(ys.len() as int, limit) ==> level_len(ys.len() as int, i) % 2 == 0 && level_len(
            ys.len() as int,
            i,
        ) / 2 == level_len(ys.len() as int, i + 1),
    decreases depth(ys.len() as int, limit) - i,
{
    let n = ys.len() as int;
    let top = depth(n, limit);
    let size = level_len(n, i);
    let w = level_weights(downsample_fn, loss_fn, ys, xs, i);
    lemma_levels_below_depth(n, limit, i);
    if i >= top {
        lemma_square_is_passable(size);
        lemma_trail_is_route(w, square(size), size);
    } else {
        lemma_refined_trail_is_route(downsample_fn, loss_fn, ys, xs, limit, i + 1);
        lemma_levels_below_depth(n, limit, i + 1);
        let above = trail_moves(refined_trail(downsample_fn, loss_fn, ys, xs, top, i + 1));
        lemma_band_is_passable(above, size);
        lemma_trail_is_route(w, band(above), size);
    }
}

/// Where the loss is even under exchange, exchanging the two signals
/// mirrors the trail of every level, as long as no trail passes a tied cell.
pub proof fn lemma_exchange_mirrors_level<T, D: Fn(&T, &T) -> T, L: Fn(&T, &T) -> u32>(
    downsample_fn: D,
    loss_fn: L,
    ys: Seq<T>,
    xs: Seq<T>,
    limit: int,
    i: int,
)
    requires
        1 <= ys.len() <= MAX_SIDE,
        ys.len() == xs.len(),
        0 <= i <= depth(ys.len() as int, limit),
        exchange_is_even(downsample_fn, loss_fn, ys, xs, depth(ys.len() as int, limit), i),
        refinement_is_tie_free(
            downsample_fn,
            loss_fn,
            ys,
            xs,
            depth(ys.len() as int, limit),
            i,
        ),
    ensures
        refined_trail(downsample_fn, loss_fn, xs, ys, depth(ys.len() as int, limit), i)
            == mirrored_trail(
            refined_trail(downsample_fn, loss_fn, ys, xs, depth(ys.len() as int, limit), i),
        ),
    decreases depth(ys.len() as int, limit) - i,
{
    let n = ys.len() as int;
    let top = depth(n, limit);
    let size = level_len(n, i);
    let w = level_weights(downsample_fn, loss_fn, ys, xs, i);
    let w2 = level_weights(downsample_fn, loss_fn, xs, ys, i);
    let r = level_region(downsample_fn, loss_fn, ys, xs, top, i);
    let r2 = level_region(downsample_fn, loss_fn, xs, ys, top, i);
    lemma_refined_trail_is_route(downsample_fn, loss_fn, ys, xs, limit, i);
    if i >= top {
        lemma_square_is_passable(size);
        assert forall|a: int, b: int| #[trigger] r2(a, b) == r(b, a) by {}
    } else {
        lemma_exchange_mirrors_level(downsample_fn, loss_fn, ys, xs, limit, i + 1);
        lemma_refined_trail_is_route(downsample_fn, loss_fn, ys, xs, limit, i + 1);
        let above = refined_trail(downsample_fn, loss_fn, ys, xs, top, i + 1);
        let above2 = refined_trail(downsample_fn, loss_fn, xs, ys, top, i + 1);
        let g = trail_moves(above);
        let g2 = trail_moves(above2);
        assert(g2 =~= mirrored_moves(g));
        assert forall|a: int, b: int| #[trigger] r2(a, b) == r(b, a) by {
            lemma_band_mirrors(g, g.len() - 1, b, a);
        }
        lemma_band_is_passable(g, size);
    }
    assert forall|a: int, b: int| r(b, a) implies #[trigger] w2(a, b) == w(b, a) by {
        assert(r2(a, b));
    }
    assert(transposes(w, r, w2, r2));
    assert(r(0, 0));
    lemma_trail_transposes(w, r, w2, r2, size, 0, 0);
}

/// Where the loss is even under exchange, solving the two signals in
/// exchanged places gives the mirror image of the path, as long as no trail
/// of the refinement passes a tied cell.
pub proof fn lemma_exchanged_signals_give_mirrored_path<
    T,
    D: Fn(&T, &T) -> T,
    L: Fn(&T, &T) -> u32,
>(downsample_fn: D, loss_fn: L, ys: Seq<T>, xs: Seq<T>, limit: int)
    requires
        1 <= ys.len() <= MAX_SIDE,
        ys.len() == xs.len(),
        exchange_is_even(downsample_fn, loss_fn, ys, xs, depth(ys.len() as int, limit), 0),
        refinement_is_tie_free(
            downsample_fn,
            loss_fn,
            ys,
            xs,
            depth(ys.len() as int, limit),
            0,
        ),
    ensures
        refined_trail(downsample_fn, loss_fn, xs, ys, depth(xs.len() as int, limit), 0)
            == mirrored_trail(
            refined_trail(downsample_fn, loss_fn, ys, xs, depth(ys.len() as int, limit), 0),
        ),
{
    lemma_depth_at_most_limit(ys.len() as int, limit);
    lemma_exchange_mirrors_level(downsample_fn, loss_fn, ys, xs, limit, 0);
}

/// On every level but the coarsest, the cost that the refinement finds in
/// the far corner is at most the total of local losses along the doubled
/// trail of the level above.
pub proof fn lemma_refinement_beats_doubling<T, D: Fn(&T, &T) -> T, L: Fn(&T, &T) -> u32>(
    downsample_fn: D,
    loss_fn: L,
    ys: Seq<T>,
    xs: Seq<T>,
    limit: int,
    i: int,
)
    requires
        1 <= ys.len() <= MAX_SIDE,
        0 <= i < depth(ys.len() as int, limit),
    ensures
        refined_trail(
            downsample_fn,
            loss_fn,
            ys,
            xs,
            depth(ys.len() as int, limit),
            i,
        ).last().cost <= walk_loss(
            level_weights(downsample_fn, loss_fn, ys, xs, i),
            doubled(
                trail_moves(
                    refined_trail(
                        downsample_fn,
                        loss_fn,
                        ys,
                        xs,
                        depth(ys.len() as int, limit),
                        i + 1,
                    ),
                ),
            ),
            doubled(
                trail_moves(
                    refined_trail(
                        downsample_fn,
                        loss_fn,
                        ys,
                        xs,
                        depth(ys.len() as int, limit),
                        i + 1,
                    ),
                ),
            ).len() - 1,
        ),
{
    let n = ys.len() as int;
    let top = depth(n, limit);
    let size = level_len(n, i);
    let w = level_weights(downsample_fn, loss_fn, ys, xs, i);
    lemma_refined_trail_is_route(downsample_fn, loss_fn, ys, xs, limit, i);
    lemma_refined_trail_is_route(downsample_fn, loss_fn, ys, xs, limit, i + 1);
    let above = trail_moves(refined_trail(downsample_fn, loss_fn, ys, xs, top, i + 1));
    lemma_band_beats_doubled_guide(w, above, size);
}

/// A solve without coarser levels ends in the least total of local losses:
/// the last point of its path carries a cost that no route undercuts and
/// that the cheapest walk to the far corner, followed by `Stop`, attains.
pub proof fn lemma_unrefined_solve_is_exact<T, D: Fn(&T, &T) -> T, L: Fn(&T, &T) -> u32>(
    downsample_fn: D,
    loss_fn: L,
    ys: Seq<T>,
    xs: Seq<T>,
    moves: Seq<Move>,
)
    requires
        1 <= ys.len() <= MAX_SIDE,
        is_route(moves, ys.len() as int),
    ensures
        refined_trail(downsample_fn, loss_fn, ys, xs, 0, 0).last().cost <= walk_loss(
            weights(loss_fn, ys, xs),
            moves,
            moves.len() - 1,
        ),
        is_route(
            cheapest_walk(
                weights(loss_fn, ys, xs),
                square(ys.len() as int),
                ys.len() - 1,
                ys.len() - 1,
            ).push(Move::Stop),
            ys.len() as int,
        ),
        refined_trail(downsample_fn, loss_fn, ys, xs, 0, 0).last().cost == walk_loss(
            weights(loss_fn, ys, xs),
            cheapest_walk(
                weights(loss_fn, ys, xs),
                square(ys.len() as int),
                ys.len() - 1,
                ys.len() - 1,
            ).push(Move::Stop),
            cheapest_walk(
                weights(loss_fn, ys, xs),
                square(ys.len() as int),
                ys.len() - 1,
                ys.len() - 1,
            ).len() as int,
        ),
{
    assert(level(downsample_fn, ys, 0) == ys);
    assert(level(downsample_fn, xs, 0) == xs);
    lemma_whole_square_is_exact(weights(loss_fn, ys, xs), ys.len() as int, moves);
}

} // verus!
