//! The mathematics that the solver computes.
//!
//! All of it is stated over a table of local losses `w(y, x)` and a region of
//! the grid. With the whole square as region this is plain dynamic time
//! warping; with a band as region it is the refinement step of the
//! multi-resolution scheme.

use crate::path::{col_after, is_route, row_after, Move};
use vstd::prelude::*;

verus! {

/// The local loss of pairing sample `y` of the first signal with sample `x`
/// of the second.
pub type Weights = spec_fn(int, int) -> u32;

/// The cells of the grid that take part in a computation.
pub type Region = spec_fn(int, int) -> bool;

/// The value that stands for "no path": larger than every cost that can
/// arise on a grid of at most `MAX_SIDE` rows.
pub const INFINITY: u64 = 0xffff_ffff_ffff_ffff;

/// The largest grid side for which no sum of costs can reach `INFINITY`.
pub const MAX_SIDE: usize = 32768;

/// No cumulative loss on a grid of at most `MAX_SIDE` rows reaches this.
pub open spec fn loss_ceiling() -> int {
    0x1_0000_0000_0000
}

/// The whole square of side `side`.
pub open spec fn square(side: int) -> Region {
    |y: int, x: int| 0 <= y < side && 0 <= x < side
}

/// The smaller of two optional costs, where `None` means "no path" and
/// the first wins a tie.
pub open spec fn lesser(a: Option<int>, b: Option<int>) -> Option<int> {
    match (a, b) {
        (None, _) => b,
        (_, None) => a,
        (Some(p), Some(q)) => if p <= q {
            a
        } else {
            b
        },
    }
}

/// The least total of local losses over the monotone paths that run inside
/// the region from a cell without predecessor to cell (`y`, `x`), the losses
/// of both ends included.
pub open spec fn cumulative_loss(w: Weights, r: Region, y: int, x: int) -> int
    decreases y + x,
{
    if y < 0 || x < 0 {
        0
    } else {
        let left = if x > 0 && r(y, x - 1) {
            Some(cumulative_loss(w, r, y, x - 1))
        } else {
            None
        };
        let down = if y > 0 && r(y - 1, x) {
            Some(cumulative_loss(w, r, y - 1, x))
        } else {
            None
        };
        let both = if y > 0 && x > 0 && r(y - 1, x - 1) {
            Some(cumulative_loss(w, r, y - 1, x - 1))
        } else {
            None
        };
        w(y, x) + match lesser(left, lesser(down, both)) {
            Some(m) => m,
            None => 0,
        }
    }
}

/// What the onward table holds for a cell: the cost of the best way on to
/// the far corner and the first move of that way.
pub struct Onward {
    pub cost: int,
    pub to_parent: Move,
}

/// The move that wins among the three onward costs: the cheapest, and among
/// equally cheap ones the diagonal before the vertical before the
/// horizontal. With no way on at all the diagonal is recorded.
pub open spec fn winner(up: Option<int>, right: Option<int>, diag: Option<int>) -> Move {
    let best = lesser(up, lesser(right, diag));
    if diag == best {
        Move::Diagonal
    } else if up == best {
        Move::Vertical
    } else {
        Move::Horizontal
    }
}

/// The onward cost and move of cell (`y`, `x`) on a grid of side `side`.
///
/// The far corner stops. A cell of the last row moves right and one of the
/// last column moves up. Any other cell adds its cumulative loss to the
/// least onward cost among its three successors that lie in the region.
#[verifier::opaque]
pub open spec fn onward(w: Weights, r: Region, side: int, y: int, x: int) -> Onward
    decreases 2 * side - y - x,
{
    let here = cumulative_loss(w, r, y, x);
    if !(0 <= y < side && 0 <= x < side) {
        Onward { cost: INFINITY as int, to_parent: Move::Stop }
    } else if y == side - 1 && x == side - 1 {
        Onward { cost: here, to_parent: Move::Stop }
    } else if y == side - 1 {
        Onward { cost: here + onward(w, r, side, y, x + 1).cost, to_parent: Move::Horizontal }
    } else if x == side - 1 {
        Onward { cost: here + onward(w, r, side, y + 1, x).cost, to_parent: Move::Vertical }
    } else {
        let up = if r(y + 1, x) {
            Some(onward(w, r, side, y + 1, x).cost)
        } else {
            None
        };
        let right = if r(y, x + 1) {
            Some(onward(w, r, side, y, x + 1).cost)
        } else {
            None
        };
        let diag = if r(y + 1, x + 1) {
            Some(onward(w, r, side, y + 1, x + 1).cost)
        } else {
            None
        };
        Onward {
            cost: match lesser(up, lesser(right, diag)) {
                Some(m) => here + m,
                None => INFINITY as int,
            },
            to_parent: winner(up, right, diag),
        }
    }
}

/// The points met by following the onward moves from cell (`y`, `x`) until
/// a cell stops or the grid is left.
pub open spec fn trail(w: Weights, r: Region, side: int, y: int, x: int) -> Seq<Onward>
    decreases 2 * side - y - x,
{
    if !(0 <= y < side && 0 <= x < side) {
        Seq::empty()
    } else {
        let here = onward(w, r, side, y, x);
        if here.to_parent == Move::Stop {
            seq![here]
        } else {
            seq![here] + trail(w, r, side, y + here.to_parent.rise(), x + here.to_parent.run())
        }
    }
}

/// The moves of a trail, in order.
pub open spec fn trail_moves(t: Seq<Onward>) -> Seq<Move> {
    Seq::new(t.len(), |i: int| t[i].to_parent)
}

/// Cell (`y`, `x`) has a successor in the region among the cells that it may
/// move to: the right one in the last row, the upper one in the last column,
/// any of the three elsewhere.
pub open spec fn has_way_on(r: Region, side: int, y: int, x: int) -> bool {
    &&& y == side - 1 ==> r(y, x + 1)
    &&& x == side - 1 ==> r(y + 1, x)
    &&& y < side - 1 && x < side - 1 ==> r(y + 1, x) || r(y, x + 1) || r(y + 1, x + 1)
}

/// A region in which the onward moves never run into a dead end: it lies in
/// the square, holds both corners, and each of its cells other than the far
/// corner has a way on.
pub open spec fn is_passable(r: Region, side: int) -> bool {
    &&& side >= 1
    &&& r(0, 0)
    &&& r(side - 1, side - 1)
    &&& forall|y: int, x: int| #[trigger] r(y, x) ==> 0 <= y < side && 0 <= x < side
    &&& forall|y: int, x: int|
        r(y, x) && !(y == side - 1 && x == side - 1) ==> #[trigger] has_way_on(r, side, y, x)
}

/// A cumulative loss is a sum of at most `y + x + 1` local losses.
pub proof fn lemma_cumulative_loss_bound(w: Weights, r: Region, y: int, x: int)
    requires
        0 <= y,
        0 <= x,
    ensures
        0 <= cumulative_loss(w, r, y, x) <= (y + x + 1) * 0xffff_ffff,
    decreases y + x,
{
    if x > 0 {
        lemma_cumulative_loss_bound(w, r, y, x - 1);
    }
    if y > 0 {
        lemma_cumulative_loss_bound(w, r, y - 1, x);
    }
    if y > 0 && x > 0 {
        lemma_cumulative_loss_bound(w, r, y - 1, x - 1);
    }
}

/// On a grid of at most `MAX_SIDE` rows every cumulative loss stays below
/// the ceiling.
pub proof fn lemma_cumulative_loss_below_ceiling(w: Weights, r: Region, side: int, y: int, x: int)
    requires
        0 <= y < side,
        0 <= x < side,
        side <= MAX_SIDE,
    ensures
        0 <= cumulative_loss(w, r, y, x) < loss_ceiling(),
{
    lemma_cumulative_loss_bound(w, r, y, x);
}

/// In a passable region the onward cost of a cell is a sum of cumulative
/// losses, one for each cell that is still to come, and the onward move
/// leads to a cell of the region.
pub proof fn lemma_onward_in_passable(w: Weights, r: Region, side: int, y: int, x: int)
    requires
        is_passable(r, side),
        side <= MAX_SIDE,
        r(y, x),
    ensures
        0 <= onward(w, r, side, y, x).cost <= (2 * side - 1 - y - x) * loss_ceiling(),
        onward(w, r, side, y, x).cost < INFINITY,
        (onward(w, r, side, y, x).to_parent == Move::Stop) <==> (y == side - 1 && x == side - 1),
        r(
            y + onward(w, r, side, y, x).to_parent.rise(),
            x + onward(w, r, side, y, x).to_parent.run(),
        ),
    decreases 2 * side - y - x,
{
    reveal(onward);
    lemma_cumulative_loss_below_ceiling(w, r, side, y, x);
    if y == side - 1 && x == side - 1 {
    } else if y == side - 1 {
        assert(has_way_on(r, side, y, x));
        lemma_onward_in_passable(w, r, side, y, x + 1);
    } else if x == side - 1 {
        assert(has_way_on(r, side, y, x));
        lemma_onward_in_passable(w, r, side, y + 1, x);
    } else {
        assert(has_way_on(r, side, y, x));
        if r(y + 1, x) {
            lemma_onward_in_passable(w, r, side, y + 1, x);
        }
        if r(y, x + 1) {
            lemma_onward_in_passable(w, r, side, y, x + 1);
        }
        if r(y + 1, x + 1) {
            lemma_onward_in_passable(w, r, side, y + 1, x + 1);
        }
    }
    assert((2 * side - 1 - y - x) * loss_ceiling() < INFINITY) by (nonlinear_arith)
        requires
            0 <= 2 * side - 1 - y - x <= 65535,
            loss_ceiling() == 0x1_0000_0000_0000,
            INFINITY == 0xffff_ffff_ffff_ffff,
    ;
}

/// The whole square is passable.
pub proof fn lemma_square_is_passable(side: int)
    requires
        side >= 1,
    ensures
        is_passable(square(side), side),
{
}

/// The position after a first move and `k` further ones.
pub proof fn lemma_position_after_first(first: Move, rest: Seq<Move>, k: int)
    requires
        0 <= k <= rest.len(),
    ensures
        row_after(seq![first] + rest, k + 1) == first.rise() + row_after(rest, k),
        col_after(seq![first] + rest, k + 1) == first.run() + col_after(rest, k),
    decreases k,
{
    let all = seq![first] + rest;
    if k > 0 {
        lemma_position_after_first(first, rest, k - 1);
        assert(all[k] == rest[k - 1]);
    } else {
        assert(all[0] == first);
        assert(row_after(all, 0) == 0);
        assert(col_after(all, 0) == 0);
    }
}

/// In a passable region the trail from a cell of the region runs to the far
/// corner: only its last point stops, that point carries the cumulative loss
/// of the far corner, and every point lies in the region.
pub proof fn lemma_trail_reaches_corner(w: Weights, r: Region, side: int, y: int, x: int)
    requires
        is_passable(r, side),
        side <= MAX_SIDE,
        r(y, x),
    ensures
        1 <= trail(w, r, side, y, x).len() <= 2 * side - 1 - y - x,
        trail(w, r, side, y, x).last().to_parent == Move::Stop,
        trail(w, r, side, y, x).last().cost == cumulative_loss(w, r, side - 1, side - 1),
        trail(w, r, side, y, x)[0] == onward(w, r, side, y, x),
        forall|i: int|
            0 <= i < trail(w, r, side, y, x).len() - 1 ==> (#[trigger] trail(
                w,
                r,
                side,
                y,
                x,
            )[i]).to_parent != Move::Stop,
        row_after(trail_moves(trail(w, r, side, y, x)), trail(w, r, side, y, x).len() - 1) == side
            - 1 - y,
        col_after(trail_moves(trail(w, r, side, y, x)), trail(w, r, side, y, x).len() - 1) == side
            - 1 - x,
    decreases 2 * side - y - x,
{
    lemma_onward_in_passable(w, r, side, y, x);
    let here = onward(w, r, side, y, x);
    let t = trail(w, r, side, y, x);
    if here.to_parent == Move::Stop {
        reveal(onward);
        assert(t =~= seq![here]);
    } else {
        let ny = y + here.to_parent.rise();
        let nx = x + here.to_parent.run();
        lemma_trail_reaches_corner(w, r, side, ny, nx);
        let rest = trail(w, r, side, ny, nx);
        assert(t =~= seq![here] + rest);
        assert(trail_moves(t) =~= seq![here.to_parent] + trail_moves(rest));
        lemma_position_after_first(here.to_parent, trail_moves(rest), rest.len() - 1);
        assert forall|i: int| 0 <= i < t.len() - 1 implies (#[trigger] t[i]).to_parent
            != Move::Stop by {
            if i > 0 {
                assert(t[i] == rest[i - 1]);
            }
        }
    }
}

/// In a passable region the moves of the trail from the near corner are a
/// route.
pub proof fn lemma_trail_is_route(w: Weights, r: Region, side: int)
    requires
        is_passable(r, side),
        side <= MAX_SIDE,
    ensures
        is_route(trail_moves(trail(w, r, side, 0, 0)), side),
        trail(w, r, side, 0, 0).last().cost == cumulative_loss(w, r, side - 1, side - 1),
{
    lemma_trail_reaches_corner(w, r, side, 0, 0);
    let t = trail(w, r, side, 0, 0);
    assert forall|i: int| 0 <= i < trail_moves(t).len() - 1 implies #[trigger] trail_moves(t)[i]
        != Move::Stop by {
        assert(t[i].to_parent != Move::Stop);
    }
}

} // verus!
