//! The table of onward costs and moves, and the walk that reads a path off
//! it.

use crate::grid::Grid;
use crate::loss_map::{capped_sum, differs_only_at, least3, losses_agree};
use crate::model::{
    cumulative_loss, has_way_on, is_passable, lemma_cumulative_loss_below_ceiling,
    lemma_onward_in_passable, lemma_square_is_passable, onward, square, trail, Onward, Region,
    Weights, INFINITY, MAX_SIDE,
};
use crate::path::{
    col_after, is_route, lemma_position_of_prefix, lemma_route_stays_below, row_after,
    stays_below, Move, Path, PathPoint,
};
use vstd::prelude::*;

verus! {

/// The table entry that records an onward cost and move.
pub open spec fn point_of(o: Onward) -> PathPoint {
    PathPoint { loss: o.cost as u64, to_parent: o.to_parent }
}

/// The table entries for the points of a trail.
pub open spec fn points_of(t: Seq<Onward>) -> Seq<PathPoint> {
    Seq::new(t.len(), |i: int| point_of(t[i]))
}

/// The onward cost that a cell reads from a neighbour: `INFINITY` where the
/// neighbour's cumulative loss is `INFINITY`, the neighbour's recorded cost
/// otherwise.
pub open spec fn gated(losses: Grid<u64>, paths: Grid<PathPoint>, y: int, x: int) -> u64 {
    if losses.at(y, x) == INFINITY {
        INFINITY
    } else {
        paths.at(y, x).loss
    }
}

/// The entry that a cell of the onward table gets on a square of side
/// `size`, from the two tables as they stand.
///
/// The far corner records its cumulative loss and stops. A cell of the last
/// row adds the cost of its right neighbour and moves right; one of the last
/// column adds the cost of its upper neighbour and moves up. Any other cell
/// adds the least of the three gated costs and moves to where that came
/// from, the diagonal before the vertical before the horizontal. Sums stop
/// at `INFINITY`.
pub open spec fn path_cell_value(
    losses: Grid<u64>,
    paths: Grid<PathPoint>,
    size: int,
    y: int,
    x: int,
) -> PathPoint {
    let here = losses.at(y, x);
    if y == size - 1 && x == size - 1 {
        PathPoint { loss: here, to_parent: Move::Stop }
    } else if y == size - 1 {
        PathPoint { loss: capped_sum(here, paths.at(y, x + 1).loss), to_parent: Move::Horizontal }
    } else if x == size - 1 {
        PathPoint { loss: capped_sum(here, paths.at(y + 1, x).loss), to_parent: Move::Vertical }
    } else {
        let up = gated(losses, paths, y + 1, x);
        let right = gated(losses, paths, y, x + 1);
        let diag = gated(losses, paths, y + 1, x + 1);
        let least = least3(up, right, diag);
        PathPoint {
            loss: capped_sum(here, least),
            to_parent: if diag == least {
                Move::Diagonal
            } else if up == least {
                Move::Vertical
            } else {
                Move::Horizontal
            },
        }
    }
}

/// In every cell of the region the table holds the onward cost and move.
pub open spec fn paths_agree(p: Grid<PathPoint>, w: Weights, r: Region, size: int) -> bool {
    forall|y: int, x: int| r(y, x) ==> #[trigger] p.at(y, x) == point_of(onward(w, r, size, y, x))
}

/// What a cell may rely on in a neighbour: inside the region both tables are
/// right there, outside the region the loss table holds `INFINITY`.
pub open spec fn neighbour_ready(
    losses: Grid<u64>,
    paths: Grid<PathPoint>,
    w: Weights,
    r: Region,
    size: int,
    y: int,
    x: int,
) -> bool {
    0 <= y < size && 0 <= x < size ==> if r(y, x) {
        losses.at(y, x) == cumulative_loss(w, r, y, x) && paths.at(y, x) == point_of(
            onward(w, r, size, y, x),
        )
    } else {
        losses.at(y, x) == INFINITY
    }
}

/// A cell of a passable region computed from neighbours that are ready
/// holds the onward cost and move.
pub proof fn lemma_path_cell_matches(
    losses: Grid<u64>,
    paths: Grid<PathPoint>,
    w: Weights,
    r: Region,
    size: int,
    y: int,
    x: int,
)
    requires
        is_passable(r, size),
        size <= MAX_SIDE,
        r(y, x),
        losses.at(y, x) == cumulative_loss(w, r, y, x),
        neighbour_ready(losses, paths, w, r, size, y + 1, x),
        neighbour_ready(losses, paths, w, r, size, y, x + 1),
        neighbour_ready(losses, paths, w, r, size, y + 1, x + 1),
    ensures
        path_cell_value(losses, paths, size, y, x) == point_of(onward(w, r, size, y, x)),
{
    reveal(onward);
    lemma_cumulative_loss_below_ceiling(w, r, size, y, x);
    lemma_onward_in_passable(w, r, size, y, x);
    if !(y == size - 1 && x == size - 1) {
        assert(has_way_on(r, size, y, x));
    }
    if r(y + 1, x) {
        lemma_cumulative_loss_below_ceiling(w, r, size, y + 1, x);
        lemma_onward_in_passable(w, r, size, y + 1, x);
    }
    if r(y, x + 1) {
        lemma_cumulative_loss_below_ceiling(w, r, size, y, x + 1);
        lemma_onward_in_passable(w, r, size, y, x + 1);
    }
    if r(y + 1, x + 1) {
        lemma_cumulative_loss_below_ceiling(w, r, size, y + 1, x + 1);
        lemma_onward_in_passable(w, r, size, y + 1, x + 1);
    }
}

/// Computes one cell of the onward table from the loss table and from the
/// onward entries above it, to its right and diagonally above, as they
/// stand.
pub fn calc_path_cell(
    losses: &Grid<u64>,
    paths: &mut Grid<PathPoint>,
    size: usize,
    y: usize,
    x: usize,
)
    requires
        losses.wf(),
        old(paths).wf(),
        losses.side() == old(paths).side(),
        size <= losses.side(),
        y < size,
        x < size,
    ensures
        differs_only_at(*final(paths), *old(paths), y as int, x as int),
        final(paths).at(y as int, x as int) == path_cell_value(
            *losses,
            *old(paths),
            size as int,
            y as int,
            x as int,
        ),
{
    let here = losses.get(y, x);
    if y == size - 1 && x == size - 1 {
        paths.set(y, x, PathPoint { loss: here, to_parent: Move::Stop });
        return ;
    }
    if y == size - 1 {
        let next = paths.get(y, x + 1).loss;
        paths.set(y, x, PathPoint { loss: here.saturating_add(next), to_parent: Move::Horizontal });
        return ;
    }
    if x == size - 1 {
        let next = paths.get(y + 1, x).loss;
        paths.set(y, x, PathPoint { loss: here.saturating_add(next), to_parent: Move::Vertical });
        return ;
    }
    let vertical_loss = if losses.get(y + 1, x) == INFINITY {
        INFINITY
    } else {
        paths.get(y + 1, x).loss
    };
    let horizontal_loss = if losses.get(y, x + 1) == INFINITY {
        INFINITY
    } else {
        paths.get(y, x + 1).loss
    };
    let diag_loss = if losses.get(y + 1, x + 1) == INFINITY {
        INFINITY
    } else {
        paths.get(y + 1, x + 1).loss
    };
    let mut min_loss = vertical_loss;
    if horizontal_loss < min_loss {
        min_loss = horizontal_loss;
    }
    if diag_loss < min_loss {
        min_loss = diag_loss;
    }
    let to_parent = if diag_loss == min_loss {
        Move::Diagonal
    } else if vertical_loss == min_loss {
        Move::Vertical
    } else {
        Move::Horizontal
    };
    paths.set(y, x, PathPoint { loss: here.saturating_add(min_loss), to_parent });
}

/// Fills the square of side `size` with onward costs and moves, row by row
/// from the last row and within a row from the last column.
pub fn fill_paths(
    losses: &Grid<u64>,
    paths: &mut Grid<PathPoint>,
    size: usize,
    Ghost(w): Ghost<Weights>,
)
    requires
        losses.wf(),
        old(paths).wf(),
        losses.side() == old(paths).side(),
        1 <= size <= losses.side(),
        size <= MAX_SIDE,
        losses_agree(*losses, w, square(size as int)),
    ensures
        final(paths).wf(),
        final(paths).side() == old(paths).side(),
        paths_agree(*final(paths), w, square(size as int), size as int),
        forall|a: int, b: int|
            0 <= a < old(paths).side() && 0 <= b < old(paths).side() && !(a < size && b < size)
                ==> #[trigger] final(paths).at(a, b) == old(paths).at(a, b),
{
    let ghost r = square(size as int);
    proof {
        lemma_square_is_passable(size as int);
    }
    let mut y: usize = size;
    while y > 0
        invariant
            y <= size,
            losses.wf(),
            paths.wf(),
            paths.side() == old(paths).side(),
            losses.side() == paths.side(),
            1 <= size <= losses.side(),
            size <= MAX_SIDE,
            r == square(size as int),
            is_passable(r, size as int),
            losses_agree(*losses, w, r),
            forall|a: int, b: int|
                0 <= a < paths.side() && 0 <= b < paths.side() && !(a < size && b < size)
                    ==> #[trigger] paths.at(a, b) == old(paths).at(a, b),
            forall|a: int, b: int|
                y <= a < size && 0 <= b < size ==> #[trigger] paths.at(a, b) == point_of(
                    onward(w, r, size as int, a, b),
                ),
        decreases y,
    {
        y -= 1;
        let mut x: usize = size;
        while x > 0
            invariant
                y < size,
                x <= size,
                losses.wf(),
                paths.wf(),
                paths.side() == old(paths).side(),
                losses.side() == paths.side(),
                1 <= size <= losses.side(),
                size <= MAX_SIDE,
                r == square(size as int),
                is_passable(r, size as int),
                losses_agree(*losses, w, r),
                forall|a: int, b: int|
                    0 <= a < paths.side() && 0 <= b < paths.side() && !(a < size && b < size)
                        ==> #[trigger] paths.at(a, b) == old(paths).at(a, b),
                forall|a: int, b: int|
                    y < a < size && 0 <= b < size ==> #[trigger] paths.at(a, b) == point_of(
                        onward(w, r, size as int, a, b),
                    ),
                forall|b: int|
                    x <= b < size ==> #[trigger] paths.at(y as int, b) == point_of(
                        onward(w, r, size as int, y as int, b),
                    ),
            decreases x,
        {
            x -= 1;
            proof {
                assert(r(y as int, x as int));
                assert(r(y + 1, x as int) == (y + 1 < size));
                assert(r(y as int, x + 1) == (x + 1 < size));
                assert(r(y + 1, x + 1) == (y + 1 < size && x + 1 < size));
                lemma_path_cell_matches(*losses, *paths, w, r, size as int, y as int, x as int);
            }
            calc_path_cell(losses, paths, size, y, x);
        }
    }
}

/// The entries met by following the recorded moves from cell (`y`, `x`)
/// until an entry stops or the square is left.
pub open spec fn grid_trail(p: Grid<PathPoint>, size: int, y: int, x: int) -> Seq<PathPoint>
    decreases 2 * size - y - x,
{
    if !(0 <= y < size && 0 <= x < size) {
        Seq::empty()
    } else {
        let here = p.at(y, x);
        if here.to_parent == Move::Stop {
            seq![here]
        } else {
            seq![here] + grid_trail(p, size, y + here.to_parent.rise(), x + here.to_parent.run())
        }
    }
}

/// Following the recorded moves from cell (`y`, `x`) stays on the square and
/// stops in its far corner, and nowhere else.
pub open spec fn leads_home(p: Grid<PathPoint>, size: int, y: int, x: int) -> bool
    decreases 2 * size - y - x,
{
    if !(0 <= y < size && 0 <= x < size) {
        false
    } else {
        let here = p.at(y, x);
        if here.to_parent == Move::Stop {
            y == size - 1 && x == size - 1
        } else {
            leads_home(p, size, y + here.to_parent.rise(), x + here.to_parent.run())
        }
    }
}

/// On a table that agrees with the model on a passable region, the recorded
/// moves lead from every cell of the region to the far corner, along the
/// trail of the model.
pub proof fn lemma_trail_follows_model(
    p: Grid<PathPoint>,
    w: Weights,
    r: Region,
    size: int,
    y: int,
    x: int,
)
    requires
        is_passable(r, size),
        size <= MAX_SIDE,
        paths_agree(p, w, r, size),
        r(y, x),
    ensures
        leads_home(p, size, y, x),
        grid_trail(p, size, y, x) == points_of(trail(w, r, size, y, x)),
    decreases 2 * size - y - x,
{
    lemma_onward_in_passable(w, r, size, y, x);
    let here = onward(w, r, size, y, x);
    assert(p.at(y, x) == point_of(here));
    if here.to_parent != Move::Stop {
        let ny = y + here.to_parent.rise();
        let nx = x + here.to_parent.run();
        lemma_trail_follows_model(p, w, r, size, ny, nx);
        assert(grid_trail(p, size, y, x) =~= points_of(trail(w, r, size, y, x)));
    } else {
        assert(grid_trail(p, size, y, x) =~= points_of(trail(w, r, size, y, x)));
    }
}

/// Reads the path off the onward table: from cell (0, 0) it records each
/// entry met and follows its move, and ends with the entry that stops.
pub fn best_path<const MAX_PATH_LEN: usize>(paths: &Grid<PathPoint>, size: usize) -> (path: Path<
    MAX_PATH_LEN,
>)
    requires
        paths.wf(),
        size <= paths.side(),
        MAX_PATH_LEN >= 2 * size - 1,
        leads_home(*paths, size as int, 0, 0),
    ensures
        path.wf(),
        path@ == grid_trail(*paths, size as int, 0, 0),
        is_route(path.moves(), size as int),
        stays_below(path.moves(), size as int),
        path@.len() <= 2 * size - 1,
{
    let mut y: usize = 0;
    let mut x: usize = 0;
    let mut path = Path::empty(false);
    loop
        invariant_except_break
            y < size,
            x < size,
            path.wf(),
            path@.len() <= y + x,
            leads_home(*paths, size as int, y as int, x as int),
            grid_trail(*paths, size as int, 0, 0) == path@ + grid_trail(
                *paths,
                size as int,
                y as int,
                x as int,
            ),
            forall|i: int| 0 <= i < path@.len() ==> (#[trigger] path@[i]).to_parent != Move::Stop,
            y == row_after(path.moves(), path@.len() as int),
            x == col_after(path.moves(), path@.len() as int),
        invariant
            paths.wf(),
            size <= paths.side(),
            MAX_PATH_LEN >= 2 * size - 1,
        ensures
            path.wf(),
            path@ == grid_trail(*paths, size as int, 0, 0),
            is_route(path.moves(), size as int),
            path@.len() <= 2 * size - 1,
        decreases 2 * size - y - x,
    {
        let current_cell = paths.get(y, x);
        let ghost before = path@;
        let ghost moves_before = path.moves();
        path.push(current_cell);
        proof {
            lemma_position_of_prefix(moves_before, path.moves(), before.len() as int);
            assert(path.moves()[before.len() as int] == current_cell.to_parent);
        }
        match current_cell.to_parent {
            Move::Vertical => {
                y += 1;
            },
            Move::Horizontal => {
                x += 1;
            },
            Move::Diagonal => {
                y += 1;
                x += 1;
            },
            Move::Stop => {
                proof {
                    assert(grid_trail(*paths, size as int, y as int, x as int) =~= seq![
                        current_cell,
                    ]);
                    assert(path@ =~= before + seq![current_cell]);
                }
                break ;
            },
        }
        proof {
            let py = y - current_cell.to_parent.rise();
            let px = x - current_cell.to_parent.run();
            assert(leads_home(*paths, size as int, py, px));
            assert(leads_home(*paths, size as int, y as int, x as int));
            assert(path@ + grid_trail(*paths, size as int, y as int, x as int) =~= before
                + grid_trail(
                *paths,
                size as int,
                y - current_cell.to_parent.rise(),
                x - current_cell.to_parent.run(),
            ));
        }
    }
    proof {
        lemma_route_stays_below(path.moves(), size as int);
    }
    path
}

} // verus!
