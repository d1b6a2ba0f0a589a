//! The solver: it owns the two tables, builds the ladders of coarser
//! signals and refines a path from the coarsest level down to the signals
//! themselves.

use crate::band::{band, lemma_band_is_passable};
use crate::downsample::{
    build_ladder, depth, effective_limit, halving_answered, is_ladder, lemma_level_len,
    lemma_levels_below_depth, level, level_len, };
use crate::grid::Grid;
use crate::loss_band::{fill_band_losses, marked};
use crate::loss_map::{
    calc_loss_cell, differs_only_at, fenced, fill_losses, loss_cell_value, losses_agree,
    margin_cell, region_answered, weights,
};
use crate::model::{
    lemma_square_is_passable, square, trail, trail_moves, Onward, Region, Weights, INFINITY,
    MAX_SIDE,
};
use crate::path::{is_route, moves_of, stays_below, Move, Path, PathPoint};
use crate::path_band::fill_band_paths;
use crate::path_map::{
    best_path, calc_path_cell, fill_paths, grid_trail, leads_home, lemma_trail_follows_model,
    path_cell_value, paths_agree, points_of,
};
use crate::plugin::{answers, is_pure};
use vstd::prelude::*;

verus! {

/// The most coarser levels that a solve builds for a signal.
pub const MAX_DOWNSAMPLES: usize = 16;

/// The region in which a level is solved: the band of the guide if there is
/// one, the whole square of side `size` if there is none.
pub open spec fn guide_region(guide: Option<Seq<Move>>, size: int) -> Region {
    match guide {
        Some(route) => band(route),
        None => square(size),
    }
}

/// Cell (`a`, `b`) is marked with `INFINITY` when the loss table is filled
/// for the guide on a square of side `size`.
pub open spec fn guide_marks(guide: Option<Seq<Move>>, size: int, a: int, b: int) -> bool {
    match guide {
        Some(route) => marked(route, size, a, b),
        None => margin_cell(size, a, b),
    }
}

/// The loss table after it has been filled for the guide: right and fenced
/// on the region of the guide, `INFINITY` in the marked cells outside it,
/// and as before everywhere else.
pub open spec fn losses_filled(
    before: Grid<u64>,
    after: Grid<u64>,
    w: Weights,
    guide: Option<Seq<Move>>,
    size: int,
) -> bool {
    &&& after.wf()
    &&& after.side() == before.side()
    &&& losses_agree(after, w, guide_region(guide, size))
    &&& fenced(after, guide_region(guide, size), size)
    &&& forall|a: int, b: int|
        0 <= a < before.side() && 0 <= b < before.side() && !guide_region(guide, size)(a, b)
            ==> #[trigger] after.at(a, b) == (if guide_marks(guide, size, a, b) {
            INFINITY
        } else {
            before.at(a, b)
        })
}

/// The onward table after it has been filled for the guide: right on the
/// region of the guide and as before everywhere else.
pub open spec fn paths_filled(
    before: Grid<PathPoint>,
    after: Grid<PathPoint>,
    w: Weights,
    guide: Option<Seq<Move>>,
    size: int,
) -> bool {
    &&& after.wf()
    &&& after.side() == before.side()
    &&& paths_agree(after, w, guide_region(guide, size), size)
    &&& forall|a: int, b: int|
        0 <= a < before.side() && 0 <= b < before.side() && !guide_region(guide, size)(a, b)
            ==> #[trigger] after.at(a, b) == before.at(a, b)
}

/// The moves of an optional guide.
pub open spec fn guide_moves<const MAX_PATH_LEN: usize>(guide: Option<Path<MAX_PATH_LEN>>) -> Option<
    Seq<Move>,
> {
    match guide {
        Some(path) => Some(path.moves()),
        None => None,
    }
}

/// A guide fits a square of side `size` if it is a route on the square of
/// half the side, and `size` is even.
pub open spec fn guide_fits(guide: Option<Seq<Move>>, size: int) -> bool {
    match guide {
        Some(route) => size % 2 == 0 && is_route(route, size / 2),
        None => true,
    }
}

/// The local losses on level `i` of the two ladders.
pub open spec fn level_weights<T, D: Fn(&T, &T) -> T, L: Fn(&T, &T) -> u32>(
    downsample_fn: D,
    loss_fn: L,
    ys: Seq<T>,
    xs: Seq<T>,
    i: int,
) -> Weights {
    weights(loss_fn, level(downsample_fn, ys, i), level(downsample_fn, xs, i))
}

/// The region in which level `i` is solved, where `top` is the coarsest
/// level: the whole square on the coarsest level, the band of the trail
/// found one level up on every finer one.
pub open spec fn level_region<T, D: Fn(&T, &T) -> T, L: Fn(&T, &T) -> u32>(
    downsample_fn: D,
    loss_fn: L,
    ys: Seq<T>,
    xs: Seq<T>,
    top: int,
    i: int,
) -> Region
    decreases top - i, 0int,
{
    if i >= top {
        square(level_len(ys.len() as int, i))
    } else {
        band(trail_moves(refined_trail(downsample_fn, loss_fn, ys, xs, top, i + 1)))
    }
}

/// The trail that the refinement finds on level `i` of the two ladders,
/// where `top` is the coarsest level.
pub open spec fn refined_trail<T, D: Fn(&T, &T) -> T, L: Fn(&T, &T) -> u32>(
    downsample_fn: D,
    loss_fn: L,
    ys: Seq<T>,
    xs: Seq<T>,
    top: int,
    i: int,
) -> Seq<Onward>
    decreases top - i, 1int,
{
    trail(
        level_weights(downsample_fn, loss_fn, ys, xs, i),
        level_region(downsample_fn, loss_fn, ys, xs, top, i),
        level_len(ys.len() as int, i),
        0,
        0,
    )
}

/// The two functions are known to return wherever the refinement asks them
/// on the levels from `i` up: the loss function on the region of each
/// level, the combining function on the pairs of each level that is halved.
pub open spec fn refinement_answered<T, D: Fn(&T, &T) -> T, L: Fn(&T, &T) -> u32>(
    downsample_fn: D,
    loss_fn: L,
    ys: Seq<T>,
    xs: Seq<T>,
    top: int,
    i: int,
) -> bool
    decreases top - i,
{
    &&& region_answered(
        loss_fn,
        level(downsample_fn, ys, i),
        level(downsample_fn, xs, i),
        level_region(downsample_fn, loss_fn, ys, xs, top, i),
    )
    &&& i < top ==> {
        &&& halving_answered(downsample_fn, level(downsample_fn, ys, i))
        &&& halving_answered(downsample_fn, level(downsample_fn, xs, i))
        &&& refinement_answered(downsample_fn, loss_fn, ys, xs, top, i + 1)
    }
}

/// The moves of the table entries of a trail are the moves of the trail.
pub proof fn lemma_moves_of_points(t: Seq<Onward>)
    ensures
        moves_of(points_of(t)) == trail_moves(t),
{
    assert(moves_of(points_of(t)) =~= trail_moves(t));
}

/// Solves one level: fills the loss table and the onward table on the
/// region of the guide and reads the path off.
pub fn guided_solve<T, L: Fn(&T, &T) -> u32, const MAX_PATH_LEN: usize>(
    losses: &mut Grid<u64>,
    paths: &mut Grid<PathPoint>,
    sig_y: &[T],
    sig_x: &[T],
    loss_fn: &L,
    size: usize,
    guide: &Option<Path<MAX_PATH_LEN>>,
) -> (path: Path<MAX_PATH_LEN>)
    requires
        old(losses).wf(),
        old(paths).wf(),
        old(losses).side() == old(paths).side(),
        1 <= size <= old(losses).side() <= MAX_SIDE,
        size >= 2 || size == old(losses).side(),
        MAX_PATH_LEN >= 2 * size - 1,
        size <= sig_y@.len(),
        size <= sig_x@.len(),
        is_pure::<T, u32, L>(*loss_fn),
        guide_fits(guide_moves(*guide), size as int),
    ensures
        losses_filled(
            *old(losses),
            *final(losses),
            weights(*loss_fn, sig_y@, sig_x@),
            guide_moves(*guide),
            size as int,
        ),
        paths_filled(
            *old(paths),
            *final(paths),
            weights(*loss_fn, sig_y@, sig_x@),
            guide_moves(*guide),
            size as int,
        ),
        region_answered(
            *loss_fn,
            sig_y@,
            sig_x@,
            guide_region(guide_moves(*guide), size as int),
        ),
        path.wf(),
        path@ == points_of(
            trail(
                weights(*loss_fn, sig_y@, sig_x@),
                guide_region(guide_moves(*guide), size as int),
                size as int,
                0,
                0,
            ),
        ),
        path@ == grid_trail(*final(paths), size as int, 0, 0),
        is_route(path.moves(), size as int),
        stays_below(path.moves(), size as int),
        path@.len() <= 2 * size - 1,
{
    let ghost w = weights(*loss_fn, sig_y@, sig_x@);
    let ghost r = guide_region(guide_moves(*guide), size as int);
    match guide {
        Some(route) => {
            fill_band_losses(losses, sig_y, sig_x, loss_fn, size, route);
            fill_band_paths(losses, paths, size, route, Ghost(w));
            proof {
                lemma_band_is_passable(route.moves(), size as int);
            }
        },
        None => {
            fill_losses(losses, sig_y, sig_x, loss_fn, size);
            fill_paths(losses, paths, size, Ghost(w));
            proof {
                lemma_square_is_passable(size as int);
            }
        },
    }
    proof {
        lemma_trail_follows_model(*paths, w, r, size as int, 0, 0);
    }
    best_path(paths, size)
}

/// Aligns two signals of `SIGNAL_SIZE` samples each.
///
/// `downsample_fn` combines two neighbouring samples into one of the next
/// coarser level, and `loss_fn` says how badly two samples match. The solver
/// keeps one table of cumulative losses and one of onward costs and moves,
/// both of `SIGNAL_SIZE` rows and columns, and uses them on every level.
pub struct DtwSolver<'a, SampleType, const SIGNAL_SIZE: usize, const MAX_PATH_LEN: usize, D, L> {
    sig_y: &'a [SampleType; SIGNAL_SIZE],
    sig_x: &'a [SampleType; SIGNAL_SIZE],
    downsample_fn: D,
    loss_fn: L,
    loss_map: Grid<u64>,
    path_map: Grid<PathPoint>,
    downsample_limit: Option<usize>,
}

impl<
    'a,
    SampleType,
    const SIGNAL_SIZE: usize,
    const MAX_PATH_LEN: usize,
    D: Fn(&SampleType, &SampleType) -> SampleType,
    L: Fn(&SampleType, &SampleType) -> u32,
> DtwSolver<'a, SampleType, SIGNAL_SIZE, MAX_PATH_LEN, D, L> {
    /// The first signal, whose samples index the rows.
    pub closed spec fn signal_y(&self) -> Seq<SampleType> {
        self.sig_y@
    }

    /// The second signal, whose samples index the columns.
    pub closed spec fn signal_x(&self) -> Seq<SampleType> {
        self.sig_x@
    }

    /// The function that combines two samples.
    pub closed spec fn combiner(&self) -> D {
        self.downsample_fn
    }

    /// The function that gives the loss of two samples.
    pub closed spec fn scorer(&self) -> L {
        self.loss_fn
    }

    /// The limit on the number of coarser levels, if one was set.
    pub closed spec fn limit(&self) -> Option<usize> {
        self.downsample_limit
    }

    /// The table of cumulative losses as it stands.
    pub closed spec fn losses(&self) -> Grid<u64> {
        self.loss_map
    }

    /// The table of onward costs and moves as it stands.
    pub closed spec fn routes(&self) -> Grid<PathPoint> {
        self.path_map
    }

    /// The local losses of the two signals.
    pub open spec fn weights(&self) -> Weights {
        weights(self.scorer(), self.signal_y(), self.signal_x())
    }

    /// The number of coarser levels that a solve builds.
    pub open spec fn levels(&self) -> int {
        depth(SIGNAL_SIZE as int, effective_limit(self.limit(), MAX_DOWNSAMPLES as int))
    }

    /// The path that a solve returns.
    pub open spec fn solution(&self) -> Seq<PathPoint> {
        points_of(
            refined_trail(
                self.combiner(),
                self.scorer(),
                self.signal_y(),
                self.signal_x(),
                self.levels(),
                0,
            ),
        )
    }

    /// The two functions are known to return wherever a solve asks them.
    pub open spec fn consulted(&self) -> bool {
        refinement_answered(
            self.combiner(),
            self.scorer(),
            self.signal_y(),
            self.signal_x(),
            self.levels(),
            0,
        )
    }

    /// The tables have `SIGNAL_SIZE` rows and columns, the sizes are within
    /// what the tables and a path can hold, and the two functions can be
    /// called on every pair of samples and return one value for each.
    pub closed spec fn wf(&self) -> bool {
        &&& self.loss_map.wf()
        &&& self.path_map.wf()
        &&& self.loss_map.side() == SIGNAL_SIZE
        &&& self.path_map.side() == SIGNAL_SIZE
        &&& 1 <= SIGNAL_SIZE <= MAX_SIDE
        &&& MAX_PATH_LEN >= 2 * SIGNAL_SIZE - 1
        &&& is_pure::<SampleType, SampleType, D>(self.downsample_fn)
        &&& is_pure::<SampleType, u32, L>(self.loss_fn)
    }

    /// Another solver has the same signals, functions and limit.
    pub open spec fn same_task(&self, other: &Self) -> bool {
        &&& self.signal_y() == other.signal_y()
        &&& self.signal_x() == other.signal_x()
        &&& self.combiner() == other.combiner()
        &&& self.scorer() == other.scorer()
        &&& self.limit() == other.limit()
    }

    /// A solver for the two signals, with no limit on the number of coarser
    /// levels.
    pub fn new(
        sig_y: &'a [SampleType; SIGNAL_SIZE],
        sig_x: &'a [SampleType; SIGNAL_SIZE],
        downsample_fn: D,
        loss_fn: L,
    ) -> (solver: Self)
        requires
            1 <= SIGNAL_SIZE <= MAX_SIDE,
            MAX_PATH_LEN >= 2 * SIGNAL_SIZE - 1,
            is_pure::<SampleType, SampleType, D>(downsample_fn),
            is_pure::<SampleType, u32, L>(loss_fn),
        ensures
            solver.wf(),
            solver.signal_y() == sig_y@,
            solver.signal_x() == sig_x@,
            solver.combiner() == downsample_fn,
            solver.scorer() == loss_fn,
            solver.limit().is_none(),
            forall|y: int, x: int|
                0 <= y < SIGNAL_SIZE && 0 <= x < SIGNAL_SIZE ==> #[trigger] solver.losses().at(y, x)
                    == INFINITY,
            forall|y: int, x: int|
                0 <= y < SIGNAL_SIZE && 0 <= x < SIGNAL_SIZE ==> #[trigger] solver.routes().at(y, x)
                    == (PathPoint { loss: INFINITY, to_parent: Move::Stop }),
    {
        DtwSolver {
            sig_y,
            sig_x,
            downsample_fn,
            loss_fn,
            loss_map: Grid::new(SIGNAL_SIZE, INFINITY),
            path_map: Grid::new(SIGNAL_SIZE, PathPoint { loss: INFINITY, to_parent: Move::Stop }),
            downsample_limit: None,
        }
    }

    /// The same solver, with its tables and settings, for two other signals.
    pub fn with_signals<'b>(
        self,
        sig_y: &'b [SampleType; SIGNAL_SIZE],
        sig_x: &'b [SampleType; SIGNAL_SIZE],
    ) -> (solver: DtwSolver<'b, SampleType, SIGNAL_SIZE, MAX_PATH_LEN, D, L>)
        requires
            self.wf(),
        ensures
            solver.wf(),
            solver.signal_y() == sig_y@,
            solver.signal_x() == sig_x@,
            solver.combiner() == self.combiner(),
            solver.scorer() == self.scorer(),
            solver.limit() == self.limit(),
            solver.losses() == self.losses(),
            solver.routes() == self.routes(),
    {
        DtwSolver {
            sig_y,
            sig_x,
            downsample_fn: self.downsample_fn,
            loss_fn: self.loss_fn,
            loss_map: self.loss_map,
            path_map: self.path_map,
            downsample_limit: self.downsample_limit,
        }
    }

    /// The cumulative loss that the loss table holds in row `y` and column
    /// `x`.
    pub fn loss_at(&self, y: usize, x: usize) -> (loss: u64)
        requires
            self.wf(),
            y < SIGNAL_SIZE,
            x < SIGNAL_SIZE,
        ensures
            loss == self.losses().at(y as int, x as int),
    {
        self.loss_map.get(y, x)
    }

    /// The onward cost and move that the onward table holds in row `y` and
    /// column `x`.
    pub fn route_at(&self, y: usize, x: usize) -> (point: PathPoint)
        requires
            self.wf(),
            y < SIGNAL_SIZE,
            x < SIGNAL_SIZE,
        ensures
            point == self.routes().at(y as int, x as int),
    {
        self.path_map.get(y, x)
    }

    /// Caps the number of coarser levels at `max_downsamples`.
    pub fn limit_downsamples(&mut self, max_downsamples: usize) -> (solver: &mut Self)
        ensures
            solver.wf() == old(self).wf(),
            solver.signal_y() == old(self).signal_y(),
            solver.signal_x() == old(self).signal_x(),
            solver.combiner() == old(self).combiner(),
            solver.scorer() == old(self).scorer(),
            solver.limit() == Some(max_downsamples),
            solver.losses() == old(self).losses(),
            solver.routes() == old(self).routes(),
            *final(self) == *final(solver),
    {
        self.downsample_limit = Some(max_downsamples);
        self
    }

    /// Computes one cell of the table of cumulative losses from the entries
    /// to its left, below it and diagonally below, as they stand.
    pub fn calc_loss_cell(&mut self, y: usize, x: usize)
        requires
            old(self).wf(),
            y < SIGNAL_SIZE,
            x < SIGNAL_SIZE,
        ensures
            final(self).wf(),
            final(self).same_task(old(self)),
            final(self).routes() == old(self).routes(),
            differs_only_at(final(self).losses(), old(self).losses(), y as int, x as int),
            final(self).losses().at(y as int, x as int) == loss_cell_value(
                old(self).losses(),
                y as int,
                x as int,
                old(self).weights()(y as int, x as int),
            ),
            answers::<SampleType, u32, L>(
                old(self).scorer(),
                old(self).signal_y()[y as int],
                old(self).signal_x()[x as int],
            ),
    {
        calc_loss_cell(
            &mut self.loss_map,
            self.sig_y.as_slice(),
            self.sig_x.as_slice(),
            &self.loss_fn,
            y,
            x,
        );
    }

    /// Fills the table of cumulative losses: on the whole square without a
    /// guide, on the band of the guide and its fence with one.
    pub fn map_losses(&mut self, downsample_path: &Option<Path<MAX_PATH_LEN>>)
        requires
            old(self).wf(),
            guide_fits(guide_moves(*downsample_path), SIGNAL_SIZE as int),
        ensures
            final(self).wf(),
            final(self).same_task(old(self)),
            final(self).routes() == old(self).routes(),
            losses_filled(
                old(self).losses(),
                final(self).losses(),
                old(self).weights(),
                guide_moves(*downsample_path),
                SIGNAL_SIZE as int,
            ),
            region_answered(
                old(self).scorer(),
                old(self).signal_y(),
                old(self).signal_x(),
                guide_region(guide_moves(*downsample_path), SIGNAL_SIZE as int),
            ),
    {
        match downsample_path {
            Some(dp) => {
                fill_band_losses(
                    &mut self.loss_map,
                    self.sig_y.as_slice(),
                    self.sig_x.as_slice(),
                    &self.loss_fn,
                    SIGNAL_SIZE,
                    dp,
                );
            },
            None => {
                fill_losses(
                    &mut self.loss_map,
                    self.sig_y.as_slice(),
                    self.sig_x.as_slice(),
                    &self.loss_fn,
                    SIGNAL_SIZE,
                );
            },
        }
    }

    /// Computes one cell of the table of onward costs and moves from the
    /// loss table and the onward entries ahead of the cell, as they stand.
    pub fn calc_path_cell(&mut self, y: usize, x: usize)
        requires
            old(self).wf(),
            y < SIGNAL_SIZE,
            x < SIGNAL_SIZE,
        ensures
            final(self).wf(),
            final(self).same_task(old(self)),
            final(self).losses() == old(self).losses(),
            differs_only_at(final(self).routes(), old(self).routes(), y as int, x as int),
            final(self).routes().at(y as int, x as int) == path_cell_value(
                old(self).losses(),
                old(self).routes(),
                SIGNAL_SIZE as int,
                y as int,
                x as int,
            ),
    {
        calc_path_cell(&self.loss_map, &mut self.path_map, SIGNAL_SIZE, y, x);
    }

    /// Fills the table of onward costs and moves on the region of the guide,
    /// from a loss table that `map_losses` has filled for the same guide,
    /// and returns the path read off it.
    pub fn map_paths(&mut self, downsample_path: &Option<Path<MAX_PATH_LEN>>) -> (path: Path<
        MAX_PATH_LEN,
    >)
        requires
            old(self).wf(),
            guide_fits(guide_moves(*downsample_path), SIGNAL_SIZE as int),
            losses_agree(
                old(self).losses(),
                old(self).weights(),
                guide_region(guide_moves(*downsample_path), SIGNAL_SIZE as int),
            ),
            fenced(
                old(self).losses(),
                guide_region(guide_moves(*downsample_path), SIGNAL_SIZE as int),
                SIGNAL_SIZE as int,
            ),
        ensures
            final(self).wf(),
            final(self).same_task(old(self)),
            final(self).losses() == old(self).losses(),
            paths_filled(
                old(self).routes(),
                final(self).routes(),
                old(self).weights(),
                guide_moves(*downsample_path),
                SIGNAL_SIZE as int,
            ),
            leads_home(final(self).routes(), SIGNAL_SIZE as int, 0, 0),
            path.wf(),
            path@ == points_of(
                trail(
                    old(self).weights(),
                    guide_region(guide_moves(*downsample_path), SIGNAL_SIZE as int),
                    SIGNAL_SIZE as int,
                    0,
                    0,
                ),
            ),
            is_route(path.moves(), SIGNAL_SIZE as int),
            stays_below(path.moves(), SIGNAL_SIZE as int),
            path@.len() <= 2 * SIGNAL_SIZE - 1,
    {
        let ghost w = self.weights();
        let ghost r = guide_region(guide_moves(*downsample_path), SIGNAL_SIZE as int);
        match downsample_path {
            Some(dp) => {
                fill_band_paths(&self.loss_map, &mut self.path_map, SIGNAL_SIZE, dp, Ghost(w));
                proof {
                    lemma_band_is_passable(dp.moves(), SIGNAL_SIZE as int);
                }
            },
            None => {
                fill_paths(&self.loss_map, &mut self.path_map, SIGNAL_SIZE, Ghost(w));
                proof {
                    lemma_square_is_passable(SIGNAL_SIZE as int);
                }
            },
        }
        proof {
            lemma_trail_follows_model(self.path_map, w, r, SIGNAL_SIZE as int, 0, 0);
        }
        self.get_best_path()
    }

    /// Reads the path off the table of onward costs and moves: from cell
    /// (0, 0) it records each entry met and follows its move, and ends with
    /// the entry that stops.
    pub fn get_best_path(&self) -> (path: Path<MAX_PATH_LEN>)
        requires
            self.wf(),
            leads_home(self.routes(), SIGNAL_SIZE as int, 0, 0),
        ensures
            path.wf(),
            path@ == grid_trail(self.routes(), SIGNAL_SIZE as int, 0, 0),
            is_route(path.moves(), SIGNAL_SIZE as int),
            stays_below(path.moves(), SIGNAL_SIZE as int),
            path@.len() <= 2 * SIGNAL_SIZE - 1,
    {
        best_path(&self.path_map, SIGNAL_SIZE)
    }

    /// Aligns the two signals.
    ///
    /// The ladders of coarser levels are built for both signals. The
    /// coarsest level is solved on its whole square; every finer level, and
    /// at last the signals themselves, are solved in the band of the path
    /// found one level up. Without coarser levels the signals are solved on
    /// the whole square.
    pub fn solve(&mut self) -> (path: Path<MAX_PATH_LEN>)
        requires
            old(self).wf(),
        ensures
            final(self).wf(),
            final(self).same_task(old(self)),
            path.wf(),
            path@ == old(self).solution(),
            old(self).consulted(),
            losses_agree(
                final(self).losses(),
                old(self).weights(),
                level_region(
                    old(self).combiner(),
                    old(self).scorer(),
                    old(self).signal_y(),
                    old(self).signal_x(),
                    old(self).levels(),
                    0,
                ),
            ),
            paths_agree(
                final(self).routes(),
                old(self).weights(),
                level_region(
                    old(self).combiner(),
                    old(self).scorer(),
                    old(self).signal_y(),
                    old(self).signal_x(),
                    old(self).levels(),
                    0,
                ),
                SIGNAL_SIZE as int,
            ),
            is_route(path.moves(), SIGNAL_SIZE as int),
            stays_below(path.moves(), SIGNAL_SIZE as int),
            path@.len() <= 2 * SIGNAL_SIZE - 1,
    {
        let downsamples_y = build_ladder::<SampleType, D, MAX_DOWNSAMPLES>(
            self.sig_y.as_slice(),
            &self.downsample_fn,
            self.downsample_limit,
        );
        let downsamples_x = build_ladder::<SampleType, D, MAX_DOWNSAMPLES>(
            self.sig_x.as_slice(),
            &self.downsample_fn,
            self.downsample_limit,
        );
        let ghost f = self.downsample_fn;
        let ghost l = self.loss_fn;
        let ghost ys = self.sig_y@;
        let ghost xs = self.sig_x@;
        let ghost n = SIGNAL_SIZE as int;
        let ghost limit = effective_limit(self.downsample_limit, MAX_DOWNSAMPLES as int);
        let ghost top = depth(n, limit);
        let mut last_downsample_path: Option<Path<MAX_PATH_LEN>> = None;
        let mut i: usize = downsamples_y.len();
        while i > 0
            invariant
                i <= top,
                top == depth(n, limit),
                n == SIGNAL_SIZE,
                ys == self.sig_y@,
                xs == self.sig_x@,
                ys.len() == n,
                xs.len() == n,
                f == self.downsample_fn,
                l == self.loss_fn,
                self.wf(),
                self.same_task(old(self)),
                downsamples_y.wf(),
                downsamples_x.wf(),
                is_ladder(downsamples_y@, f, ys, limit),
                is_ladder(downsamples_x@, f, xs, limit),
                i == top <==> last_downsample_path.is_none(),
                i < top ==> refinement_answered(f, l, ys, xs, top, i as int + 1),
                last_downsample_path.is_some() ==> {
                    &&& last_downsample_path.unwrap().wf()
                    &&& last_downsample_path.unwrap()@ == points_of(
                        refined_trail(f, l, ys, xs, top, i as int + 1),
                    )
                    &&& is_route(last_downsample_path.unwrap().moves(), level_len(n, i as int + 1))
                },
            decreases i,
        {
            let ghost above = i as int;
            i -= 1;
            let level_y = downsamples_y.index(i);
            let level_x = downsamples_x.index(i);
            proof {
                lemma_levels_below_depth(n, limit, above);
                lemma_levels_below_depth(n, limit, above - 1);
                lemma_level_len(f, ys, above);
                lemma_level_len(f, xs, above);
                if last_downsample_path.is_some() {
                    lemma_levels_below_depth(n, limit, above + 1);
                    lemma_moves_of_points(refined_trail(f, l, ys, xs, top, above + 1));
                }
            }
            let found = guided_solve(
                &mut self.loss_map,
                &mut self.path_map,
                level_y.signal.as_slice(),
                level_x.signal.as_slice(),
                &self.loss_fn,
                level_y.len,
                &last_downsample_path,
            );
            last_downsample_path = Some(found);
            proof {
                assert(refinement_answered(f, l, ys, xs, top, above));
            }
        }
        proof {
            lemma_levels_below_depth(n, limit, 0);
            if last_downsample_path.is_some() {
                lemma_levels_below_depth(n, limit, 1);
                lemma_moves_of_points(refined_trail(f, l, ys, xs, top, 1));
            }
        }
        let path = guided_solve(
            &mut self.loss_map,
            &mut self.path_map,
            self.sig_y.as_slice(),
            self.sig_x.as_slice(),
            &self.loss_fn,
            SIGNAL_SIZE,
            &last_downsample_path,
        );
        proof {
            assert(level(f, ys, 0) == ys);
            assert(level(f, xs, 0) == xs);
            assert(refinement_answered(f, l, ys, xs, top, 0));
        }
        path
    }
}

} // verus!
