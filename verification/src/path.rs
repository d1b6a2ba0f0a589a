//! Moves, path points and the routes that they spell out on a square grid.

use crate::stack_vec::{StackVec, StackVecIterator};
use vstd::prelude::*;

verus! {

/// The direction in which a path leaves a cell.
#[derive(Clone, Copy, Debug, PartialEq, Eq, Structural)]
pub enum Move {
    /// The path ends in this cell.
    Stop,
    /// To the cell above: the row index grows by one.
    Vertical,
    /// To the cell on the right: the column index grows by one.
    Horizontal,
    /// To the cell above and to the right: both indices grow by one.
    Diagonal,
}

impl Move {
    /// By how much the move raises the row index.
    pub open spec fn rise(self) -> int {
        match self {
            Move::Vertical | Move::Diagonal => 1,
            _ => 0,
        }
    }

    /// By how much the move raises the column index.
    pub open spec fn run(self) -> int {
        match self {
            Move::Horizontal | Move::Diagonal => 1,
            _ => 0,
        }
    }
}

/// One visited cell of a path: the cost recorded in the cell and the move by
/// which the path leaves it.
#[derive(Clone, Copy, Debug, PartialEq, Eq, Structural)]
pub struct PathPoint {
    pub loss: u64,
    pub to_parent: Move,
}

/// The moves of a sequence of path points, in order.
pub open spec fn moves_of(points: Seq<PathPoint>) -> Seq<Move> {
    Seq::new(points.len(), |i: int| points[i].to_parent)
}

/// The row reached from row 0 by the first `k` moves.
pub open spec fn row_after(moves: Seq<Move>, k: int) -> int
    decreases k,
{
    if k <= 0 {
        0
    } else {
        row_after(moves, k - 1) + moves[k - 1].rise()
    }
}

/// The column reached from column 0 by the first `k` moves.
pub open spec fn col_after(moves: Seq<Move>, k: int) -> int
    decreases k,
{
    if k <= 0 {
        0
    } else {
        col_after(moves, k - 1) + moves[k - 1].run()
    }
}

/// The moves lead from cell (0, 0) to cell (`side` - 1, `side` - 1) of a
/// square grid: every move but the last leaves its cell, and the last one,
/// made in the far corner, is `Stop`.
pub open spec fn is_route(moves: Seq<Move>, side: int) -> bool {
    &&& moves.len() >= 1
    &&& moves[moves.len() - 1] == Move::Stop
    &&& forall|i: int| 0 <= i < moves.len() - 1 ==> #[trigger] moves[i] != Move::Stop
    &&& row_after(moves, moves.len() - 1) == side - 1
    &&& col_after(moves, moves.len() - 1) == side - 1
}

/// Rows and columns never shrink along a sequence of moves.
pub proof fn lemma_position_monotone(moves: Seq<Move>, j: int, k: int)
    requires
        0 <= j <= k,
    ensures
        row_after(moves, j) <= row_after(moves, k),
        col_after(moves, j) <= col_after(moves, k),
        0 <= row_after(moves, j),
        0 <= col_after(moves, j),
        row_after(moves, k) - row_after(moves, j) <= k - j,
        col_after(moves, k) - col_after(moves, j) <= k - j,
    decreases k,
{
    if j < k {
        lemma_position_monotone(moves, j, k - 1);
    } else if k > 0 {
        lemma_position_monotone(moves, j - 1, k - 1);
    }
}

/// The position after `k` moves depends on the first `k` moves only.
pub proof fn lemma_position_of_prefix(a: Seq<Move>, b: Seq<Move>, k: int)
    requires
        0 <= k <= a.len(),
        k <= b.len(),
        forall|i: int| 0 <= i < k ==> a[i] == b[i],
    ensures
        row_after(a, k) == row_after(b, k),
        col_after(a, k) == col_after(b, k),
    decreases k,
{
    if k > 0 {
        lemma_position_of_prefix(a, b, k - 1);
    }
}

/// Along a route every step but the last goes to a neighbouring cell above,
/// to the right, or both: neither coordinate shrinks, neither grows by more
/// than one, and at least one grows.
pub proof fn lemma_route_steps(moves: Seq<Move>, side: int, k: int)
    requires
        is_route(moves, side),
        0 <= k < moves.len() - 1,
    ensures
        row_after(moves, 0) == 0,
        col_after(moves, 0) == 0,
        row_after(moves, k) <= row_after(moves, k + 1) <= row_after(moves, k) + 1,
        col_after(moves, k) <= col_after(moves, k + 1) <= col_after(moves, k) + 1,
        row_after(moves, k + 1) + col_after(moves, k + 1) > row_after(moves, k) + col_after(
            moves,
            k,
        ),
        0 <= row_after(moves, k) < side,
        0 <= col_after(moves, k) < side,
        row_after(moves, k + 1) < side,
        col_after(moves, k + 1) < side,
{
    assert(moves[k] != Move::Stop);
    lemma_route_bounds(moves, side, k);
    lemma_route_bounds(moves, side, k + 1);
}

/// Every move before the last of a route advances the sum of row and column.
pub proof fn lemma_route_advances(moves: Seq<Move>, side: int, j: int, k: int)
    requires
        is_route(moves, side),
        0 <= j <= k <= moves.len() - 1,
    ensures
        row_after(moves, k) + col_after(moves, k) >= row_after(moves, j) + col_after(moves, j) + (k
            - j),
    decreases k,
{
    if j < k {
        lemma_route_advances(moves, side, j, k - 1);
        assert(moves[k - 1] != Move::Stop);
    }
}

/// A route on a grid of side `side` has at most `2 * side - 1` points and
/// stays inside the grid.
pub proof fn lemma_route_bounds(moves: Seq<Move>, side: int, k: int)
    requires
        is_route(moves, side),
        0 <= k <= moves.len() - 1,
    ensures
        side >= 1,
        moves.len() <= 2 * side - 1,
        0 <= row_after(moves, k) <= side - 1,
        0 <= col_after(moves, k) <= side - 1,
{
    let last = moves.len() - 1;
    lemma_position_monotone(moves, 0, last);
    lemma_position_monotone(moves, k, last);
    lemma_route_advances(moves, side, 0, last);
}

/// The number of moves made before the first `Stop` at or after index
/// `from`, counted from the start of the sequence; the length of the
/// sequence if there is no such `Stop`.
pub open spec fn moves_before_stop(moves: Seq<Move>, from: int) -> int
    decreases moves.len() - from,
{
    if from < 0 || from >= moves.len() || moves[from] == Move::Stop {
        from
    } else {
        moves_before_stop(moves, from + 1)
    }
}

/// Up to its first `Stop` the sequence never reaches row or column `size`.
pub open spec fn stays_below(moves: Seq<Move>, size: int) -> bool {
    forall|k: int|
        0 <= k <= moves_before_stop(moves, 0) ==> #[trigger] row_after(moves, k) < size && col_after(
            moves,
            k,
        ) < size
}

/// The signal `signal` after the first `k` moves have each copied one
/// sample: move `i` writes, at the column that it reaches, the sample at the
/// row that it reaches. Entries that no move writes keep the value of
/// `signal`.
pub open spec fn warped_after<T>(signal: Seq<T>, moves: Seq<Move>, k: int) -> Seq<T>
    decreases k,
{
    if k <= 0 {
        signal
    } else {
        warped_after(signal, moves, k - 1).update(
            col_after(moves, k),
            signal[row_after(moves, k)],
        )
    }
}

/// The disparities recorded by the first `k` moves in a sequence of `size`
/// zeros: move `i` writes, at the column that it reaches, the row minus the
/// column that it reaches.
pub open spec fn disparity_after(size: int, moves: Seq<Move>, k: int) -> Seq<i64>
    decreases k,
{
    if k <= 0 {
        Seq::new(size as nat, |i: int| 0i64)
    } else {
        disparity_after(size, moves, k - 1).update(
            col_after(moves, k),
            (row_after(moves, k) - col_after(moves, k)) as i64,
        )
    }
}

/// A bounded sequence of path points, at most `N` of them.
pub struct Path<const N: usize>(StackVec<PathPoint, N>);

impl<const N: usize> View for Path<N> {
    type V = Seq<PathPoint>;

    closed spec fn view(&self) -> Seq<PathPoint> {
        self.0@
    }
}

impl<const N: usize> Path<N> {
    /// The path holds no more points than its capacity.
    pub closed spec fn wf(&self) -> bool {
        self.0.wf()
    }

    /// The moves of the path, in order.
    pub open spec fn moves(&self) -> Seq<Move> {
        moves_of(self@)
    }

    /// A path without points. The flag is passed on to the storage.
    pub fn empty(zero_mem: bool) -> (p: Self)
        ensures
            p.wf(),
            p@ == Seq::<PathPoint>::empty(),
    {
        Path(StackVec::empty(zero_mem))
    }

    /// A cursor over the points, positioned before the first.
    pub fn iter(&self) -> (it: StackVecIterator<'_, PathPoint, N>)
        ensures
            it.items() == self@,
            it.position() == 0,
    {
        self.0.iter()
    }

    /// Appends a point. The path must not be full.
    pub fn push(&mut self, item: PathPoint)
        requires
            old(self).wf(),
            old(self)@.len() < N,
        ensures
            final(self).wf(),
            final(self)@ == old(self)@.push(item),
    {
        self.0.push(item);
    }

    /// The number of points.
    pub fn len(&self) -> (n: usize)
        ensures
            n == self@.len(),
    {
        self.0.len()
    }

    /// The point at `index`, which must be below the length.
    pub fn point(&self, index: usize) -> (p: PathPoint)
        requires
            index < self@.len(),
        ensures
            p == self@[index as int],
    {
        *self.0.index(index)
    }

    /// Resamples `signal` along the path.
    ///
    /// Two cursors start at 0. Each move before the first `Stop` advances
    /// the source cursor if it rises and the destination cursor if it runs,
    /// and then copies the sample under the source cursor to the place under
    /// the destination cursor. Index 0, and whatever else no move writes,
    /// holds the sample that `signal` has there.
    pub fn warp<SampleType: Copy, const SIGNAL_SIZE: usize>(
        &self,
        signal: [SampleType; SIGNAL_SIZE],
    ) -> (warped: [SampleType; SIGNAL_SIZE])
        requires
            stays_below(self.moves(), SIGNAL_SIZE as int),
        ensures
            warped@ == warped_after(signal@, self.moves(), moves_before_stop(self.moves(), 0)),
    {
        let mut warped = signal;
        let mut t_signal: usize = 0;
        let mut t_warped: usize = 0;
        let mut k: usize = 0;
        let count = self.len();
        let ghost moves = self.moves();
        while k < count
            invariant
                count == self@.len(),
                moves == self.moves(),
                k <= count,
                stays_below(moves, SIGNAL_SIZE as int),
                moves_before_stop(moves, 0) == moves_before_stop(moves, k as int),
                t_signal == row_after(moves, k as int),
                t_warped == col_after(moves, k as int),
                warped@ == warped_after(signal@, moves, k as int),
            ensures
                warped@ == warped_after(signal@, moves, moves_before_stop(moves, 0)),
            decreases count - k,
        {
            let to_parent = self.point(k).to_parent;
            assert(moves[k as int] == to_parent);
            if to_parent == Move::Stop {
                break;
            }
            proof {
                lemma_moves_before_stop_reaches(moves, k as int + 1);
                lemma_stays_below_at(moves, SIGNAL_SIZE as int, k as int + 1);
            }
            match to_parent {
                Move::Diagonal => {
                    t_signal += 1;
                    t_warped += 1;
                },
                Move::Horizontal => {
                    t_warped += 1;
                },
                _ => {
                    t_signal += 1;
                },
            }
            warped[t_warped] = signal[t_signal];
            k += 1;
        }
        warped
    }

    /// The signed offset between the two signals along the path.
    ///
    /// A column cursor and an offset start at 0. Each move before the first
    /// `Stop` advances the cursor if it runs, raises the offset by one if it
    /// is vertical and lowers it by one if it is horizontal, and then
    /// records the offset under the cursor. Entries that no move writes are
    /// zero.
    pub fn get_disparity<const SIGNAL_SIZE: usize>(&self) -> (deviation: [i64; SIGNAL_SIZE])
        requires
            stays_below(self.moves(), SIGNAL_SIZE as int),
            SIGNAL_SIZE <= i64::MAX,
        ensures
            deviation@ == disparity_after(
                SIGNAL_SIZE as int,
                self.moves(),
                moves_before_stop(self.moves(), 0),
            ),
    {
        let mut deviation = [0i64;SIGNAL_SIZE];
        let mut d: i64 = 0;
        let mut t: usize = 0;
        let mut k: usize = 0;
        let count = self.len();
        let ghost moves = self.moves();
        let ghost row: int = 0;
        proof {
            lemma_moves_before_stop_at_least(moves, 0);
            lemma_stays_below_at(moves, SIGNAL_SIZE as int, 0);
            assert(deviation@ =~= disparity_after(SIGNAL_SIZE as int, moves, 0));
        }
        while k < count
            invariant
                count == self@.len(),
                moves == self.moves(),
                k <= count,
                SIGNAL_SIZE <= i64::MAX,
                stays_below(moves, SIGNAL_SIZE as int),
                moves_before_stop(moves, 0) == moves_before_stop(moves, k as int),
                row == row_after(moves, k as int),
                0 <= row < SIGNAL_SIZE,
                t == col_after(moves, k as int),
                t < SIGNAL_SIZE,
                d == row - t,
                deviation@ == disparity_after(SIGNAL_SIZE as int, moves, k as int),
            ensures
                deviation@ == disparity_after(
                    SIGNAL_SIZE as int,
                    moves,
                    moves_before_stop(moves, 0),
                ),
            decreases count - k,
        {
            let to_parent = self.point(k).to_parent;
            assert(moves[k as int] == to_parent);
            if to_parent == Move::Stop {
                break;
            }
            proof {
                lemma_moves_before_stop_reaches(moves, k as int + 1);
                lemma_stays_below_at(moves, SIGNAL_SIZE as int, k as int + 1);
                row = row + to_parent.rise();
            }
            match to_parent {
                Move::Diagonal => {
                    t += 1;
                },
                Move::Horizontal => {
                    t += 1;
                    d -= 1;
                },
                _ => {
                    d += 1;
                },
            }
            deviation[t] = d;
            k += 1;
        }
        deviation
    }
}

/// What `stays_below` says of one index.
pub proof fn lemma_stays_below_at(moves: Seq<Move>, size: int, k: int)
    requires
        stays_below(moves, size),
        0 <= k <= moves_before_stop(moves, 0),
    ensures
        0 <= row_after(moves, k) < size,
        0 <= col_after(moves, k) < size,
{
    lemma_position_monotone(moves, 0, k);
    assert(row_after(moves, k) < size && col_after(moves, k) < size);
}

/// The count of moves before the first `Stop` is at least every index that
/// no `Stop` precedes.
pub proof fn lemma_moves_before_stop_reaches(moves: Seq<Move>, k: int)
    requires
        0 <= k <= moves.len(),
        moves_before_stop(moves, 0) == moves_before_stop(moves, k),
    ensures
        k <= moves_before_stop(moves, 0),
{
    lemma_moves_before_stop_at_least(moves, k);
}

/// Counting from index `from` never gives less than `from`.
pub proof fn lemma_moves_before_stop_at_least(moves: Seq<Move>, from: int)
    requires
        0 <= from,
    ensures
        from <= moves_before_stop(moves, from),
    decreases moves.len() - from,
{
    if from < moves.len() && moves[from] != Move::Stop {
        lemma_moves_before_stop_at_least(moves, from + 1);
    }
}

/// In a route the first `Stop` is the last move.
pub proof fn lemma_route_stops_last(moves: Seq<Move>, side: int, from: int)
    requires
        is_route(moves, side),
        0 <= from <= moves.len() - 1,
    ensures
        moves_before_stop(moves, from) == moves.len() - 1,
    decreases moves.len() - from,
{
    if from < moves.len() - 1 {
        assert(moves[from] != Move::Stop);
        lemma_route_stops_last(moves, side, from + 1);
    }
}

/// A route on a grid of side `side` never reaches row or column `side`, so
/// it can be used to warp signals of `side` samples.
pub proof fn lemma_route_stays_below(moves: Seq<Move>, side: int)
    requires
        is_route(moves, side),
    ensures
        stays_below(moves, side),
        moves_before_stop(moves, 0) == moves.len() - 1,
{
    lemma_route_stops_last(moves, side, 0);
    assert forall|k: int| 0 <= k <= moves_before_stop(moves, 0) implies #[trigger] row_after(
        moves,
        k,
    ) < side && col_after(moves, k) < side by {
        lemma_route_bounds(moves, side, k);
    }
}

} // verus!
