//! The table of cumulative losses: its cells and how the whole square is
//! filled.

use crate::grid::Grid;
use crate::model::{cumulative_loss, lemma_cumulative_loss_bound, square, Region, Weights, INFINITY, MAX_SIDE};
use crate::plugin::{answers, evaluate, is_pure, value_of};
use vstd::prelude::*;

verus! {

/// The local losses that a loss function gives on two signals.
pub open spec fn weights<T, F: Fn(&T, &T) -> u32>(loss_fn: F, ys: Seq<T>, xs: Seq<T>) -> Weights {
    |y: int, x: int| value_of::<T, u32, F>(loss_fn, ys[y], xs[x])
}

/// The loss function is known to return for the pair of samples of every
/// cell of the region.
pub open spec fn region_answered<T, F: Fn(&T, &T) -> u32>(
    loss_fn: F,
    ys: Seq<T>,
    xs: Seq<T>,
    r: Region,
) -> bool {
    forall|y: int, x: int| r(y, x) ==> #[trigger] answers::<T, u32, F>(loss_fn, ys[y], xs[x])
}

/// What a cell reads from a place in the table: the entry, or `INFINITY`
/// where the place lies below row 0 or left of column 0.
pub open spec fn shown(g: Grid<u64>, y: int, x: int) -> u64 {
    if y < 0 || x < 0 {
        INFINITY
    } else {
        g.at(y, x)
    }
}

/// The least of three table entries.
pub open spec fn least3(a: u64, b: u64, c: u64) -> u64 {
    if a <= b && a <= c {
        a
    } else if b <= c {
        b
    } else {
        c
    }
}

/// The sum of two entries, or `INFINITY` if the sum would pass it.
pub open spec fn capped_sum(a: u64, b: u64) -> u64 {
    if a + b > INFINITY {
        INFINITY
    } else {
        (a + b) as u64
    }
}

/// The entry that a cell gets from its local loss and the entries to its
/// left, below it and diagonally below: the local loss plus the least of the
/// three, where a least of `INFINITY` counts as zero.
pub open spec fn loss_cell_value(g: Grid<u64>, y: int, x: int, local: u32) -> u64 {
    let least = least3(shown(g, y, x - 1), shown(g, y - 1, x), shown(g, y - 1, x - 1));
    capped_sum(
        local as u64,
        if least == INFINITY {
            0
        } else {
            least
        },
    )
}

/// The two tables are of one size and differ at most in cell (`y`, `x`).
pub open spec fn differs_only_at<V: Copy>(after: Grid<V>, before: Grid<V>, y: int, x: int) -> bool {
    &&& after.wf()
    &&& after.side() == before.side()
    &&& forall|a: int, b: int|
        0 <= a < before.side() && 0 <= b < before.side() && !(a == y && b == x)
            ==> #[trigger] after.at(a, b) == before.at(a, b)
}

/// In every cell of the region the table holds the cumulative loss.
pub open spec fn losses_agree(g: Grid<u64>, w: Weights, r: Region) -> bool {
    forall|y: int, x: int| r(y, x) ==> #[trigger] g.at(y, x) == cumulative_loss(w, r, y, x)
}

/// Every cell of the square that is not in the region but lies above, to the
/// right of, or diagonally above a cell of the region holds `INFINITY`.
pub open spec fn fenced(g: Grid<u64>, r: Region, side: int) -> bool {
    forall|y: int, x: int|
        #![trigger g.at(y, x)]
        0 <= y < side && 0 <= x < side && !r(y, x) && (r(y - 1, x) || r(y, x - 1) || r(
            y - 1,
            x - 1,
        )) ==> g.at(y, x) == INFINITY
}

/// A cell computed from entries that are right wherever the region reaches
/// and `INFINITY` elsewhere holds the cumulative loss.
pub proof fn lemma_loss_cell_matches(g: Grid<u64>, w: Weights, r: Region, y: int, x: int)
    requires
        0 <= y < MAX_SIDE,
        0 <= x < MAX_SIDE,
        x > 0 ==> g.at(y, x - 1) == (if r(y, x - 1) {
            cumulative_loss(w, r, y, x - 1)
        } else {
            INFINITY as int
        }),
        y > 0 ==> g.at(y - 1, x) == (if r(y - 1, x) {
            cumulative_loss(w, r, y - 1, x)
        } else {
            INFINITY as int
        }),
        y > 0 && x > 0 ==> g.at(y - 1, x - 1) == (if r(y - 1, x - 1) {
            cumulative_loss(w, r, y - 1, x - 1)
        } else {
            INFINITY as int
        }),
    ensures
        loss_cell_value(g, y, x, w(y, x)) == cumulative_loss(w, r, y, x),
{
    lemma_cumulative_loss_bound(w, r, y, x);
    if x > 0 {
        lemma_cumulative_loss_bound(w, r, y, x - 1);
    }
    if y > 0 {
        lemma_cumulative_loss_bound(w, r, y - 1, x);
    }
    if y > 0 && x > 0 {
        lemma_cumulative_loss_bound(w, r, y - 1, x - 1);
    }
}

/// Writes `INFINITY` to one cell.
pub fn stamp(losses: &mut Grid<u64>, y: usize, x: usize)
    requires
        old(losses).wf(),
        y < old(losses).side(),
        x < old(losses).side(),
    ensures
        differs_only_at(*final(losses), *old(losses), y as int, x as int),
        final(losses).at(y as int, x as int) == INFINITY,
{
    losses.set(y, x, INFINITY);
}

/// Computes one cell of the table of cumulative losses from the entries to
/// its left, below it and diagonally below, as they stand.
pub fn calc_loss_cell<T, F: Fn(&T, &T) -> u32>(
    losses: &mut Grid<u64>,
    sig_y: &[T],
    sig_x: &[T],
    loss_fn: &F,
    y: usize,
    x: usize,
)
    requires
        old(losses).wf(),
        y < old(losses).side(),
        x < old(losses).side(),
        y < sig_y@.len(),
        x < sig_x@.len(),
        is_pure::<T, u32, F>(*loss_fn),
    ensures
        differs_only_at(*final(losses), *old(losses), y as int, x as int),
        final(losses).at(y as int, x as int) == loss_cell_value(
            *old(losses),
            y as int,
            x as int,
            weights(*loss_fn, sig_y@, sig_x@)(y as int, x as int),
        ),
        answers::<T, u32, F>(*loss_fn, sig_y@[y as int], sig_x@[x as int]),
{
    let local = evaluate(loss_fn, &sig_y[y], &sig_x[x]);
    let left = if x == 0 {
        INFINITY
    } else {
        losses.get(y, x - 1)
    };
    let down = if y == 0 {
        INFINITY
    } else {
        losses.get(y - 1, x)
    };
    let down_left = if y == 0 || x == 0 {
        INFINITY
    } else {
        losses.get(y - 1, x - 1)
    };
    let mut least = left;
    if down < least {
        least = down;
    }
    if down_left < least {
        least = down_left;
    }
    if least == INFINITY {
        least = 0;
    }
    losses.set(y, x, (local as u64).saturating_add(least));
}

/// Cell (`a`, `b`) is one of the five cells just outside the far corner of
/// the square of side `size`.
pub open spec fn margin_cell(size: int, a: int, b: int) -> bool {
    (a == size && size - 2 <= b <= size) || (b == size && size - 2 <= a <= size - 1)
}

/// Marks the five cells just outside the far corner of a square that is
/// smaller than the table, and leaves every other cell as it was.
pub fn seed_margin(losses: &mut Grid<u64>, size: usize)
    requires
        old(losses).wf(),
        size <= old(losses).side(),
        size >= 2 || size == old(losses).side(),
    ensures
        final(losses).wf(),
        final(losses).side() == old(losses).side(),
        forall|a: int, b: int|
            0 <= a < old(losses).side() && 0 <= b < old(losses).side() ==> #[trigger] final(losses).at(
                a,
                b,
            ) == (if margin_cell(size as int, a, b) {
                INFINITY
            } else {
                old(losses).at(a, b)
            }),
{
    if size < losses.side_len() {
        stamp(losses, size, size - 2);
        stamp(losses, size, size - 1);
        stamp(losses, size, size);
        stamp(losses, size - 1, size);
        stamp(losses, size - 2, size);
    }
}

/// Fills the square of side `size` with cumulative losses, row by row from
/// row 0 and within a row from column 0.
pub fn fill_losses<T, F: Fn(&T, &T) -> u32>(
    losses: &mut Grid<u64>,
    sig_y: &[T],
    sig_x: &[T],
    loss_fn: &F,
    size: usize,
)
    requires
        old(losses).wf(),
        size <= old(losses).side(),
        size >= 2 || size == old(losses).side(),
        size <= MAX_SIDE,
        size <= sig_y@.len(),
        size <= sig_x@.len(),
        is_pure::<T, u32, F>(*loss_fn),
    ensures
        final(losses).wf(),
        final(losses).side() == old(losses).side(),
        losses_agree(*final(losses), weights(*loss_fn, sig_y@, sig_x@), square(size as int)),
        region_answered(*loss_fn, sig_y@, sig_x@, square(size as int)),
        forall|a: int, b: int|
            0 <= a < old(losses).side() && 0 <= b < old(losses).side() && !(a < size && b < size)
                ==> #[trigger] final(losses).at(a, b) == (if margin_cell(size as int, a, b) {
                INFINITY
            } else {
                old(losses).at(a, b)
            }),
{
    seed_margin(losses, size);
    let ghost seeded = *losses;
    let ghost w = weights(*loss_fn, sig_y@, sig_x@);
    let ghost r = square(size as int);
    let mut y: usize = 0;
    while y < size
        invariant
            y <= size,
            losses.wf(),
            losses.side() == old(losses).side(),
            size <= losses.side(),
            size <= MAX_SIDE,
            size <= sig_y@.len(),
            size <= sig_x@.len(),
            is_pure::<T, u32, F>(*loss_fn),
            w == weights(*loss_fn, sig_y@, sig_x@),
            r == square(size as int),
            forall|a: int, b: int|
                0 <= a < losses.side() && 0 <= b < losses.side() && !(a < size && b < size)
                    ==> #[trigger] losses.at(a, b) == seeded.at(a, b),
            forall|a: int, b: int|
                0 <= a < y && 0 <= b < size ==> #[trigger] losses.at(a, b) == cumulative_loss(
                    w,
                    r,
                    a,
                    b,
                ),
            forall|a: int, b: int|
                0 <= a < y && 0 <= b < size ==> #[trigger] answers::<T, u32, F>(
                    *loss_fn,
                    sig_y@[a],
                    sig_x@[b],
                ),
        decreases size - y,
    {
        let mut x: usize = 0;
        while x < size
            invariant
                y < size,
                x <= size,
                losses.wf(),
                losses.side() == old(losses).side(),
                size <= losses.side(),
                size <= MAX_SIDE,
                size <= sig_y@.len(),
                size <= sig_x@.len(),
                is_pure::<T, u32, F>(*loss_fn),
                w == weights(*loss_fn, sig_y@, sig_x@),
                r == square(size as int),
                forall|a: int, b: int|
                    0 <= a < losses.side() && 0 <= b < losses.side() && !(a < size && b < size)
                        ==> #[trigger] losses.at(a, b) == seeded.at(a, b),
                forall|a: int, b: int|
                    0 <= a < y && 0 <= b < size ==> #[trigger] losses.at(a, b) == cumulative_loss(
                        w,
                        r,
                        a,
                        b,
                    ),
                forall|b: int|
                    0 <= b < x ==> #[trigger] losses.at(y as int, b) == cumulative_loss(
                        w,
                        r,
                        y as int,
                        b,
                    ),
                forall|a: int, b: int|
                    0 <= a < y && 0 <= b < size ==> #[trigger] answers::<T, u32, F>(
                        *loss_fn,
                        sig_y@[a],
                        sig_x@[b],
                    ),
                forall|b: int|
                    0 <= b < x ==> #[trigger] answers::<T, u32, F>(
                        *loss_fn,
                        sig_y@[y as int],
                        sig_x@[b],
                    ),
            decreases size - x,
        {
            proof {
                lemma_loss_cell_matches(*losses, w, r, y as int, x as int);
            }
            calc_loss_cell(losses, sig_y, sig_x, loss_fn, y, x);
            x += 1;
        }
        y += 1;
    }
}

} // verus!
