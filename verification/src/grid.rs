//! Square tables of cells, addressed by row and column.

use vstd::prelude::*;

verus! {

/// A square table of copyable cells. Row `y` and column `x` both range over
/// `0 .. side()`.
pub struct Grid<V> {
    rows: Vec<Vec<V>>,
}

impl<V: Copy> Grid<V> {
    /// The number of rows, which is also the number of columns.
    pub closed spec fn side(&self) -> int {
        self.rows@.len() as int
    }

    /// Every row has as many cells as there are rows.
    pub closed spec fn wf(&self) -> bool {
        forall|y: int| 0 <= y < self.rows@.len() ==> (#[trigger] self.rows@[y])@.len() == self.rows@.len()
    }

    /// The cell in row `y` and column `x`.
    pub closed spec fn at(&self, y: int, x: int) -> V {
        self.rows@[y]@[x]
    }

    /// A table of `side` rows and columns with `fill` in every cell.
    pub fn new(side: usize, fill: V) -> (g: Self)
        ensures
            g.wf(),
            g.side() == side,
            forall|y: int, x: int| 0 <= y < side && 0 <= x < side ==> #[trigger] g.at(y, x) == fill,
    {
        let mut rows: Vec<Vec<V>> = Vec::new();
        let mut y: usize = 0;
        while y < side
            invariant
                y <= side,
                rows@.len() == y,
                forall|a: int| 0 <= a < y ==> (#[trigger] rows@[a])@.len() == side,
                forall|a: int, b: int| 0 <= a < y && 0 <= b < side ==> #[trigger] rows@[a]@[b] == fill,
            decreases side - y,
        {
            let mut row: Vec<V> = Vec::new();
            let mut x: usize = 0;
            while x < side
                invariant
                    x <= side,
                    row@.len() == x,
                    forall|b: int| 0 <= b < x ==> #[trigger] row@[b] == fill,
                decreases side - x,
            {
                row.push(fill);
                x += 1;
            }
            rows.push(row);
            y += 1;
        }
        Grid { rows }
    }

    /// The number of rows.
    pub fn side_len(&self) -> (n: usize)
        ensures
            n == self.side(),
    {
        self.rows.len()
    }

    /// Reads the cell in row `y` and column `x`.
    pub fn get(&self, y: usize, x: usize) -> (v: V)
        requires
            self.wf(),
            y < self.side(),
            x < self.side(),
        ensures
            v == self.at(y as int, x as int),
    {
        self.rows[y][x]
    }

    /// Writes `v` to the cell in row `y` and column `x` and leaves every
    /// other cell as it was.
    pub fn set(&mut self, y: usize, x: usize, v: V)
        requires
            old(self).wf(),
            y < old(self).side(),
            x < old(self).side(),
        ensures
            final(self).wf(),
            final(self).side() == old(self).side(),
            final(self).at(y as int, x as int) == v,
            forall|a: int, b: int|
                0 <= a < old(self).side() && 0 <= b < old(self).side() && !(a == y && b == x)
                    ==> #[trigger] final(self).at(a, b) == old(self).at(a, b),
    {
        self.rows[y][x] = v;
    }
}

} // verus!
