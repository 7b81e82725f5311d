//! Walking the cells of a grid in row-major order.

use vstd::prelude::*;
use crate::cellgrid::CellGrid;
use crate::indexer::{lemma_linear_bounds, linear};

verus! {

/// A walk over the cells of a grid, row by row from the origin.
pub struct CellGridIterator<'a> {
    x: usize,
    y: usize,
    cell_grid: &'a CellGrid,
}

impl CellGrid {
    /// Starts a walk over the cells at the origin.
    pub fn iter(&self) -> (it: CellGridIterator<'_>)
        requires
            self.wf(),
        ensures
            it.wf(),
            it.grid() == *self,
            it.position() == 0,
    {
        proof {
            self.lemma_wf();
        }
        CellGridIterator { x: 0, y: 0, cell_grid: self }
    }
}

impl<'a> CellGridIterator<'a> {
    /// The grid that is walked.
    pub closed spec fn grid(&self) -> CellGrid {
        *self.cell_grid
    }

    /// The linear index of the cell that comes next.
    pub closed spec fn position(&self) -> int {
        linear(self.x as int, self.y as int, self.cell_grid.width() as int)
    }

    /// The walk stands on a cell of the grid or just behind the last one.
    pub closed spec fn wf(&self) -> bool {
        &&& self.cell_grid.wf()
        &&& self.x < self.cell_grid.width()
        &&& self.y <= self.cell_grid.height()
        &&& self.y == self.cell_grid.height() ==> self.x == 0
    }

    fn step(&mut self)
        requires
            old(self).wf(),
            old(self).y < old(self).cell_grid.height(),
        ensures
            final(self).wf(),
            final(self).cell_grid == old(self).cell_grid,
            final(self).position() == old(self).position() + 1,
    {
        let width: usize = self.cell_grid.width();
        assert((self.y + 1) * width == self.y * width + width) by (nonlinear_arith);
        self.x += 1;
        if self.x >= width {
            self.y += 1;
            self.x = 0;
        }
    }

    /// Hands out the next cell as `(x, y, alive)`, or `None` behind the last
    /// cell.
    pub fn next(&mut self) -> (r: Option<(usize, usize, bool)>)
        requires
            old(self).wf(),
        ensures
            final(self).wf(),
            final(self).grid() == old(self).grid(),
            0 <= old(self).position() <= old(self).grid().bit_count(),
            old(self).position() < old(self).grid().bit_count() ==> {
                &&& r == Some(
                    (
                        (old(self).position() % (old(self).grid().width() as int)) as usize,
                        (old(self).position() / (old(self).grid().width() as int)) as usize,
                        old(self).grid()@[old(self).position()],
                    ),
                )
                &&& final(self).position() == old(self).position() + 1
            },
            old(self).position() == old(self).grid().bit_count() ==> {
                &&& r is None
                &&& final(self).position() == old(self).position()
            },
    {
        let width: usize = self.cell_grid.width();
        let height: usize = self.cell_grid.height();
        proof {
            self.cell_grid.lemma_wf();
            assert(height * width == width * height) by (nonlinear_arith);
            if self.y < height {
                lemma_linear_bounds(self.x as int, self.y as int, width as int, height as int);
            }
        }
        if self.x < width && self.y < height {
            let (x, y) = (self.x, self.y);
            self.step();
            match self.cell_grid.get(x, y) {
                Ok(alive) => {
                    return Some((x, y, alive));
                },
                Err(_) => {
                    return None;
                },
            }
        }
        None
    }
}

} // verus!
