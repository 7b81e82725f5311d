//! Walking the coordinates of a partition in ascending linear order.

use vstd::prelude::*;
use crate::cellgrid_slice::{coordinate_at, CellGridSlice};
use crate::indexer::Indexer;

verus! {

/// A walk over the coordinates of the cells of one partition.
pub struct CellGridSliceIterator {
    indexer: Indexer,
    current: usize,
    len: usize,
}

impl CellGridSlice {
    /// Starts a walk over the partition's coordinates at its first cell.
    pub fn iter(&self) -> (it: CellGridSliceIterator)
        requires
            self.wf(),
        ensures
            it.wf(),
            it.width() == self.width(),
            it.bit_offset() == self.bit_offset(),
            it.bit_len() == self.bit_len(),
            it.position() == 0,
    {
        proof {
            self.lemma_wf();
        }
        CellGridSliceIterator {
            indexer: Indexer::new(self.width(), self.height(), self.bit_offset()),
            current: 0,
            len: self.bit_len(),
        }
    }
}

impl CellGridSliceIterator {
    /// The number of columns of the grid.
    pub closed spec fn width(&self) -> int {
        self.indexer.width as int
    }

    /// The linear index of the partition's first cell.
    pub closed spec fn bit_offset(&self) -> int {
        self.indexer.offset as int
    }

    /// The number of cells of the partition.
    pub closed spec fn bit_len(&self) -> int {
        self.len as int
    }

    /// How many coordinates have been handed out.
    pub closed spec fn position(&self) -> int {
        self.current as int
    }

    /// The walk stands on a cell of the partition or just behind the last one.
    pub closed spec fn wf(&self) -> bool {
        &&& self.indexer.width > 0
        &&& self.current <= self.len
        &&& self.indexer.offset + self.len <= usize::MAX
    }

    /// Hands out the coordinate of the next cell, or `None` behind the last
    /// cell. The coordinates are those of the linear indices from
    /// `bit_offset()` up to `bit_offset() + bit_len()`, in that order.
    pub fn next(&mut self) -> (r: Option<(usize, usize)>)
        requires
            old(self).wf(),
        ensures
            final(self).wf(),
            final(self).width() == old(self).width(),
            final(self).bit_offset() == old(self).bit_offset(),
            final(self).bit_len() == old(self).bit_len(),
            0 <= old(self).position() <= old(self).bit_len(),
            old(self).position() < old(self).bit_len() ==> {
                &&& r matches Some(at)
                &&& (at.0 as int, at.1 as int) == coordinate_at(
                    old(self).bit_offset(),
                    old(self).width(),
                    old(self).position(),
                )
                &&& final(self).position() == old(self).position() + 1
            },
            old(self).position() == old(self).bit_len() ==> {
                &&& r is None
                &&& final(self).position() == old(self).position()
            },
    {
        let c: usize = self.current;
        if c < self.len {
            self.current += 1;
            return Some(self.indexer.pos(c));
        }
        None
    }
}

} // verus!
