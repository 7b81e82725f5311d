//! A toroidal Game of Life on a bit-packed grid.
//!
//! The grid stores one bit per cell in machine words. A grid can be cut into
//! word-aligned partitions that are written independently of each other, and a
//! universe advances a pair of grids one generation at a time, reseeding the
//! population when it stagnates.

pub mod bits;
pub mod cellgrid;
pub mod cellgrid_iterator;
pub mod cellgrid_slice;
pub mod cellgrid_slice_iterator;
pub mod indexer;
mod outside;
pub mod rules;
pub mod screen;
pub mod universe;

pub use crate::cellgrid::CellGrid;
pub use crate::cellgrid_iterator::CellGridIterator;
pub use crate::cellgrid_slice::CellGridSlice;
pub use crate::cellgrid_slice_iterator::CellGridSliceIterator;
pub use crate::indexer::{BoundsError, ErrorKind};
pub use crate::screen::Screen;
pub use crate::universe::Universe;
