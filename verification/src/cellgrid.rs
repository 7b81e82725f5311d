//! The grid: one bit per cell, packed into words, on a torus.

use vstd::prelude::*;
use crate::bits::{bits_of, lemma_bits_update, lemma_word_bit_update, lemma_word_in_range, words_for};
use crate::indexer::{lemma_linear_bounds, linear, wrap, BoundsError, ErrorKind, Indexer};
use crate::outside::random_usize;

verus! {

/// A grid of cells, each alive or dead, whose opposite edges touch.
pub struct CellGrid {
    pub(crate) indexer: Indexer,
    pub(crate) cells: Vec<usize>,
}

/// One if the neighbour of `(x, y)` at offset `(dx, dy)` is alive, else zero.
pub open spec fn neighbour(grid: Seq<bool>, w: int, h: int, x: int, y: int, dx: int, dy: int) -> int {
    if dx == 0 && dy == 0 {
        0
    } else if grid[linear(wrap(x, dx, w), wrap(y, dy, h), w)] {
        1
    } else {
        0
    }
}

/// The live neighbours of `(x, y)` in the row at offset `dy`.
pub open spec fn neighbour_row(grid: Seq<bool>, w: int, h: int, x: int, y: int, dy: int) -> int {
    neighbour(grid, w, h, x, y, -1, dy) + neighbour(grid, w, h, x, y, 0, dy) + neighbour(
        grid,
        w,
        h,
        x,
        y,
        1,
        dy,
    )
}

/// The number of live cells among the eight neighbours of `(x, y)` on the
/// torus. On a grid narrower or lower than three cells one cell is the
/// neighbour at several offsets and counts once for each of them.
pub open spec fn neighbour_count(grid: Seq<bool>, w: int, h: int, x: int, y: int) -> int {
    neighbour_row(grid, w, h, x, y, -1) + neighbour_row(grid, w, h, x, y, 0) + neighbour_row(
        grid,
        w,
        h,
        x,
        y,
        1,
    )
}

/// The live neighbours met before the offset `(dx, dy)` when the offsets are
/// walked row by row.
pub open spec fn neighbours_before(
    grid: Seq<bool>,
    w: int,
    h: int,
    x: int,
    y: int,
    dx: int,
    dy: int,
) -> int {
    (if dy > -1 {
        neighbour_row(grid, w, h, x, y, -1)
    } else {
        0
    }) + (if dy > 0 {
        neighbour_row(grid, w, h, x, y, 0)
    } else {
        0
    }) + (if dy > 1 {
        neighbour_row(grid, w, h, x, y, 1)
    } else {
        0
    }) + (if dx > -1 {
        neighbour(grid, w, h, x, y, -1, dy)
    } else {
        0
    }) + (if dx > 0 {
        neighbour(grid, w, h, x, y, 0, dy)
    } else {
        0
    }) + (if dx > 1 {
        neighbour(grid, w, h, x, y, 1, dy)
    } else {
        0
    })
}

impl View for CellGrid {
    type V = Seq<bool>;

    /// The cells in row-major order: cell `(x, y)` is at `y * width + x`.
    open spec fn view(&self) -> Seq<bool> {
        bits_of(self.words(), self.bit_count())
    }
}

impl CellGrid {
    /// The number of columns.
    pub closed spec fn spec_width(&self) -> usize {
        self.indexer.width
    }

    /// The number of rows.
    pub closed spec fn spec_height(&self) -> usize {
        self.indexer.height
    }

    /// The words that hold the cells.
    pub closed spec fn words(&self) -> Seq<usize> {
        self.cells@
    }

    /// The number of cells.
    pub open spec fn bit_count(&self) -> int {
        self.width() * self.height()
    }

    /// The grid has positive dimensions and exactly the words that its cells
    /// need.
    pub closed spec fn wf(&self) -> bool {
        &&& self.indexer.wf()
        &&& self.indexer.offset == 0
        &&& self.indexer.width * self.indexer.height + usize::BITS <= usize::MAX
        &&& self.cells@.len() == words_for(self.indexer.width * self.indexer.height)
    }

    /// Whether the cell `(x, y)` is alive.
    pub open spec fn alive(&self, x: int, y: int) -> bool {
        self@[linear(x, y, self.width() as int)]
    }

    /// What a well-formed grid is made of.
    pub proof fn lemma_wf(&self)
        requires
            self.wf(),
        ensures
            self.width() > 0,
            self.height() > 0,
            self.bit_count() + usize::BITS <= usize::MAX,
            self.words().len() == words_for(self.bit_count()),
            self@.len() == self.bit_count(),
    {
    }

    /// A cell that has been written reads as the value written, and every
    /// other cell of the grid reads as it did before.
    pub proof fn lemma_set_then_get(
        before: CellGrid,
        after: CellGrid,
        x: int,
        y: int,
        value: bool,
        x2: int,
        y2: int,
    )
        requires
            before.wf(),
            after.width() == before.width(),
            after.height() == before.height(),
            0 <= x < before.width(),
            0 <= y < before.height(),
            0 <= x2 < before.width(),
            0 <= y2 < before.height(),
            after@ == before@.update(linear(x, y, before.width() as int), value),
        ensures
            after.alive(x, y) == value,
            (x2, y2) != (x, y) ==> after.alive(x2, y2) == before.alive(x2, y2),
    {
        lemma_linear_bounds(x, y, before.width() as int, before.height() as int);
        lemma_linear_bounds(x2, y2, before.width() as int, before.height() as int);
    }

    /// How the grid's fields stand behind its public description.
    pub(crate) proof fn lemma_repr(&self)
        ensures
            self.width() == self.indexer.width,
            self.height() == self.indexer.height,
            self.words() == self.cells@,
            self.wf() <==> {
                &&& self.indexer.wf()
                &&& self.indexer.offset == 0
                &&& self.indexer.width * self.indexer.height + usize::BITS <= usize::MAX
                &&& self.cells@.len() == words_for(self.indexer.width * self.indexer.height)
            },
    {
    }

    /// The number of columns.
    #[verifier::when_used_as_spec(spec_width)]
    pub fn width(&self) -> (r: usize)
        ensures
            r == self.width(),
    {
        self.indexer.width
    }

    /// The number of rows.
    #[verifier::when_used_as_spec(spec_height)]
    pub fn height(&self) -> (r: usize)
        ensures
            r == self.height(),
    {
        self.indexer.height
    }

    /// Makes a grid of `width` by `height` cells: all dead, or, with
    /// `randomize`, each word drawn from the random source. The cells, counted
    /// in whole words, must be countable in a `usize`.
    pub fn new(width: usize, height: usize, randomize: bool) -> (r: Result<CellGrid, BoundsError>)
        requires
            width * height + usize::BITS <= usize::MAX,
        ensures
            r is Err <==> width == 0 || height == 0,
            r matches Err(e) ==> e.kind == ErrorKind::SizeError,
            r matches Ok(grid) ==> {
                &&& grid.wf()
                &&& grid.width() == width
                &&& grid.height() == height
                &&& !randomize ==> forall|i: int| 0 <= i < grid.bit_count() ==> !grid@[i]
            },
    {
        if width == 0 || height == 0 {
            return Err(BoundsError { kind: ErrorKind::SizeError });
        }
        Ok(CellGrid::filled(width, height, randomize))
    }

    /// Makes a grid of positive dimensions, word by word.
    pub(crate) fn filled(width: usize, height: usize, randomize: bool) -> (grid: CellGrid)
        requires
            width > 0,
            height > 0,
            width * height + usize::BITS <= usize::MAX,
        ensures
            grid.wf(),
            grid.width() == width,
            grid.height() == height,
            !randomize ==> forall|i: int| 0 <= i < grid.bit_count() ==> !grid@[i],
    {
        let indexer = Indexer::new(width, height, 0);
        let cell_count: usize = indexer.cell_count();
        let mut result = CellGrid { indexer: indexer, cells: Vec::with_capacity(cell_count) };
        let mut filled: usize = 0;
        while filled < cell_count
            invariant
                filled <= cell_count,
                result.cells@.len() == filled,
                result.indexer.width == width,
                result.indexer.height == height,
                result.indexer.offset == 0,
                !randomize ==> forall|k: int| 0 <= k < filled ==> result.cells@[k] == 0,
            decreases cell_count - filled,
        {
            result.cells.push(
                if randomize {
                    random_usize()
                } else {
                    0
                },
            );
            filled += 1;
        }
        proof {
            if !randomize {
                assert forall|i: int| 0 <= i < result.bit_count() implies !result@[i] by {
                    lemma_word_in_range(i, result.bit_count());
                    lemma_word_bit_update(0, 0, (i % (usize::BITS as int)) as usize);
                }
            }
        }
        result
    }

    /// Whether the cell `(x, y)` is alive.
    pub fn get(&self, x: usize, y: usize) -> (r: Result<bool, BoundsError>)
        requires
            self.wf(),
        ensures
            r is Err <==> x >= self.width() || y >= self.height(),
            r matches Err(e) ==> e.kind == ErrorKind::PositionError,
            r matches Ok(bit) ==> bit == self.alive(x as int, y as int),
    {
        match self.indexer.index(x, y) {
            Ok(index) => {
                let ghost bit = linear(x as int, y as int, self.width() as int);
                proof {
                    lemma_linear_bounds(x as int, y as int, self.width() as int, self.height() as int);
                    lemma_word_in_range(bit, self.bit_count());
                }
                Ok(index.get(&self.cells, Ghost(bit % (usize::BITS as int))))
            },
            Err(e) => Err(e),
        }
    }

    /// Makes the cell `(x, y)` alive or dead; no other cell changes.
    pub fn set(&mut self, x: usize, y: usize, bit: bool) -> (r: Result<(), BoundsError>)
        requires
            old(self).wf(),
        ensures
            final(self).wf(),
            final(self).width() == old(self).width(),
            final(self).height() == old(self).height(),
            r is Err <==> x >= old(self).width() || y >= old(self).height(),
            r matches Err(e) ==> e.kind == ErrorKind::PositionError && final(self)@ == old(self)@,
            r is Ok ==> final(self)@ == old(self)@.update(
                linear(x as int, y as int, old(self).width() as int),
                bit,
            ),
    {
        match self.indexer.index(x, y) {
            Ok(index) => {
                let ghost at = linear(x as int, y as int, self.width() as int);
                proof {
                    lemma_linear_bounds(x as int, y as int, self.width() as int, self.height() as int);
                    lemma_word_in_range(at, self.bit_count());
                }
                index.set(&mut self.cells, bit, Ghost(at % (usize::BITS as int)));
                proof {
                    lemma_bits_update(
                        old(self).cells@,
                        self.cells@[index.cell as int],
                        self.bit_count(),
                        at,
                        bit,
                    );
                }
                Ok(())
            },
            Err(e) => Err(e),
        }
    }

    /// Counts the live cells among the eight neighbours of `(x0, y0)`, with
    /// the grid's edges wrapping around.
    pub fn neighbours(&self, x0: usize, y0: usize) -> (r: Result<u8, BoundsError>)
        requires
            self.wf(),
        ensures
            r is Err <==> x0 >= self.width() || y0 >= self.height(),
            r matches Err(e) ==> e.kind == ErrorKind::PositionError,
            r matches Ok(count) ==> count == neighbour_count(
                self@,
                self.width() as int,
                self.height() as int,
                x0 as int,
                y0 as int,
            ) && count <= 8,
    {
        if x0 >= self.indexer.width || y0 >= self.indexer.height {
            return Err(BoundsError { kind: ErrorKind::PositionError });
        }
        let ghost w = self.width() as int;
        let ghost h = self.height() as int;
        let mut result: u8 = 0u8;
        let mut dy: isize = -1;
        while dy <= 1
            invariant
                self.wf(),
                w == self.width(),
                h == self.height(),
                x0 < w,
                y0 < h,
                -1 <= dy <= 2,
                result == neighbours_before(self@, w, h, x0 as int, y0 as int, -1, dy as int),
            decreases 2 - dy,
        {
            let y: usize = self.indexer.add_y(y0, dy);
            let mut dx: isize = -1;
            while dx <= 1
                invariant
                    self.wf(),
                    w == self.width(),
                    h == self.height(),
                    x0 < w,
                    y0 < h,
                    -1 <= dy <= 1,
                    -1 <= dx <= 2,
                    y == wrap(y0 as int, dy as int, h),
                    y < h,
                    result == neighbours_before(
                        self@,
                        w,
                        h,
                        x0 as int,
                        y0 as int,
                        dx as int,
                        dy as int,
                    ),
                decreases 2 - dx,
            {
                let x: usize = self.indexer.add_x(x0, dx);
                if !(dy == 0 && dx == 0) {
                    match self.get(x, y) {
                        Ok(alive) => {
                            if alive {
                                result += 1;
                            }
                        },
                        Err(e) => {
                            return Err(e);
                        },
                    }
                }
                dx += 1;
            }
            dy += 1;
        }
        Ok(result)
    }

    /// Makes one cell, picked at random, alive or dead.
    pub fn set_random(&mut self, bit: bool) -> (r: Result<(), BoundsError>)
        requires
            old(self).wf(),
        ensures
            r is Ok,
            final(self).wf(),
            final(self).width() == old(self).width(),
            final(self).height() == old(self).height(),
            exists|i: int|
                0 <= i < old(self).bit_count() && final(self)@ == #[trigger] old(self)@.update(
                    i,
                    bit,
                ),
    {
        let (x, y) = self.indexer.random();
        proof {
            lemma_linear_bounds(x as int, y as int, self.width() as int, self.height() as int);
        }
        self.set(x, y, bit)
    }
}

} // verus!
