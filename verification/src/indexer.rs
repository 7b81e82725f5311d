//! Coordinates, linear bit indices and toroidal arithmetic.

use vstd::prelude::*;
use vstd::arithmetic::div_mod::lemma_fundamental_div_mod_converse;
use vstd::arithmetic::div_mod::lemma_fundamental_div_mod;
use crate::bits::{bits_per_cell, lemma_word_bit_update, mask_of, word_bit, words_for};
use crate::outside::random_usize;

verus! {

/// What was wrong with a request.
#[derive(Debug, Clone, Copy, PartialEq, Eq)]
pub enum ErrorKind {
    /// A grid was asked for with a width or a height of zero.
    SizeError,
    /// A coordinate lies outside the grid.
    PositionError,
}

/// A request that a grid refused.
#[derive(Debug, Clone, Copy)]
pub struct BoundsError {
    pub kind: ErrorKind,
}

/// The place of one bit in word storage.
pub struct BitIndex {
    /// The word that holds the bit.
    pub cell: usize,
    /// The word with only that bit set.
    pub bit_mask: usize,
}

impl BitIndex {
    /// Reads the bit in `cells`.
    pub(crate) fn get(&self, cells: &Vec<usize>, Ghost(shift): Ghost<int>) -> (b: bool)
        requires
            self.cell < cells@.len(),
            0 <= shift < usize::BITS,
            self.bit_mask == mask_of(shift),
        ensures
            b == word_bit(cells@[self.cell as int], shift),
    {
        let cell: usize = cells[self.cell];
        let bit: usize = cell & self.bit_mask;
        bit != 0
    }

    /// Sets or clears the bit in `cells`; no other bit changes.
    pub(crate) fn set(&self, cells: &mut Vec<usize>, bit: bool, Ghost(shift): Ghost<int>)
        requires
            self.cell < old(cells)@.len(),
            0 <= shift < usize::BITS,
            self.bit_mask == mask_of(shift),
        ensures
            final(cells)@ == old(cells)@.update(self.cell as int, final(cells)@[self.cell as int]),
            forall|t: int|
                0 <= t < usize::BITS ==> #[trigger] word_bit(final(cells)@[self.cell as int], t)
                    == (if t == shift {
                    bit
                } else {
                    word_bit(old(cells)@[self.cell as int], t)
                }),
    {
        let mut cell: usize = cells[self.cell];
        let ghost before = cell;
        if bit {
            cell |= self.bit_mask;
        } else {
            cell &= !self.bit_mask;
        }
        proof {
            assert forall|t: int| 0 <= t < usize::BITS implies #[trigger] word_bit(cell, t) == (if t
                == shift {
                bit
            } else {
                word_bit(before, t)
            }) by {
                lemma_word_bit_update(before, shift as usize, t as usize);
            }
        }
        cells[self.cell] = cell;
    }
}

/// Maps coordinates of a `width` by `height` grid to bits of a word range
/// that starts at linear bit index `offset`.
pub struct Indexer {
    pub width: usize,
    pub height: usize,
    pub offset: usize,
}

/// The coordinate at distance `d` from `n` on a ring of `max` places.
pub open spec fn wrap(n: int, d: int, max: int) -> int {
    (n + d) % max
}

/// The linear index of the cell `(x, y)` in a grid of the given width.
pub open spec fn linear(x: int, y: int, width: int) -> int {
    y * width + x
}

/// A cell inside a `width` by `height` grid has a linear index below
/// `width * height`, and the index gives the coordinates back.
pub proof fn lemma_linear_bounds(x: int, y: int, width: int, height: int)
    requires
        0 <= x < width,
        0 <= y < height,
    ensures
        0 <= linear(x, y, width) < width * height,
        linear(x, y, width) % width == x,
        linear(x, y, width) / width == y,
{
    assert(0 <= y * width && y * width + width <= height * width) by (nonlinear_arith)
        requires
            0 <= y < height,
            0 < width,
    ;
    assert(height * width == width * height) by (nonlinear_arith);
    lemma_fundamental_div_mod_converse(y * width + x, width, y, x);
}

/// Every linear index below `width * height` is the index of exactly the cell
/// `(i % width, i / width)`.
pub proof fn lemma_linear_inverse(i: int, width: int, height: int)
    requires
        0 < width,
        0 <= i < width * height,
    ensures
        0 <= i % width < width,
        0 <= i / width < height,
        linear(i % width, i / width, width) == i,
{
    lemma_fundamental_div_mod(i, width);
    assert(width * (i / width) == (i / width) * width) by (nonlinear_arith);
    assert(0 <= i / width < height) by (nonlinear_arith)
        requires
            0 < width,
            0 <= i < width * height,
            i == width * (i / width) + i % width,
            0 <= i % width < width,
    ;
}

impl Indexer {
    /// The dimensions are positive and the grid's bits can be counted.
    pub open spec fn wf(&self) -> bool {
        &&& self.width > 0
        &&& self.height > 0
        &&& self.width * self.height <= usize::MAX
    }

    /// The number of cells of the grid.
    pub open spec fn bit_count(&self) -> int {
        self.width * self.height
    }

    pub fn new(width: usize, height: usize, offset: usize) -> (r: Indexer)
        ensures
            r.width == width,
            r.height == height,
            r.offset == offset,
    {
        Indexer { width: width, height: height, offset: offset }
    }

    /// Finds the bit of the cell `(x, y)`, counted from `offset`.
    pub fn index(&self, x: usize, y: usize) -> (r: Result<BitIndex, BoundsError>)
        requires
            self.wf(),
            x < self.width && y < self.height ==> self.offset <= linear(
                x as int,
                y as int,
                self.width as int,
            ),
        ensures
            r is Err <==> x >= self.width || y >= self.height,
            r matches Err(e) ==> e.kind == ErrorKind::PositionError,
            r matches Ok(index) ==> {
                let bit = linear(x as int, y as int, self.width as int) - self.offset;
                &&& index.cell == bit / (usize::BITS as int)
                &&& index.bit_mask == mask_of(bit % (usize::BITS as int))
            },
    {
        if x >= self.width || y >= self.height {
            return Err(BoundsError { kind: ErrorKind::PositionError });
        }
        proof {
            lemma_linear_bounds(x as int, y as int, self.width as int, self.height as int);
        }
        let bit_index: usize = y * self.width + x - self.offset;
        let shift: usize = bit_index % bits_per_cell();
        let bit_mask: usize = 1usize << shift;
        Ok(BitIndex { cell: bit_index / bits_per_cell(), bit_mask: bit_mask })
    }

    /// The coordinates of the bit `index` places after `offset`.
    pub fn pos(&self, index: usize) -> (r: (usize, usize))
        requires
            self.width > 0,
            index + self.offset <= usize::MAX,
        ensures
            r.0 == (index + self.offset) % (self.width as int),
            r.1 == (index + self.offset) / (self.width as int),
    {
        let c1: usize = index + self.offset;
        (c1 % self.width, c1 / self.width)
    }

    /// Moves `n` by `dn` places on a ring of `max` places.
    pub fn add(n: usize, dn: isize, max: usize) -> (r: usize)
        requires
            max > 0,
        ensures
            r == wrap(n as int, dn as int, max as int),
            r < max,
    {
        let at: usize = n % max;
        proof {
            lemma_fundamental_div_mod(n as int, max as int);
        }
        if dn < 0 {
            let past: usize = (-(dn + 1)) as usize;
            let back: usize = past % max + 1;
            let r: usize = if at >= back {
                at - back
            } else {
                max - (back - at)
            };
            proof {
                lemma_fundamental_div_mod(past as int, max as int);
                let qn = n as int / max as int;
                let qp = past as int / max as int;
                let q = if at >= back {
                    qn - qp
                } else {
                    qn - qp - 1
                };
                assert(q * max == qn * max - qp * max - (if at >= back {
                    0
                } else {
                    max as int
                })) by (nonlinear_arith)
                    requires
                        q == (if at >= back {
                            qn - qp
                        } else {
                            qn - qp - 1
                        }),
                ;
                assert(max * qn == qn * max && max * qp == qp * max) by (nonlinear_arith);
                lemma_fundamental_div_mod_converse(n + dn, max as int, q, r as int);
            }
            r
        } else {
            let fwd: usize = (dn as usize) % max;
            let r: usize = if fwd >= max - at {
                fwd - (max - at)
            } else {
                at + fwd
            };
            proof {
                lemma_fundamental_div_mod(dn as int, max as int);
                let qn = n as int / max as int;
                let qd = dn as int / max as int;
                let q = if fwd >= max - at {
                    qn + qd + 1
                } else {
                    qn + qd
                };
                assert(q * max == qn * max + qd * max + (if fwd >= max - at {
                    max as int
                } else {
                    0
                })) by (nonlinear_arith)
                    requires
                        q == (if fwd >= max - at {
                            qn + qd + 1
                        } else {
                            qn + qd
                        }),
                ;
                assert(max * qn == qn * max && max * qd == qd * max) by (nonlinear_arith);
                lemma_fundamental_div_mod_converse(n + dn, max as int, q, r as int);
            }
            r
        }
    }

    /// Moves a column by `dx` places, wrapping at the grid's edges.
    pub fn add_x(&self, x: usize, dx: isize) -> (r: usize)
        requires
            self.width > 0,
        ensures
            r == wrap(x as int, dx as int, self.width as int),
            r < self.width,
    {
        Indexer::add(x, dx, self.width)
    }

    /// Moves a row by `dy` places, wrapping at the grid's edges.
    pub fn add_y(&self, y: usize, dy: isize) -> (r: usize)
        requires
            self.height > 0,
        ensures
            r == wrap(y as int, dy as int, self.height as int),
            r < self.height,
    {
        Indexer::add(y, dy, self.height)
    }

    /// Folds two arbitrary words into a coordinate of the grid.
    pub fn pick(&self, rx: usize, ry: usize) -> (r: (usize, usize))
        requires
            self.width > 0,
            self.height > 0,
        ensures
            r.0 == rx % self.width,
            r.1 == ry % self.height,
            r.0 < self.width,
            r.1 < self.height,
    {
        (rx % self.width, ry % self.height)
    }

    /// Picks a coordinate of the grid at random.
    pub fn random(&self) -> (r: (usize, usize))
        requires
            self.width > 0,
            self.height > 0,
        ensures
            r.0 < self.width,
            r.1 < self.height,
    {
        let rx: usize = random_usize();
        let ry: usize = random_usize();
        self.pick(rx, ry)
    }

    /// The number of words that hold the grid's bits.
    pub fn cell_count(&self) -> (r: usize)
        requires
            self.width * self.height <= usize::MAX,
        ensures
            r == words_for(self.bit_count()),
    {
        let bits_count: usize = self.width * self.height;
        let mut cell_count: usize = bits_count / bits_per_cell();
        if bits_count % bits_per_cell() > 0 {
            cell_count += 1
        }
        cell_count
    }
}

} // verus!
