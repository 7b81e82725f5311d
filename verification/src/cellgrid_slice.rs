//! Partitions of a grid: runs of whole words that are written independently.
//!
//! A grid lends its words to a sequence of partitions and takes them back when
//! the partitions have been written. No two partitions of one split share a
//! word, so each can be handed to a worker of its own.

use vstd::prelude::*;
use crate::bits::{bits_of, bits_per_cell, ceil_div, lemma_bit_at_shift, lemma_bits_update,
    lemma_ceil_div, lemma_ceil_div_bounds, lemma_word_in_range, words_for};
use crate::cellgrid::CellGrid;
use crate::indexer::{lemma_linear_bounds, linear, BoundsError, ErrorKind, Indexer};

verus! {

/// The cells of a grid from one linear index up to another, in words of
/// their own.
pub struct CellGridSlice {
    pub(crate) indexer: Indexer,
    pub(crate) len: usize,
    pub(crate) cells: Vec<usize>,
}

impl View for CellGridSlice {
    type V = Seq<bool>;

    /// The partition's cells, the first being the grid's cell at
    /// `bit_offset()`.
    open spec fn view(&self) -> Seq<bool> {
        bits_of(self.words(), self.bit_len() as int)
    }
}

/// The words of each partition when `words` words are cut for `slices`
/// workers.
pub open spec fn chunk_words(words: int, slices: int) -> int {
    ceil_div(words, slices)
}

/// The bits of each partition but the last.
pub open spec fn chunk_bits(words: int, slices: int) -> int {
    chunk_words(words, slices) * usize::BITS
}

/// The number of partitions: as many as hold all words, none empty.
pub open spec fn partition_count(words: int, slices: int) -> int {
    ceil_div(words, chunk_words(words, slices))
}

/// The partitions follow each other without gap or overlap and together hold
/// the cells of a `width` by `height` grid.
pub open spec fn is_partition(parts: Seq<CellGridSlice>, width: int, height: int) -> bool {
    &&& parts.len() > 0
    &&& forall|k: int|
        0 <= k < parts.len() ==> {
            &&& (#[trigger] parts[k]).wf()
            &&& parts[k].width() == width
            &&& parts[k].height() == height
            &&& parts[k].bit_len() > 0
        }
    &&& parts[0].bit_offset() == 0
    &&& forall|k: int|
        0 <= k < parts.len() - 1 ==> (#[trigger] parts[k]).bit_offset() + parts[k].bit_len()
            == parts[k + 1].bit_offset()
    &&& parts.last().bit_offset() + parts.last().bit_len() == width * height
}

/// The cells of all the partitions together.
pub open spec fn total_bit_len(parts: Seq<CellGridSlice>) -> int
    decreases parts.len(),
{
    if parts.len() == 0 {
        0
    } else {
        total_bit_len(parts.drop_last()) + parts.last().bit_len()
    }
}

/// In a partition of a grid a later part begins where the earlier ones have
/// ended.
pub proof fn lemma_partition_ordered(
    parts: Seq<CellGridSlice>,
    width: int,
    height: int,
    a: int,
    b: int,
)
    requires
        is_partition(parts, width, height),
        0 <= a < b < parts.len(),
    ensures
        parts[a].bit_offset() + parts[a].bit_len() <= parts[b].bit_offset(),
    decreases b - a,
{
    if a + 1 < b {
        lemma_partition_ordered(parts, width, height, a, b - 1);
        assert(parts[b - 1].bit_offset() + parts[b - 1].bit_len() == parts[b - 1 + 1].bit_offset());
    } else {
        assert(parts[a].bit_offset() + parts[a].bit_len() == parts[a + 1].bit_offset());
    }
}

proof fn lemma_partition_find(
    parts: Seq<CellGridSlice>,
    width: int,
    height: int,
    i: int,
    from: int,
) -> (k: int)
    requires
        is_partition(parts, width, height),
        0 <= from < parts.len(),
        parts[from].bit_offset() <= i < width * height,
    ensures
        from <= k < parts.len(),
        parts[k].holds(i),
    decreases parts.len() - from,
{
    if i < parts[from].bit_offset() + parts[from].bit_len() {
        from
    } else {
        assert(parts[from].bit_offset() + parts[from].bit_len() == parts[from + 1].bit_offset()
            || from == parts.len() - 1);
        lemma_partition_find(parts, width, height, i, from + 1)
    }
}

/// Every cell of the grid lies in exactly one part of a partition: the parts
/// leave no gap and do not overlap.
pub proof fn lemma_partition_cover(parts: Seq<CellGridSlice>, width: int, height: int, i: int) -> (k:
    int)
    requires
        is_partition(parts, width, height),
        0 <= i < width * height,
    ensures
        0 <= k < parts.len(),
        parts[k].holds(i),
        forall|j: int| 0 <= j < parts.len() && #[trigger] parts[j].holds(i) ==> j == k,
{
    let k = lemma_partition_find(parts, width, height, i, 0);
    assert forall|j: int| 0 <= j < parts.len() && #[trigger] parts[j].holds(i) implies j == k by {
        if j < k {
            lemma_partition_ordered(parts, width, height, j, k);
        } else if k < j {
            lemma_partition_ordered(parts, width, height, k, j);
        }
    }
    k
}

/// Every coordinate of the grid is covered by exactly one part of a
/// partition, and so comes out of exactly one part's walk.
pub proof fn lemma_partition_cover_cell(
    parts: Seq<CellGridSlice>,
    width: int,
    height: int,
    x: int,
    y: int,
) -> (k: int)
    requires
        is_partition(parts, width, height),
        0 <= x < width,
        0 <= y < height,
    ensures
        0 <= k < parts.len(),
        parts[k].covers(x, y),
        forall|j: int| 0 <= j < parts.len() && #[trigger] parts[j].covers(x, y) ==> j == k,
{
    lemma_linear_bounds(x, y, width, height);
    let i = linear(x, y, width);
    let k = lemma_partition_cover(parts, width, height, i);
    assert(parts[k].width() == width);
    assert forall|j: int| 0 <= j < parts.len() && #[trigger] parts[j].covers(x, y) implies j
        == k by {
        assert(parts[j].width() == width);
        assert(parts[j].holds(i));
    }
    k
}

/// The coordinate of the cell `j` places after the cell with linear index
/// `offset`, in a grid of the given width.
pub open spec fn coordinate_at(offset: int, width: int, j: int) -> (int, int) {
    ((offset + j) % width, (offset + j) / width)
}

/// The walk over a partition hands out the coordinates of the cells that
/// the partition covers, each once: the `j`-th is the cell with linear index
/// `bit_offset() + j`.
pub proof fn lemma_walk_covers(part: CellGridSlice, x: int, y: int) -> (j: int)
    requires
        part.wf(),
        0 <= x < part.width(),
        0 <= y < part.height(),
        part.covers(x, y),
    ensures
        0 <= j < part.bit_len(),
        coordinate_at(part.bit_offset() as int, part.width() as int, j) == (x, y),
        forall|i: int|
            0 <= i < part.bit_len() && #[trigger] coordinate_at(
                part.bit_offset() as int,
                part.width() as int,
                i,
            ) == (x, y) ==> i == j,
{
    let width = part.width() as int;
    lemma_linear_bounds(x, y, width, part.height() as int);
    let j = linear(x, y, width) - part.bit_offset();
    assert forall|i: int|
        0 <= i < part.bit_len() && #[trigger] coordinate_at(part.bit_offset() as int, width, i) == (
            x,
            y,
        ) implies i == j by {
        vstd::arithmetic::div_mod::lemma_fundamental_div_mod(part.bit_offset() + i, width);
        assert(width * y == y * width) by (nonlinear_arith);
    }
    j
}

/// A walk over a partition hands out only coordinates that the partition
/// covers.
pub proof fn lemma_walk_stays_inside(part: CellGridSlice, j: int)
    requires
        part.wf(),
        0 <= j < part.bit_len(),
    ensures
        ({
            let at = coordinate_at(part.bit_offset() as int, part.width() as int, j);
            &&& 0 <= at.0 < part.width()
            &&& 0 <= at.1 < part.height()
            &&& part.covers(at.0, at.1)
        }),
{
    crate::indexer::lemma_linear_inverse(
        part.bit_offset() + j,
        part.width() as int,
        part.height() as int,
    );
}

proof fn lemma_total_prefix(parts: Seq<CellGridSlice>, width: int, height: int, n: int)
    requires
        is_partition(parts, width, height),
        0 < n <= parts.len(),
    ensures
        total_bit_len(parts.take(n)) == parts[n - 1].bit_offset() + parts[n - 1].bit_len(),
    decreases n,
{
    let head = parts.take(n);
    assert(head.last() == parts[n - 1]);
    assert(head.drop_last() =~= parts.take(n - 1));
    if n == 1 {
        assert(total_bit_len(parts.take(0)) == 0);
    } else {
        lemma_total_prefix(parts, width, height, n - 1);
        assert(parts[n - 2].bit_offset() + parts[n - 2].bit_len() == parts[n - 2 + 1].bit_offset());
    }
}

/// The parts of a partition hold as many cells as the grid has.
pub proof fn lemma_partition_total(parts: Seq<CellGridSlice>, width: int, height: int)
    requires
        is_partition(parts, width, height),
    ensures
        total_bit_len(parts) == width * height,
{
    lemma_total_prefix(parts, width, height, parts.len() as int);
    assert(parts.take(parts.len() as int) =~= parts);
}

/// The cells and words of the run that starts at word `start`, when runs of
/// `run` words are cut from the words of `bits` cells.
proof fn lemma_run(bits: int, start: int, run: int)
    requires
        0 < bits,
        0 < run,
        0 <= start < words_for(bits),
    ensures
        ({
            let words = words_for(bits);
            let end = if words - start < run {
                words
            } else {
                start + run
            };
            let offset = start * usize::BITS;
            let rest = bits - offset;
            let len = if rest < run * usize::BITS {
                rest
            } else {
                run * usize::BITS
            };
            &&& 0 <= offset < bits
            &&& 0 < len
            &&& words_for(len) == end - start
            &&& offset + len == (if end * usize::BITS < bits {
                end * usize::BITS
            } else {
                bits
            })
            &&& offset % (usize::BITS as int) == 0
        }),
{
    if usize::BITS == 32 {
        assert(start * 32 < bits);
    } else {
        assert(start * 64 < bits);
    }
}

/// `a * b`, kept out of sight of the arithmetic solver until it is asked for.
#[verifier::opaque]
spec fn times(a: int, b: int) -> int {
    a * b
}

/// The partition `part` holds the cells of `cells` from word `start` on, for
/// at most `run` words.
spec fn is_run(
    part: CellGridSlice,
    cells: Seq<bool>,
    width: int,
    height: int,
    start: int,
    run: int,
) -> bool {
    let offset = start * usize::BITS;
    let rest = width * height - offset;
    &&& part.wf()
    &&& part.width() == width
    &&& part.height() == height
    &&& part.bit_offset() == offset
    &&& part.bit_len() > 0
    &&& part.bit_len() == (if rest < run * usize::BITS {
        rest
    } else {
        run * usize::BITS
    })
    &&& part@ == cells.subrange(offset, offset + part.bit_len())
}

/// Runs of `run` words, cut one after the other until the words are used
/// up, are a partition of the grid, and the `k`-th begins at cell
/// `k * run * usize::BITS`.
proof fn lemma_runs(parts: Seq<CellGridSlice>, cells: Seq<bool>, width: int, height: int, run: int)
    requires
        0 < width * height,
        0 < run,
        0 < parts.len(),
        times(parts.len() - 1, run) < words_for(width * height) <= times(parts.len() as int, run),
        forall|k: int|
            0 <= k < parts.len() ==> is_run(#[trigger] parts[k], cells, width, height, times(k, run), run),
    ensures
        is_partition(parts, width, height),
        forall|k: int|
            0 <= k < parts.len() ==> {
                let step = run * usize::BITS;
                let rest = width * height - k * step;
                &&& (#[trigger] parts[k]).bit_offset() == k * step
                &&& parts[k].bit_len() == (if rest < step {
                    rest
                } else {
                    step
                })
                &&& parts[k]@ == cells.subrange(k * step, k * step + parts[k].bit_len())
            },
{
    reveal(times);
    let bits = width * height;
    let words = words_for(bits);
    let n = parts.len() as int;
    let step = run * usize::BITS;
    assert forall|k: int| 0 <= k < n implies {
        &&& (#[trigger] parts[k]).bit_offset() == k * step
        &&& 0 <= k * run < words
        &&& (k < n - 1 ==> (k + 1) * run < words)
        &&& (k == n - 1 ==> words <= k * run + run)
    } by {
        assert(is_run(parts[k], cells, width, height, times(k, run), run));
        assert(k * step == (k * run) * usize::BITS) by (nonlinear_arith)
            requires
                step == run * usize::BITS,
        ;
        assert(0 <= k * run <= (n - 1) * run) by (nonlinear_arith)
            requires
                0 <= k <= n - 1,
                0 < run,
        ;
        if k < n - 1 {
            assert((k + 1) * run <= (n - 1) * run) by (nonlinear_arith)
                requires
                    k + 1 <= n - 1,
                    0 < run,
            ;
        } else {
            assert(k * run + run == n * run) by (nonlinear_arith)
                requires
                    k == n - 1,
            ;
        }
    }
    assert forall|k: int| 0 <= k < n - 1 implies (#[trigger] parts[k]).bit_offset()
        + parts[k].bit_len() == parts[k + 1].bit_offset() by {
        assert(is_run(parts[k], cells, width, height, times(k, run), run));
        assert(is_run(parts[k + 1], cells, width, height, times(k + 1, run), run));
        lemma_run(bits, k * run, run);
        assert((k + 1) * run == k * run + run) by (nonlinear_arith);
        lemma_run(bits, (k + 1) * run, run);
    }
    assert(parts.last().bit_offset() + parts.last().bit_len() == bits) by {
        assert(is_run(parts[n - 1], cells, width, height, times(n - 1, run), run));
        lemma_run(bits, (n - 1) * run, run);
        lemma_ceil_div_bounds(bits, usize::BITS as int);
    }
    assert(parts[0].bit_offset() == 0);
    assert forall|k: int| 0 <= k < n implies {
        &&& (#[trigger] parts[k]).wf()
        &&& parts[k].width() == width
        &&& parts[k].height() == height
        &&& parts[k].bit_len() > 0
    } by {
        assert(is_run(parts[k], cells, width, height, times(k, run), run));
    }
    assert forall|k: int| 0 <= k < n implies {
        let rest = width * height - k * step;
        &&& (#[trigger] parts[k]).bit_offset() == k * step
        &&& parts[k].bit_len() == (if rest < step {
            rest
        } else {
            step
        })
        &&& parts[k]@ == cells.subrange(k * step, k * step + parts[k].bit_len())
    } by {
        assert(is_run(parts[k], cells, width, height, times(k, run), run));
    }
}

/// A run that ends at or before the bit where another begins also ends
/// at or before the word where the other begins.
proof fn lemma_words_ordered(offset: int, len: int, later: int)
    requires
        0 <= offset,
        0 <= len,
        offset + len <= later,
        offset % (usize::BITS as int) == 0,
        later % (usize::BITS as int) == 0,
    ensures
        offset / (usize::BITS as int) + words_for(len) <= later / (usize::BITS as int),
{
    if usize::BITS == 32 {
        assert(offset / 32 + words_for(len) <= later / 32);
    } else {
        assert(offset / 64 + words_for(len) <= later / 64);
    }
}

/// Where the words of one part of a partition lie among the grid's words.
proof fn lemma_part_words(parts: Seq<CellGridSlice>, width: int, height: int, k: int)
    requires
        is_partition(parts, width, height),
        0 <= k < parts.len(),
    ensures
        parts[k].wf(),
        parts[k].bit_offset() % (usize::BITS as usize) == 0,
        parts[k].words().len() == words_for(parts[k].bit_len() as int),
        0 <= parts[k].word_offset(),
        parts[k].word_offset() + parts[k].words().len() <= words_for(width * height),
        parts[k].bit_offset() + parts[k].bit_len() <= width * height,
{
    assert(parts[k].wf());
    let offset = parts[k].bit_offset() as int;
    let len = parts[k].bit_len() as int;
    let bits = width * height;
    if usize::BITS == 32 {
        assert(offset / 32 + words_for(len) <= words_for(bits));
    } else {
        assert(offset / 64 + words_for(len) <= words_for(bits));
    }
}

/// Writes the words of `source` over those of `cells` from `base` on.
fn put_words(cells: &mut Vec<usize>, base: usize, source: &Vec<usize>)
    requires
        base + source@.len() <= old(cells)@.len(),
    ensures
        final(cells)@.len() == old(cells)@.len(),
        forall|m: int|
            0 <= m < final(cells)@.len() ==> #[trigger] final(cells)@[m] == (if base <= m < base
                + source@.len() {
                source@[m - base]
            } else {
                old(cells)@[m]
            }),
{
    let count: usize = source.len();
    let total: usize = cells.len();
    let mut j: usize = 0;
    while j < count
        invariant
            j <= count,
            count == source@.len(),
            total == cells@.len(),
            base + count <= cells@.len(),
            cells@.len() == old(cells)@.len(),
            forall|m: int|
                0 <= m < cells@.len() ==> #[trigger] cells@[m] == (if base <= m < base + j {
                    source@[m - base]
                } else {
                    old(cells)@[m]
                }),
        decreases count - j,
    {
        cells[base + j] = source[j];
        j += 1;
    }
}

fn copy_words(source: &Vec<usize>, start: usize, end: usize) -> (r: Vec<usize>)
    requires
        start <= end <= source@.len(),
    ensures
        r@ == source@.subrange(start as int, end as int),
{
    let mut r: Vec<usize> = Vec::new();
    let mut at: usize = start;
    while at < end
        invariant
            start <= at <= end <= source@.len(),
            r@ == source@.subrange(start as int, at as int),
        decreases end - at,
    {
        r.push(source[at]);
        at += 1;
    }
    r
}

impl CellGridSlice {
    /// The number of columns of the grid.
    pub closed spec fn spec_width(&self) -> usize {
        self.indexer.width
    }

    /// The number of rows of the grid.
    pub closed spec fn spec_height(&self) -> usize {
        self.indexer.height
    }

    /// The linear index of the partition's first cell.
    pub closed spec fn spec_bit_offset(&self) -> usize {
        self.indexer.offset
    }

    /// The number of cells of the partition.
    pub closed spec fn spec_bit_len(&self) -> usize {
        self.len
    }

    /// The words that hold the partition's cells.
    pub closed spec fn words(&self) -> Seq<usize> {
        self.cells@
    }

    /// The partition begins at a word boundary, ends inside the grid and has
    /// exactly the words that its cells need.
    pub closed spec fn wf(&self) -> bool {
        &&& self.indexer.wf()
        &&& self.indexer.width * self.indexer.height + usize::BITS <= usize::MAX
        &&& self.indexer.offset % (usize::BITS as usize) == 0
        &&& self.indexer.offset + self.len <= self.indexer.width * self.indexer.height
        &&& self.cells@.len() == words_for(self.len as int)
    }

    /// The index, among the grid's words, of the partition's first word.
    pub open spec fn word_offset(&self) -> int {
        self.bit_offset() as int / (usize::BITS as int)
    }

    /// Whether the cell with linear index `i` belongs to the partition.
    pub open spec fn holds(&self, i: int) -> bool {
        self.bit_offset() <= i < self.bit_offset() + self.bit_len()
    }

    /// Whether the cell `(x, y)` belongs to the partition.
    pub open spec fn covers(&self, x: int, y: int) -> bool {
        self.holds(linear(x, y, self.width() as int))
    }

    /// What a well-formed partition is made of.
    pub proof fn lemma_wf(&self)
        requires
            self.wf(),
        ensures
            self.width() > 0,
            self.height() > 0,
            self.width() * self.height() + usize::BITS <= usize::MAX,
            self.bit_offset() % (usize::BITS as usize) == 0,
            self.bit_offset() + self.bit_len() <= self.width() * self.height(),
            self.words().len() == words_for(self.bit_len() as int),
            self@.len() == self.bit_len(),
    {
    }

    /// The number of columns of the grid.
    #[verifier::when_used_as_spec(spec_width)]
    pub fn width(&self) -> (r: usize)
        ensures
            r == self.width(),
    {
        self.indexer.width
    }

    /// The number of rows of the grid.
    #[verifier::when_used_as_spec(spec_height)]
    pub fn height(&self) -> (r: usize)
        ensures
            r == self.height(),
    {
        self.indexer.height
    }

    /// The linear index of the partition's first cell.
    #[verifier::when_used_as_spec(spec_bit_offset)]
    pub fn bit_offset(&self) -> (r: usize)
        ensures
            r == self.bit_offset(),
    {
        self.indexer.offset
    }

    /// The number of cells of the partition.
    #[verifier::when_used_as_spec(spec_bit_len)]
    pub fn bit_len(&self) -> (r: usize)
        ensures
            r == self.bit_len(),
    {
        self.len
    }

    /// Makes the cell `(x, y)` alive or dead. The coordinate is checked
    /// against the grid; that it lies in this partition is the caller's part.
    pub fn set(&mut self, x: usize, y: usize, bit: bool) -> (r: Result<(), BoundsError>)
        requires
            old(self).wf(),
            x < old(self).width() && y < old(self).height() ==> old(self).covers(x as int, y as int),
        ensures
            final(self).wf(),
            final(self).width() == old(self).width(),
            final(self).height() == old(self).height(),
            final(self).bit_offset() == old(self).bit_offset(),
            final(self).bit_len() == old(self).bit_len(),
            r is Err <==> x >= old(self).width() || y >= old(self).height(),
            r matches Err(e) ==> e.kind == ErrorKind::PositionError && final(self)@ == old(self)@,
            r is Ok ==> final(self)@ == old(self)@.update(
                linear(x as int, y as int, old(self).width() as int) - old(self).bit_offset(),
                bit,
            ),
    {
        match self.indexer.index(x, y) {
            Ok(index) => {
                let ghost at = linear(x as int, y as int, self.width() as int) - self.bit_offset();
                proof {
                    lemma_word_in_range(at, self.len as int);
                }
                index.set(&mut self.cells, bit, Ghost(at % (usize::BITS as int)));
                proof {
                    lemma_bits_update(
                        old(self).cells@,
                        self.cells@[index.cell as int],
                        self.len as int,
                        at,
                        bit,
                    );
                }
                Ok(())
            },
            Err(e) => Err(e),
        }
    }
}

impl CellGrid {
    /// Copies the run of at most `run` words that starts at word `start` into
    /// a partition of its own.
    fn cut(&self, start: usize, run: usize) -> (part: CellGridSlice)
        requires
            self.wf(),
            start < self.words().len(),
            0 < run,
            run * usize::BITS <= usize::MAX,
        ensures
            is_run(part, self@, self.width() as int, self.height() as int, start as int, run as int),
            part.words().len() == (if self.words().len() - start < run {
                self.words().len() - start
            } else {
                run as int
            }),
    {
        proof {
            self.lemma_repr();
            assert(self.indexer.width * self.indexer.height > 0) by (nonlinear_arith)
                requires
                    self.indexer.width > 0,
                    self.indexer.height > 0,
            ;
            lemma_run(self.bit_count(), start as int, run as int);
        }
        let word_bits: usize = bits_per_cell();
        let cells_len: usize = self.cells.len();
        let bits: usize = self.indexer.width * self.indexer.height;
        let end: usize = if cells_len - start < run {
            cells_len
        } else {
            start + run
        };
        let offset: usize = start * word_bits;
        let rest: usize = bits - offset;
        let chunk_bits: usize = run * word_bits;
        let len: usize = if rest < chunk_bits {
            rest
        } else {
            chunk_bits
        };
        let group: Vec<usize> = copy_words(&self.cells, start, end);
        let part = CellGridSlice {
            indexer: Indexer::new(self.indexer.width, self.indexer.height, offset),
            len: len,
            cells: group,
        };
        proof {
            assert(part@ =~= self@.subrange(offset as int, offset + len)) by {
                assert forall|j: int| 0 <= j < len implies part@[j] == self@[offset + j] by {
                    lemma_bit_at_shift(offset as int, j);
                    lemma_word_in_range(j, len as int);
                }
            }
        }
        part
    }

    /// Cuts the grid's words into at most `slices` runs of
    /// `ceil(words / slices)` words, the last run possibly shorter, and hands
    /// out one partition for each run, in order. The partitions hold copies of
    /// the words; the grid is left as it was until `merge` takes them back.
    pub fn split_mut(&mut self, slices: usize) -> (parts: Vec<CellGridSlice>)
        requires
            old(self).wf(),
            slices > 0,
        ensures
            final(self).wf(),
            final(self).width() == old(self).width(),
            final(self).height() == old(self).height(),
            final(self).words() == old(self).words(),
            is_partition(parts@, old(self).width() as int, old(self).height() as int),
            parts@.len() == partition_count(old(self).words().len() as int, slices as int),
            parts@.len() <= slices,
            (slices - 1) * chunk_words(old(self).words().len() as int, slices as int) < old(
                self,
            ).words().len() ==> parts@.len() == slices,
            forall|k: int|
                0 <= k < parts@.len() ==> {
                    let step = chunk_bits(old(self).words().len() as int, slices as int);
                    let rest = old(self).bit_count() - k * step;
                    &&& (#[trigger] parts@[k]).bit_offset() == k * step
                    &&& parts@[k].bit_len() == (if rest < step {
                        rest
                    } else {
                        step
                    })
                    &&& parts@[k]@ == old(self)@.subrange(k * step, k * step + parts@[k].bit_len())
                },
    {
        proof {
            self.lemma_repr();
            self.lemma_wf();
        }
        let cells_len: usize = self.cells.len();
        let ghost bits = self.bit_count();
        proof {
            lemma_ceil_div_bounds(bits, usize::BITS as int);
            lemma_ceil_div_bounds(cells_len as int, slices as int);
            assert(bits > 0) by (nonlinear_arith)
                requires
                    bits == self.width() * self.height(),
                    self.width() > 0,
                    self.height() > 0,
            ;
        }
        let mut chunk_size: usize = cells_len / slices;
        if cells_len % slices > 0 {
            chunk_size += 1;
        }
        proof {
            assert(chunk_size <= cells_len) by (nonlinear_arith)
                requires
                    (chunk_size - 1) * slices < cells_len,
                    slices >= 1,
                    cells_len >= 1,
            ;
            assert(chunk_size * usize::BITS <= cells_len * usize::BITS) by (nonlinear_arith)
                requires
                    chunk_size <= cells_len,
            ;
            if usize::BITS == 32 {
                assert(cells_len * 32 < bits + 32);
            } else {
                assert(cells_len * 64 < bits + 64);
            }
        }
        let mut result: Vec<CellGridSlice> = Vec::new();
        let mut start: usize = 0;
        proof {
            assert(times(0, chunk_size as int) == 0) by {
                reveal(times);
            }
        }
        while start < cells_len
            invariant
                *self == *old(self),
                self.wf(),
                cells_len == self.words().len(),
                chunk_size > 0,
                chunk_size * usize::BITS <= usize::MAX,
                start <= cells_len,
                start < cells_len ==> start == times(result@.len() as int, chunk_size as int),
                times(result@.len() as int, chunk_size as int) >= start,
                result@.len() > 0 ==> times(result@.len() - 1, chunk_size as int) < cells_len,
                result@.len() == 0 ==> start == 0,
                forall|k: int|
                    0 <= k < result@.len() ==> is_run(
                        #[trigger] result@[k],
                        self@,
                        self.width() as int,
                        self.height() as int,
                        times(k, chunk_size as int),
                        chunk_size as int,
                    ),
            decreases cells_len - start,
        {
            let part = self.cut(start, chunk_size);
            proof {
                let n = result@.len() as int;
                assert(times(n + 1, chunk_size as int) == times(n, chunk_size as int) + chunk_size
                    && times(n + 1 - 1, chunk_size as int) == times(n, chunk_size as int)) by {
                    reveal(times);
                    assert((n + 1) * chunk_size == n * chunk_size + chunk_size) by (nonlinear_arith);
                }
            }
            start = start + part.cells.len();
            result.push(part);
        }
        proof {
            let n = result@.len() as int;
            assert(times(0, chunk_size as int) == 0) by {
                reveal(times);
            }
            lemma_runs(
                result@,
                self@,
                self.width() as int,
                self.height() as int,
                chunk_size as int,
            );
            assert((n - 1) * chunk_size < cells_len <= n * chunk_size) by {
                reveal(times);
            }
            lemma_ceil_div(cells_len as int, chunk_size as int, n);
            assert(n <= slices) by (nonlinear_arith)
                requires
                    (n - 1) * chunk_size < cells_len,
                    cells_len <= chunk_size * slices,
                    chunk_size > 0,
            ;
            if (slices - 1) * chunk_size < cells_len {
                assert(chunk_size * slices == slices * chunk_size) by (nonlinear_arith);
                lemma_ceil_div(cells_len as int, chunk_size as int, slices as int);
            }
        }
        result
    }

    /// Takes the words of the partitions back into the grid: afterwards each
    /// cell of the grid is what its partition holds for it.
    pub fn merge(&mut self, parts: &Vec<CellGridSlice>)
        requires
            old(self).wf(),
            is_partition(parts@, old(self).width() as int, old(self).height() as int),
        ensures
            final(self).wf(),
            final(self).width() == old(self).width(),
            final(self).height() == old(self).height(),
            forall|k: int, j: int|
                0 <= k < parts@.len() && 0 <= j < parts@[k].bit_len() ==> final(self)@[parts@[k].bit_offset()
                    + j] == #[trigger] parts@[k]@[j],
    {
        let word_bits: usize = bits_per_cell();
        let ghost bits = self.bit_count();
        let ghost width = self.width() as int;
        let ghost height = self.height() as int;
        proof {
            self.lemma_repr();
        }
        let mut k: usize = 0;
        while k < parts.len()
            invariant
                self.indexer == old(self).indexer,
                self.cells@.len() == words_for(bits),
                bits == width * height,
                word_bits == usize::BITS,
                is_partition(parts@, width, height),
                k <= parts@.len(),
                forall|a: int, b: int|
                    0 <= a < k && 0 <= b < parts@[a].words().len() ==> self.cells@[parts@[a].word_offset()
                        + b] == #[trigger] parts@[a].words()[b],
            decreases parts@.len() - k,
        {
            let part: &CellGridSlice = &parts[k];
            let base: usize = part.indexer.offset / word_bits;
            proof {
                lemma_part_words(parts@, width, height, k as int);
                assert forall|a: int| 0 <= a < k implies parts@[a].word_offset()
                    + parts@[a].words().len() <= base by {
                    lemma_part_words(parts@, width, height, a);
                    lemma_partition_ordered(parts@, width, height, a, k as int);
                    lemma_words_ordered(
                        parts@[a].bit_offset() as int,
                        parts@[a].bit_len() as int,
                        parts@[k as int].bit_offset() as int,
                    );
                }
            }
            put_words(&mut self.cells, base, &part.cells);
            k += 1;
        }
        proof {
            self.lemma_repr();
            old(self).lemma_repr();
            assert forall|a: int, b: int|
                0 <= a < parts@.len() && 0 <= b < parts@[a].bit_len() implies self@[parts@[a].bit_offset()
                + b] == #[trigger] parts@[a]@[b] by {
                let off = parts@[a].bit_offset() as int;
                lemma_part_words(parts@, width, height, a);
                lemma_bit_at_shift(off, b);
                lemma_word_in_range(b, parts@[a].bit_len() as int);
                let word = b / (usize::BITS as int);
                assert(self.cells@[parts@[a].word_offset() + word] == parts@[a].words()[word]);
            }
        }
    }
}

} // verus!
