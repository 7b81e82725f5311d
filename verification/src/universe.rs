//! The universe: two grids that take turns, one read and one written, and a
//! short memory of how the population changed.

use vstd::prelude::*;
use crate::cellgrid::CellGrid;
use crate::cellgrid_slice::{is_partition, lemma_partition_cover, CellGridSlice};
use crate::indexer::{lemma_linear_inverse, BoundsError, ErrorKind};
use crate::outside::available_cpus;
use crate::rules::{count_alive, lemma_count_bounds, lemma_count_split, next_generation, population,
    survive, with_alive};

verus! {

/// What a worker reports of its partition: the live cells it wrote, and how
/// many more cells came alive than died.
pub struct SliceCalc(pub usize, pub i32);

/// The partition `after` holds the next generation of the cells that
/// `before` stands for in the grid `current`, and `r` reports their count
/// and their net change.
pub open spec fn slice_computed(
    current: CellGrid,
    before: CellGridSlice,
    after: CellGridSlice,
    r: Result<SliceCalc, BoundsError>,
) -> bool {
    let next = next_generation(current@, current.width() as int, current.height() as int);
    let from = before.bit_offset() as int;
    let to = from + before.bit_len();
    &&& after.wf()
    &&& after.width() == before.width()
    &&& after.height() == before.height()
    &&& after.bit_offset() == before.bit_offset()
    &&& after.bit_len() == before.bit_len()
    &&& after@ == next.subrange(from, to)
    &&& r matches Ok(calc)
    &&& calc.0 == count_alive(next, from, to)
    &&& calc.1 == count_alive(next, from, to) - count_alive(current@, from, to)
}

/// Writes the next generation of the partition's cells, read from `current`,
/// into the partition.
pub fn calc_slice(current: &CellGrid, slice: &mut CellGridSlice) -> (r: Result<
    SliceCalc,
    BoundsError,
>)
    requires
        current.wf(),
        current.bit_count() <= i32::MAX,
        old(slice).wf(),
        old(slice).width() == current.width(),
        old(slice).height() == current.height(),
    ensures
        slice_computed(*current, *old(slice), *final(slice), r),
{
    let ghost w = current.width() as int;
    let ghost h = current.height() as int;
    let ghost next = next_generation(current@, w, h);
    let ghost from = slice.bit_offset() as int;
    let ghost len = slice.bit_len() as int;
    proof {
        current.lemma_wf();
        slice.lemma_wf();
    }
    let mut cells: usize = 0usize;
    let mut changes: i32 = 0i32;
    let mut it = slice.iter();
    let mut more: bool = true;
    while more
        invariant
            current.wf(),
            current.bit_count() <= i32::MAX,
            w == current.width(),
            h == current.height(),
            w > 0,
            h > 0,
            current@.len() == w * h,
            next == next_generation(current@, w, h),
            slice.wf(),
            slice.width() == w,
            slice.height() == h,
            slice.bit_offset() == from,
            slice.bit_len() == len,
            from + len <= w * h,
            it.wf(),
            it.width() == w,
            it.bit_offset() == from,
            it.bit_len() == len,
            0 <= it.position() <= len,
            !more ==> it.position() == len,
            forall|j: int| 0 <= j < it.position() ==> slice@[j] == next[from + j],
            cells == count_alive(next, from, from + it.position()),
            changes == cells - count_alive(current@, from, from + it.position()),
        decreases len - it.position() + (if more { 1int } else { 0int }),
    {
        let ghost at = from + it.position();
        match it.next() {
            Some((x, y)) => {
                proof {
                    lemma_linear_inverse(at, w, h);
                    lemma_count_bounds(next, from, at);
                    lemma_count_bounds(current@, from, at);
                    slice.lemma_wf();
                }
                let alive: bool = match current.get(x, y) {
                    Ok(alive) => alive,
                    Err(e) => {
                        return Err(e);
                    },
                };
                let neighbours: u8 = match current.neighbours(x, y) {
                    Ok(neighbours) => neighbours,
                    Err(e) => {
                        return Err(e);
                    },
                };
                let survive: bool = survive(alive, neighbours);
                match slice.set(x, y, survive) {
                    Ok(()) => {},
                    Err(e) => {
                        return Err(e);
                    },
                }
                if survive {
                    cells += 1;
                }
                if survive != alive {
                    if survive {
                        changes += 1;
                    } else {
                        changes -= 1;
                    }
                }
            },
            None => {
                more = false;
            },
        }
    }
    proof {
        slice.lemma_wf();
        assert(slice@ =~= next.subrange(from, from + len));
    }
    Ok(SliceCalc(cells, changes))
}

/// The live cells that the workers wrote, all partitions together.
pub open spec fn sum_cells(calcs: Seq<SliceCalc>) -> int
    decreases calcs.len(),
{
    if calcs.len() == 0 {
        0
    } else {
        sum_cells(calcs.drop_last()) + calcs.last().0
    }
}

/// The net change of the population, all partitions together.
pub open spec fn sum_changes(calcs: Seq<SliceCalc>) -> int
    decreases calcs.len(),
{
    if calcs.len() == 0 {
        0
    } else {
        sum_changes(calcs.drop_last()) + calcs.last().1
    }
}

/// Adds up the reports of the workers.
pub fn sum_slice_calcs(calcs: &Vec<SliceCalc>) -> (r: SliceCalc)
    requires
        forall|n: int|
            0 <= n <= calcs@.len() ==> sum_cells(#[trigger] calcs@.take(n)) <= usize::MAX,
        forall|n: int|
            0 <= n <= calcs@.len() ==> i32::MIN <= sum_changes(#[trigger] calcs@.take(n))
                <= i32::MAX,
    ensures
        r.0 == sum_cells(calcs@),
        r.1 == sum_changes(calcs@),
{
    let mut acc = SliceCalc(0usize, 0i32);
    let mut k: usize = 0;
    while k < calcs.len()
        invariant
            k <= calcs@.len(),
            acc.0 == sum_cells(calcs@.take(k as int)),
            acc.1 == sum_changes(calcs@.take(k as int)),
            forall|n: int|
                0 <= n <= calcs@.len() ==> sum_cells(#[trigger] calcs@.take(n)) <= usize::MAX,
            forall|n: int|
                0 <= n <= calcs@.len() ==> i32::MIN <= sum_changes(#[trigger] calcs@.take(n))
                    <= i32::MAX,
        decreases calcs@.len() - k,
    {
        proof {
            let grown = calcs@.take(k + 1);
            assert(grown.drop_last() =~= calcs@.take(k as int));
            assert(grown.last() == calcs@[k as int]);
            assert(sum_cells(grown) <= usize::MAX);
            assert(i32::MIN <= sum_changes(grown) <= i32::MAX);
        }
        acc = SliceCalc(acc.0 + calcs[k].0, acc.1 + calcs[k].1);
        k += 1;
    }
    proof {
        assert(calcs@.take(calcs@.len() as int) =~= calcs@);
    }
    acc
}

/// Runs `calc_slice` on every partition at once: inside `crossbeam::scope`
/// one thread is spawned for each partition, and each is joined before the
/// scope ends. A scope hands back what each worker returned only after all
/// of them have finished, so every partition is then what `calc_slice`
/// makes of it, and the reports stand in the order of the partitions.
/// `crossbeam`'s `spawn` panics where the system refuses another thread.
#[verifier::external_body]
fn calc_slices(current: &CellGrid, slices: &mut Vec<CellGridSlice>) -> (r: Vec<
    Result<SliceCalc, BoundsError>,
>)
    requires
        current.wf(),
        current.bit_count() <= i32::MAX,
        forall|k: int|
            0 <= k < old(slices)@.len() ==> {
                &&& (#[trigger] old(slices)@[k]).wf()
                &&& old(slices)@[k].width() == current.width()
                &&& old(slices)@[k].height() == current.height()
            },
    ensures
        final(slices)@.len() == old(slices)@.len(),
        r@.len() == old(slices)@.len(),
        forall|k: int|
            0 <= k < r@.len() ==> slice_computed(
                *current,
                old(slices)@[k],
                final(slices)@[k],
                #[trigger] r@[k],
            ),
{
    crossbeam::scope(
        |scope|
            {
                let threads: Vec<_> = slices.iter_mut().map(
                    |slice| scope.spawn(move |_| calc_slice(current, slice)),
                ).collect();
                threads.into_iter().map(|thread| thread.join().unwrap()).collect()
            },
    ).unwrap()
}

/// The number of changes that the universe remembers.
pub const CHANGES_HISTORY_LENGTH: usize = 5;

/// The sum of the remembered changes from `from` to the latest.
pub open spec fn suffix_sum(history: Seq<i32>, from: int) -> int
    decreases history.len() - from,
{
    if from < 0 || from >= history.len() {
        0
    } else {
        history[from] + suffix_sum(history, from + 1)
    }
}

/// Whether the latest changes, from some point on, add up to nothing.
pub open spec fn has_zero_suffix(history: Seq<i32>) -> bool {
    exists|from: int| 0 <= from < history.len() && #[trigger] suffix_sum(history, from) == 0
}

/// The history after `change` has come in: the latest five changes at most,
/// the oldest leaving first.
pub open spec fn remember(history: Seq<i32>, change: i32) -> Seq<i32> {
    let grown = history.push(change);
    if grown.len() > CHANGES_HISTORY_LENGTH {
        grown.subrange(grown.len() - CHANGES_HISTORY_LENGTH, grown.len() as int)
    } else {
        grown
    }
}

/// How often a stagnant universe of `alive` live cells tries to make a cell
/// alive: until the count would reach `limit`, and once at least.
pub open spec fn reseed_attempts(limit: int, alive: int) -> int {
    if limit > alive + 1 {
        limit - alive
    } else {
        1
    }
}

/// What one tick makes of a universe: the history takes in the net change of
/// the population; the present generation is the one that follows the old,
/// and, where the history then shows stagnation, the cells of `picks` of it
/// have been made alive, one for each reseeding attempt.
pub open spec fn ticked(before: Universe, after: Universe) -> bool {
    let old_cells = before.grid()@;
    let next = next_generation(
        old_cells,
        before.grid().width() as int,
        before.grid().height() as int,
    );
    let change = population(next) - population(old_cells);
    &&& i32::MIN <= change <= i32::MAX
    &&& after.spawn_limit() == before.spawn_limit()
    &&& after.history() == remember(before.history(), change as i32)
    &&& !has_zero_suffix(after.history()) ==> after.grid()@ == next
    &&& has_zero_suffix(after.history()) ==> exists|picks: Seq<int>|
        {
            &&& picks.len() == reseed_attempts(before.spawn_limit() as int, population(next))
            &&& forall|k: int| 0 <= k < picks.len() ==> 0 <= #[trigger] picks[k] < next.len()
            &&& after.grid()@ == #[trigger] with_alive(next, picks)
        }
}

/// The reports of the workers add up to the counts of the whole grid, part
/// by part.
proof fn lemma_totals(
    parts: Seq<CellGridSlice>,
    calcs: Seq<SliceCalc>,
    cells: Seq<bool>,
    next: Seq<bool>,
    width: int,
    height: int,
    n: int,
)
    requires
        is_partition(parts, width, height),
        calcs.len() == parts.len(),
        0 <= n <= parts.len(),
        forall|k: int|
            0 <= k < parts.len() ==> {
                let from = parts[k].bit_offset() as int;
                let to = from + parts[k].bit_len();
                &&& (#[trigger] calcs[k]).0 == count_alive(next, from, to)
                &&& calcs[k].1 == count_alive(next, from, to) - count_alive(cells, from, to)
            },
    ensures
        ({
            let end = if n == 0 {
                0
            } else {
                parts[n - 1].bit_offset() + parts[n - 1].bit_len()
            };
            &&& 0 <= end <= width * height
            &&& sum_cells(calcs.take(n)) == count_alive(next, 0, end)
            &&& 0 <= sum_cells(calcs.take(n)) <= end
            &&& sum_changes(calcs.take(n)) == count_alive(next, 0, end) - count_alive(cells, 0, end)
            &&& -end <= sum_changes(calcs.take(n)) <= end
        }),
    decreases n,
{
    if n > 0 {
        lemma_totals(parts, calcs, cells, next, width, height, n - 1);
        let head = calcs.take(n);
        assert(head.drop_last() =~= calcs.take(n - 1));
        assert(head.last() == calcs[n - 1]);
        let from = parts[n - 1].bit_offset() as int;
        let to = from + parts[n - 1].bit_len();
        assert(parts[n - 1].wf());
        parts[n - 1].lemma_wf();
        if n > 1 {
            assert(parts[n - 2].bit_offset() + parts[n - 2].bit_len() == parts[n - 2 + 1].bit_offset());
        }
        lemma_count_split(next, 0, from, to);
        lemma_count_split(cells, 0, from, to);
        lemma_count_bounds(next, 0, to);
        lemma_count_bounds(cells, 0, to);
    }
}

/// A pair of grids that advances one generation at a time.
pub struct Universe {
    current: CellGrid,
    next: CellGrid,
    limit: usize,
    changes_history: Vec<i32>,
}

impl Universe {
    /// The grid that holds the present generation.
    pub closed spec fn grid(&self) -> CellGrid {
        self.current
    }

    /// The grid that the next generation is written to.
    pub closed spec fn spare(&self) -> CellGrid {
        self.next
    }

    /// The population up to which a stagnant universe is reseeded.
    pub closed spec fn spec_spawn_limit(&self) -> usize {
        self.limit
    }

    /// The latest net changes of the population, oldest first.
    pub closed spec fn history(&self) -> Seq<i32> {
        self.changes_history@
    }

    /// Both grids are well formed and of one size, the cells can be counted
    /// in an `i32`, the limit is ten in a thousand of the cells, and no more
    /// than five changes are remembered.
    pub closed spec fn wf(&self) -> bool {
        &&& self.current.wf()
        &&& self.next.wf()
        &&& self.next.width() == self.current.width()
        &&& self.next.height() == self.current.height()
        &&& self.current.bit_count() <= i32::MAX
        &&& self.limit == self.current.bit_count() * 10 / 1000
        &&& self.changes_history@.len() <= CHANGES_HISTORY_LENGTH
    }

    /// What a well-formed universe is made of.
    pub proof fn lemma_wf(&self)
        requires
            self.wf(),
        ensures
            self.grid().wf(),
            self.spare().wf(),
            self.spare().width() == self.grid().width(),
            self.spare().height() == self.grid().height(),
            self.grid().bit_count() <= i32::MAX,
            self.spawn_limit() == self.grid().bit_count() * 10 / 1000,
            self.history().len() <= CHANGES_HISTORY_LENGTH,
    {
    }

    /// Makes a universe around `current`, with a spare grid of dead cells and
    /// nothing remembered.
    pub fn with_grid(current: CellGrid) -> (universe: Universe)
        requires
            current.wf(),
            current.bit_count() <= i32::MAX,
        ensures
            universe.wf(),
            universe.grid() == current,
            universe.history() == Seq::<i32>::empty(),
            forall|i: int| 0 <= i < current.bit_count() ==> !universe.spare()@[i],
    {
        proof {
            current.lemma_wf();
        }
        let width: usize = current.width();
        let height: usize = current.height();
        let bits: usize = width * height;
        Universe {
            current: current,
            next: CellGrid::filled(width, height, false),
            limit: bits / 100,
            changes_history: Vec::with_capacity(CHANGES_HISTORY_LENGTH),
        }
    }

    /// Makes a universe of `width` by `height` cells with a random first
    /// generation.
    pub fn new(width: usize, height: usize) -> (r: Result<Universe, BoundsError>)
        requires
            width * height <= i32::MAX,
        ensures
            r is Err <==> width == 0 || height == 0,
            r matches Err(e) ==> e.kind == ErrorKind::SizeError,
            r matches Ok(universe) ==> {
                &&& universe.wf()
                &&& universe.grid().width() == width
                &&& universe.grid().height() == height
                &&& universe.history() == Seq::<i32>::empty()
                &&& forall|i: int| 0 <= i < width * height ==> !universe.spare()@[i]
            },
    {
        match CellGrid::new(width, height, true) {
            Ok(current) => Ok(Universe::with_grid(current)),
            Err(e) => Err(e),
        }
    }

    /// The population up to which a stagnant universe is reseeded: ten in a
    /// thousand of the cells.
    #[verifier::when_used_as_spec(spec_spawn_limit)]
    pub fn spawn_limit(&self) -> (limit: usize)
        ensures
            limit == self.spawn_limit(),
    {
        self.limit
    }

    /// The grid that holds the present generation.
    pub fn current(&self) -> (grid: &CellGrid)
        ensures
            *grid == self.grid(),
    {
        &self.current
    }

    /// Remembers `changes` and tells whether the population has stagnated:
    /// whether the latest changes, from some point on, add up to nothing.
    pub fn is_stable(&mut self, changes: i32) -> (stable: bool)
        requires
            old(self).wf(),
        ensures
            final(self).wf(),
            final(self).grid() == old(self).grid(),
            final(self).spare() == old(self).spare(),
            final(self).spawn_limit() == old(self).spawn_limit(),
            final(self).history() == remember(old(self).history(), changes),
            stable == has_zero_suffix(final(self).history()),
    {
        self.changes_history.push(changes);
        while self.changes_history.len() > CHANGES_HISTORY_LENGTH
            invariant
                self.current == old(self).current,
                self.next == old(self).next,
                self.limit == old(self).limit,
                old(self).changes_history@.len() <= CHANGES_HISTORY_LENGTH,
                self.changes_history@ == old(self).changes_history@.push(changes)
                    || self.changes_history@ == remember(old(self).changes_history@, changes),
            decreases self.changes_history@.len(),
        {
            self.changes_history.remove(0);
        }
        let count: usize = self.changes_history.len();
        let mut i: usize = 0;
        while i < count
            invariant
                self.current == old(self).current,
                self.next == old(self).next,
                self.limit == old(self).limit,
                old(self).wf(),
                self.changes_history@ == remember(old(self).changes_history@, changes),
                count == self.changes_history@.len(),
                count <= CHANGES_HISTORY_LENGTH,
                i <= count,
                forall|from: int| 0 <= from < i ==> suffix_sum(self.changes_history@, from) != 0,
            decreases count - i,
        {
            let mut sum: i64 = 0i64;
            let mut j: usize = i;
            while j < count
                invariant
                    count == self.changes_history@.len(),
                    count <= CHANGES_HISTORY_LENGTH,
                    i <= j <= count,
                    sum == suffix_sum(self.changes_history@, i as int) - suffix_sum(
                        self.changes_history@,
                        j as int,
                    ),
                    -(j - i) * 0x8000_0000 <= sum <= (j - i) * 0x8000_0000,
                decreases count - j,
            {
                sum = sum + self.changes_history[j] as i64;
                j += 1;
            }
            if sum == 0 {
                return true;
            }
            i += 1;
        }
        false
    }

    /// Tries to make cells alive at random until the count, which starts at
    /// `cells`, would reach the limit, and once at least. A try that hits a
    /// live cell changes nothing.
    fn reseed(&mut self, cells: usize) -> (r: Result<(), BoundsError>)
        requires
            old(self).wf(),
            cells <= old(self).grid().bit_count(),
        ensures
            r is Ok,
            final(self).wf(),
            final(self).grid().width() == old(self).grid().width(),
            final(self).grid().height() == old(self).grid().height(),
            final(self).spare() == old(self).spare(),
            final(self).history() == old(self).history(),
            final(self).spawn_limit() == old(self).spawn_limit(),
            exists|picks: Seq<int>|
                {
                    &&& picks.len() == reseed_attempts(old(self).spawn_limit() as int, cells as int)
                    &&& forall|k: int|
                        0 <= k < picks.len() ==> 0 <= #[trigger] picks[k] < old(
                            self,
                        ).grid().bit_count()
                    &&& final(self).grid()@ == #[trigger] with_alive(old(self).grid()@, picks)
                },
    {
        let target: usize = if self.limit > cells + 1 {
            self.limit
        } else {
            cells + 1
        };
        let ghost bits = self.current.bit_count();
        let ghost mut picks: Seq<int> = Seq::empty();
        let mut tried: usize = cells;
        while tried < target
            invariant
                self.current.wf(),
                self.current.width() == old(self).current.width(),
                self.current.height() == old(self).current.height(),
                self.next == old(self).next,
                self.limit == old(self).limit,
                self.changes_history == old(self).changes_history,
                old(self).wf(),
                bits == old(self).current.bit_count(),
                cells <= tried <= target,
                picks.len() == tried - cells,
                forall|k: int| 0 <= k < picks.len() ==> 0 <= #[trigger] picks[k] < bits,
                self.current@ == with_alive(old(self).current@, picks),
            decreases target - tried,
        {
            let ghost before = self.current@;
            match self.current.set_random(true) {
                Ok(()) => {},
                Err(e) => {
                    return Err(e);
                },
            }
            proof {
                let i = choose|i: int| 0 <= i < bits && self.current@ == #[trigger] before.update(i, true);
                let grown = picks.push(i);
                assert(grown.drop_last() =~= picks);
                picks = grown;
            }
            tried += 1;
        }
        Ok(())
    }

    /// Computes the next generation, the next grid cut into partitions for
    /// `threads` workers, and makes it the present one. Reports the live cells
    /// of the new generation and how many more there are than before. The
    /// history is left alone and nothing is reseeded.
    pub fn advance(&mut self, threads: usize) -> (r: Result<SliceCalc, BoundsError>)
        requires
            old(self).wf(),
            threads > 0,
        ensures
            final(self).wf(),
            final(self).grid().width() == old(self).grid().width(),
            final(self).grid().height() == old(self).grid().height(),
            final(self).history() == old(self).history(),
            final(self).spawn_limit() == old(self).spawn_limit(),
            final(self).spare()@ == old(self).grid()@,
            final(self).grid()@ == next_generation(
                old(self).grid()@,
                old(self).grid().width() as int,
                old(self).grid().height() as int,
            ),
            r matches Ok(calc) && calc.0 == population(final(self).grid()@) && calc.1 == population(
                final(self).grid()@,
            ) - population(old(self).grid()@),
    {
        let ghost w = self.current.width() as int;
        let ghost h = self.current.height() as int;
        let ghost before = self.current@;
        let ghost next = next_generation(before, w, h);
        proof {
            self.current.lemma_wf();
            self.next.lemma_wf();
        }
        let mut slices: Vec<CellGridSlice> = self.next.split_mut(threads);
        let ghost cut = slices@;
        let results: Vec<Result<SliceCalc, BoundsError>> = calc_slices(&self.current, &mut slices);
        proof {
            assert(is_partition(slices@, w, h)) by {
                assert forall|k: int| 0 <= k < slices@.len() implies (#[trigger] slices@[k]).bit_offset()
                    == cut[k].bit_offset() && slices@[k].bit_len() == cut[k].bit_len()
                    && slices@[k].wf() && slices@[k].width() == w && slices@[k].height() == h by {
                    assert(slice_computed(self.current, cut[k], slices@[k], results@[k]));
                }
                assert forall|k: int| 0 <= k < slices@.len() - 1 implies (
                #[trigger] slices@[k]).bit_offset() + slices@[k].bit_len() == slices@[k
                    + 1].bit_offset() by {
                    assert(cut[k].bit_offset() + cut[k].bit_len() == cut[k + 1].bit_offset());
                }
            }
        }
        let mut calcs: Vec<SliceCalc> = Vec::new();
        let mut k: usize = 0;
        while k < results.len()
            invariant
                k <= results@.len(),
                results@.len() == slices@.len(),
                calcs@.len() == k,
                forall|j: int|
                    0 <= j < results@.len() ==> slice_computed(
                        self.current,
                        cut[j],
                        slices@[j],
                        #[trigger] results@[j],
                    ),
                forall|j: int| 0 <= j < k ==> results@[j] == Ok::<SliceCalc, BoundsError>(calcs@[j]),
            decreases results@.len() - k,
        {
            match &results[k] {
                Ok(calc) => {
                    calcs.push(SliceCalc(calc.0, calc.1));
                },
                Err(e) => {
                    return Err(BoundsError { kind: e.kind });
                },
            }
            k += 1;
        }
        self.next.merge(&slices);
        proof {
            self.next.lemma_wf();
            assert(self.next@ =~= next) by {
                assert forall|i: int| 0 <= i < w * h implies self.next@[i] == next[i] by {
                    let at = lemma_partition_cover(slices@, w, h, i);
                    assert(slice_computed(self.current, cut[at], slices@[at], results@[at]));
                    assert(self.next@[slices@[at].bit_offset() + (i - slices@[at].bit_offset())]
                        == slices@[at]@[i - slices@[at].bit_offset()]);
                }
            }
            assert forall|j: int| 0 <= j < slices@.len() implies {
                let from = slices@[j].bit_offset() as int;
                let to = from + slices@[j].bit_len();
                &&& (#[trigger] calcs@[j]).0 == count_alive(next, from, to)
                &&& calcs@[j].1 == count_alive(next, from, to) - count_alive(before, from, to)
            } by {
                assert(slice_computed(self.current, cut[j], slices@[j], results@[j]));
            }
            assert forall|n: int| 0 <= n <= calcs@.len() implies sum_cells(
                #[trigger] calcs@.take(n),
            ) <= usize::MAX && i32::MIN <= sum_changes(calcs@.take(n)) <= i32::MAX by {
                lemma_totals(slices@, calcs@, before, next, w, h, n);
            }
            lemma_totals(slices@, calcs@, before, next, w, h, calcs@.len() as int);
            assert(calcs@.take(calcs@.len() as int) =~= calcs@);
        }
        std::mem::swap(&mut self.current, &mut self.next);
        Ok(sum_slice_calcs(&calcs))
    }

    /// Advances the universe by one generation, the next grid cut into
    /// partitions for `threads` workers, remembers how the population
    /// changed, and reseeds the new generation where the population has
    /// stagnated. `update` is shown the present generation before the workers
    /// start.
    pub fn tick_with<T>(&mut self, threads: usize, update: T) -> (r: Result<(), BoundsError>) where
        T: FnOnce(&CellGrid) + Send,

        requires
            old(self).wf(),
            threads > 0,
            call_requires(update, (&old(self).grid(),)),
        ensures
            r is Ok,
            final(self).wf(),
            final(self).grid().width() == old(self).grid().width(),
            final(self).grid().height() == old(self).grid().height(),
            call_ensures(update, (&old(self).grid(),), ()),
            final(self).spare()@ == old(self).grid()@,
            ticked(*old(self), *final(self)),
    {
        proof {
            self.current.lemma_wf();
            lemma_count_bounds(self.current@, 0, self.current@.len() as int);
        }
        update(&self.current);
        match self.advance(threads) {
            Ok(SliceCalc(cells, changes)) => {
                proof {
                    self.current.lemma_wf();
                    lemma_count_bounds(self.current@, 0, self.current@.len() as int);
                }
                if self.is_stable(changes) {
                    self.reseed(cells)
                } else {
                    Ok(())
                }
            },
            Err(e) => Err(e),
        }
    }

    /// Advances the universe by one generation, with one worker for each
    /// processor that the machine offers. `update` is shown the present
    /// generation before the workers start.
    pub fn tick<T>(&mut self, update: T) -> (r: Result<(), BoundsError>) where
        T: FnOnce(&CellGrid) + Send,

        requires
            old(self).wf(),
            call_requires(update, (&old(self).grid(),)),
        ensures
            r is Ok,
            final(self).wf(),
            final(self).grid().width() == old(self).grid().width(),
            final(self).grid().height() == old(self).grid().height(),
            call_ensures(update, (&old(self).grid(),), ()),
            final(self).spare()@ == old(self).grid()@,
            ticked(*old(self), *final(self)),
    {
        let cpus: usize = available_cpus();
        let threads: usize = if cpus == 0 {
            1
        } else {
            cpus
        };
        self.tick_with(threads, update)
    }
}

} // verus!
