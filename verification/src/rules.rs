//! The rule of the game and the arithmetic of populations.

use vstd::prelude::*;
use crate::cellgrid::neighbour_count;

verus! {

/// Whether a cell is alive in the next generation: a live cell with two or
/// three live neighbours stays alive, a dead cell with exactly three comes
/// alive, every other cell is dead.
pub open spec fn survives(alive: bool, neighbours: int) -> bool {
    if alive {
        neighbours == 2 || neighbours == 3
    } else {
        neighbours == 3
    }
}

/// The state of the cell with linear index `i` one generation after `grid`.
pub open spec fn next_cell(grid: Seq<bool>, width: int, height: int, i: int) -> bool {
    survives(grid[i], neighbour_count(grid, width, height, i % width, i / width))
}

/// The generation that follows `grid`.
pub open spec fn next_generation(grid: Seq<bool>, width: int, height: int) -> Seq<bool> {
    Seq::new(grid.len(), |i: int| next_cell(grid, width, height, i))
}

/// The number of live cells with a linear index from `from` up to `to`.
pub open spec fn count_alive(cells: Seq<bool>, from: int, to: int) -> int
    decreases to - from,
{
    if to <= from {
        0
    } else {
        count_alive(cells, from, to - 1) + (if cells[to - 1] {
            1int
        } else {
            0int
        })
    }
}

/// The number of live cells.
pub open spec fn population(cells: Seq<bool>) -> int {
    count_alive(cells, 0, cells.len() as int)
}

/// `cells` with the cells at the linear indices `picks` made alive.
pub open spec fn with_alive(cells: Seq<bool>, picks: Seq<int>) -> Seq<bool>
    decreases picks.len(),
{
    if picks.len() == 0 {
        cells
    } else {
        with_alive(cells, picks.drop_last()).update(picks.last(), true)
    }
}

/// A range holds no more live cells than it has cells.
pub proof fn lemma_count_bounds(cells: Seq<bool>, from: int, to: int)
    requires
        from <= to,
    ensures
        0 <= count_alive(cells, from, to) <= to - from,
    decreases to - from,
{
    if from < to {
        lemma_count_bounds(cells, from, to - 1);
    }
}

/// The live cells of two adjoining ranges add up.
pub proof fn lemma_count_split(cells: Seq<bool>, from: int, mid: int, to: int)
    requires
        from <= mid <= to,
    ensures
        count_alive(cells, from, to) == count_alive(cells, from, mid) + count_alive(cells, mid, to),
    decreases to - mid,
{
    if mid < to {
        lemma_count_split(cells, from, mid, to - 1);
    }
}

/// Changing one cell changes the count of a range by that cell alone.
pub proof fn lemma_count_update(cells: Seq<bool>, i: int, value: bool, from: int, to: int)
    requires
        0 <= from <= to <= cells.len(),
        0 <= i < cells.len(),
    ensures
        count_alive(cells.update(i, value), from, to) == count_alive(cells, from, to) + (if from <= i
            < to {
            (if value {
                1int
            } else {
                0int
            }) - (if cells[i] {
                1int
            } else {
                0int
            })
        } else {
            0int
        }),
    decreases to - from,
{
    if from < to {
        lemma_count_update(cells, i, value, from, to - 1);
    }
}

/// Making cells alive keeps every live cell alive and the length as it was.
pub proof fn lemma_with_alive_keeps(cells: Seq<bool>, picks: Seq<int>)
    requires
        forall|k: int| 0 <= k < picks.len() ==> 0 <= #[trigger] picks[k] < cells.len(),
    ensures
        with_alive(cells, picks).len() == cells.len(),
        forall|i: int| 0 <= i < cells.len() && cells[i] ==> with_alive(cells, picks)[i],
        forall|k: int| 0 <= k < picks.len() ==> with_alive(cells, picks)[#[trigger] picks[k]],
        forall|i: int|
            0 <= i < cells.len() && with_alive(cells, picks)[i] && !cells[i] ==> picks.contains(i),
    decreases picks.len(),
{
    if picks.len() > 0 {
        let head = picks.drop_last();
        lemma_with_alive_keeps(cells, head);
        assert forall|k: int| 0 <= k < picks.len() implies with_alive(cells, picks)[#[trigger] picks[k]] by {
            if k < picks.len() - 1 {
                assert(picks[k] == head[k]);
            }
        }
        assert forall|i: int|
            0 <= i < cells.len() && with_alive(cells, picks)[i] && !cells[i] implies picks.contains(
            i,
        ) by {
            if i == picks.last() {
                assert(picks[picks.len() - 1] == i);
            } else {
                assert(head.contains(i));
                let k = choose|k: int| 0 <= k < head.len() && head[k] == i;
                assert(picks[k] == i);
            }
        }
    }
}

/// Making cells alive never lowers the population, and raises it by no more
/// than the number of cells that were picked.
pub proof fn lemma_reseed_bounds(cells: Seq<bool>, picks: Seq<int>)
    requires
        forall|k: int| 0 <= k < picks.len() ==> 0 <= #[trigger] picks[k] < cells.len(),
    ensures
        population(cells) <= population(with_alive(cells, picks)) <= population(cells) + picks.len(),
    decreases picks.len(),
{
    if picks.len() > 0 {
        let head = picks.drop_last();
        lemma_reseed_bounds(cells, head);
        lemma_with_alive_keeps(cells, head);
        lemma_count_update(with_alive(cells, head), picks.last(), true, 0, cells.len() as int);
    }
}

/// Where no picked cell was alive before and no cell is picked twice, each
/// pick adds one live cell: the population rises by the number of picks.
pub proof fn lemma_reseed_without_collision(cells: Seq<bool>, picks: Seq<int>)
    requires
        forall|k: int| 0 <= k < picks.len() ==> 0 <= #[trigger] picks[k] < cells.len(),
        forall|k: int| 0 <= k < picks.len() ==> !cells[#[trigger] picks[k]],
        forall|j: int, k: int| 0 <= j < k < picks.len() ==> picks[j] != picks[k],
    ensures
        population(with_alive(cells, picks)) == population(cells) + picks.len(),
    decreases picks.len(),
{
    if picks.len() > 0 {
        let head = picks.drop_last();
        assert forall|k: int| 0 <= k < head.len() implies 0 <= #[trigger] head[k] < cells.len()
            && !cells[head[k]] by {
            assert(head[k] == picks[k]);
        }
        assert forall|j: int, k: int| 0 <= j < k < head.len() implies head[j] != head[k] by {
            assert(head[j] == picks[j] && head[k] == picks[k]);
        }
        lemma_reseed_without_collision(cells, head);
        lemma_with_alive_keeps(cells, head);
        let before = with_alive(cells, head);
        let i = picks.last();
        assert(!before[i]) by {
            if before[i] {
                assert(head.contains(i));
                let k = choose|k: int| 0 <= k < head.len() && head[k] == i;
                assert(picks[k] == picks[picks.len() - 1]);
            }
        }
        lemma_count_update(before, i, true, 0, cells.len() as int);
    }
}

/// A reseeding whose attempts all hit dead cells, no cell twice, brings the
/// population to the limit, and to one more than it was at least.
pub proof fn lemma_reseed_reaches_target(cells: Seq<bool>, picks: Seq<int>, limit: int)
    requires
        forall|k: int| 0 <= k < picks.len() ==> 0 <= #[trigger] picks[k] < cells.len(),
        forall|k: int| 0 <= k < picks.len() ==> !cells[#[trigger] picks[k]],
        forall|j: int, k: int| 0 <= j < k < picks.len() ==> picks[j] != picks[k],
        picks.len() == (if limit > population(cells) + 1 {
            limit - population(cells)
        } else {
            1
        }),
    ensures
        population(with_alive(cells, picks)) >= limit,
        population(with_alive(cells, picks)) >= population(cells) + 1,
{
    lemma_reseed_without_collision(cells, picks);
}

/// Decides whether a cell with `neighbours` live neighbours is alive in the
/// next generation.
pub fn survive(alive: bool, neighbours: u8) -> (r: bool)
    ensures
        r == survives(alive, neighbours as int),
{
    match alive {
        true => match neighbours {
            2..=3 => true,
            _ => false,
        },
        false => match neighbours {
            3 => true,
            _ => false,
        },
    }
}

} // verus!
