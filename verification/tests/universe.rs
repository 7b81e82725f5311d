use game_of_life::rules::survive;
use game_of_life::universe::{calc_slice, sum_slice_calcs, SliceCalc, CHANGES_HISTORY_LENGTH};
use game_of_life::{CellGrid, ErrorKind, Universe};

fn grid_of(width: usize, height: usize, cells: &[(usize, usize)]) -> CellGrid {
    let mut grid = CellGrid::new(width, height, false).unwrap();
    for (x, y) in cells {
        grid.set(*x, *y, true).unwrap();
    }
    grid
}

fn live_cells(grid: &CellGrid) -> Vec<(usize, usize)> {
    let mut cells = Vec::new();
    let mut walk = grid.iter();
    while let Some((x, y, alive)) = walk.next() {
        if alive {
            cells.push((x, y));
        }
    }
    cells
}

fn sorted(mut cells: Vec<(usize, usize)>) -> Vec<(usize, usize)> {
    cells.sort_by_key(|(x, y)| (*y, *x));
    cells
}

fn glider_at(ox: usize, oy: usize) -> Vec<(usize, usize)> {
    vec![(ox + 1, oy), (ox + 2, oy + 1), (ox, oy + 2), (ox + 1, oy + 2), (ox + 2, oy + 2)]
}

#[test]
fn survival_rule() {
    for n in 0u8..=8 {
        assert_eq!(survive(true, n), n == 2 || n == 3);
        assert_eq!(survive(false, n), n == 3);
    }
    assert_eq!(survive(true, 255), false);
    assert_eq!(survive(false, 9), false);
}

#[test]
fn glider_advances_one_step() {
    for threads in [1usize, 2, 3, 8] {
        let mut universe = Universe::with_grid(grid_of(12, 12, &glider_at(3, 2)));
        let calc = universe.advance(threads).unwrap();
        let expected = vec![(3, 3), (5, 3), (4, 4), (5, 4), (4, 5)];
        assert_eq!(live_cells(universe.current()), sorted(expected));
        assert_eq!((calc.0, calc.1), (5, 0));
    }
}

#[test]
fn glider_moves_diagonally_every_four_steps() {
    let mut universe = Universe::with_grid(grid_of(20, 16, &glider_at(1, 1)));
    for round in 1..=8usize {
        for _ in 0..4 {
            let calc = universe.advance(4).unwrap();
            assert_eq!((calc.0, calc.1), (5, 0));
        }
        assert_eq!(live_cells(universe.current()), sorted(glider_at(1 + round, 1 + round)));
    }
}

#[test]
fn glider_crosses_the_edges() {
    let mut universe = Universe::with_grid(grid_of(6, 6, &glider_at(0, 0)));
    for _ in 0..24 {
        universe.advance(2).unwrap();
    }
    assert_eq!(live_cells(universe.current()), sorted(glider_at(0, 0)));
}

#[test]
fn blinker_oscillates() {
    let mut universe = Universe::with_grid(grid_of(5, 5, &[(1, 2), (2, 2), (3, 2)]));
    let calc = universe.advance(1).unwrap();
    assert_eq!(live_cells(universe.current()), vec![(2, 1), (2, 2), (2, 3)]);
    assert_eq!((calc.0, calc.1), (3, 0));
    universe.advance(3).unwrap();
    assert_eq!(live_cells(universe.current()), vec![(1, 2), (2, 2), (3, 2)]);
}

#[test]
fn advance_reports_population_and_net_change() {
    let mut universe = Universe::with_grid(grid_of(8, 8, &[(1, 1), (2, 1), (1, 2)]));
    let calc = universe.advance(2).unwrap();
    assert_eq!(live_cells(universe.current()), vec![(1, 1), (2, 1), (1, 2), (2, 2)]);
    assert_eq!((calc.0, calc.1), (4, 1));
    let mut lonely = Universe::with_grid(grid_of(8, 8, &[(4, 4), (6, 6)]));
    let calc = lonely.advance(5).unwrap();
    assert!(live_cells(lonely.current()).is_empty());
    assert_eq!((calc.0, calc.1), (0, -2));
}

fn naive_next(width: usize, height: usize, cells: &[(usize, usize)]) -> Vec<(usize, usize)> {
    let mut next = Vec::new();
    for y in 0..height {
        for x in 0..width {
            let mut around = 0;
            for dy in [-1i64, 0, 1] {
                for dx in [-1i64, 0, 1] {
                    let at = (
                        (x as i64 + dx).rem_euclid(width as i64) as usize,
                        (y as i64 + dy).rem_euclid(height as i64) as usize,
                    );
                    if (dx, dy) != (0, 0) && cells.contains(&at) {
                        around += 1;
                    }
                }
            }
            let alive = cells.contains(&(x, y));
            if around == 3 || (alive && around == 2) {
                next.push((x, y));
            }
        }
    }
    next
}

#[test]
fn calc_slice_writes_the_next_generation_of_its_partition() {
    let start = vec![(10, 1), (11, 1), (12, 1), (66, 2), (67, 2), (67, 3)];
    let current = grid_of(70, 5, &start);
    let mut next = CellGrid::new(70, 5, false).unwrap();
    let mut parts = next.split_mut(3);
    let mut cells = 0usize;
    let mut changes = 0i32;
    for part in parts.iter_mut() {
        let calc = calc_slice(&current, part).unwrap();
        cells += calc.0;
        changes += calc.1;
    }
    next.merge(&parts);
    let expected = vec![(11, 0), (11, 1), (11, 2), (66, 2), (67, 2), (66, 3), (67, 3)];
    assert_eq!(live_cells(&next), expected);
    assert_eq!(naive_next(70, 5, &start), expected);
    assert_eq!((cells, changes), (7, 1));
}

#[test]
fn advance_agrees_with_a_naive_count_on_random_grids() {
    for (width, height, threads) in [(7usize, 5usize, 1usize), (16, 9, 2), (65, 4, 3), (3, 3, 8), (2, 2, 2), (1, 6, 4)] {
        let mut universe = Universe::new(width, height).unwrap();
        for _ in 0..3 {
            let before = live_cells(universe.current());
            let calc = universe.advance(threads).unwrap();
            let after = live_cells(universe.current());
            assert_eq!(after, naive_next(width, height, &before));
            assert_eq!(calc.0, after.len());
            assert_eq!(calc.1 as i64, after.len() as i64 - before.len() as i64);
        }
    }
}

#[test]
fn sum_slice_calcs_adds_both_numbers() {
    let total = sum_slice_calcs(&vec![SliceCalc(3, -2), SliceCalc(0, 0), SliceCalc(10, 7)]);
    assert_eq!((total.0, total.1), (13, 5));
    let nothing = sum_slice_calcs(&Vec::new());
    assert_eq!((nothing.0, nothing.1), (0, 0));
}

#[test]
fn new_universe_with_zero_dimension_is_a_size_error() {
    assert!(matches!(Universe::new(0, 5), Err(e) if e.kind == ErrorKind::SizeError));
    assert!(matches!(Universe::new(5, 0), Err(e) if e.kind == ErrorKind::SizeError));
    assert!(matches!(Universe::new(0, 0), Err(e) if e.kind == ErrorKind::SizeError));
    let universe = Universe::new(30, 20).unwrap();
    assert_eq!(universe.current().width(), 30);
    assert_eq!(universe.current().height(), 20);
}

#[test]
fn spawn_limit_is_ten_in_a_thousand_of_the_cells() {
    for (width, height, limit) in [(40usize, 25usize, 10usize), (10, 10, 1), (11, 9, 0), (1, 1, 0), (250, 40, 100), (33, 17, 5)] {
        let universe = Universe::new(width, height).unwrap();
        assert_eq!(universe.spawn_limit(), limit);
        assert_eq!(universe.spawn_limit(), width * height * 10 / 1000);
    }
}

#[test]
fn history_with_a_zero_sum_suffix_is_stable() {
    let mut universe = Universe::new(3, 3).unwrap();
    let answers: Vec<bool> = [2, -1, -1, 0, 0].iter().map(|c| universe.is_stable(*c)).collect();
    assert_eq!(answers, vec![false, false, true, true, true]);
}

#[test]
fn history_without_a_zero_sum_suffix_is_not_stable() {
    let mut universe = Universe::new(3, 3).unwrap();
    for change in [3, 2, 1, 4, 5] {
        assert_eq!(universe.is_stable(change), false);
    }
}

#[test]
fn history_keeps_the_latest_five_changes() {
    assert_eq!(CHANGES_HISTORY_LENGTH, 5);
    let mut universe = Universe::new(3, 3).unwrap();
    for change in [-10, 1, 2, 3] {
        assert_eq!(universe.is_stable(change), false);
    }
    assert_eq!(universe.is_stable(4), true);
    assert_eq!(universe.is_stable(5), false);
    let mut other = Universe::new(3, 3).unwrap();
    for change in [7, -4, 1, 1, 1, i32::MAX, i32::MAX, i32::MIN, i32::MIN] {
        assert_eq!(other.is_stable(change), false);
    }
    assert_eq!(other.is_stable(2), true);
}

#[test]
fn tick_shows_the_present_generation_and_then_advances() {
    let start = vec![(1, 1), (2, 1), (1, 2)];
    let mut universe = Universe::with_grid(grid_of(9, 9, &start));
    let mut shown = Vec::new();
    universe.tick_with(3, |grid: &CellGrid| shown = live_cells(grid)).unwrap();
    assert_eq!(shown, start);
    assert_eq!(live_cells(universe.current()), vec![(1, 1), (2, 1), (1, 2), (2, 2)]);
}

#[test]
fn tick_reseeds_a_stagnant_universe() {
    for _ in 0..20 {
        let mut universe = Universe::with_grid(CellGrid::new(40, 25, false).unwrap());
        universe.tick(|_grid: &CellGrid| {}).unwrap();
        let alive = live_cells(universe.current()).len();
        assert!(alive >= 1);
        assert!(alive <= 10);
    }
}

#[test]
fn tick_reseeds_once_at_least_above_the_limit() {
    for _ in 0..20 {
        let block = vec![(1, 1), (2, 1), (1, 2), (2, 2)];
        let mut universe = Universe::with_grid(grid_of(10, 10, &block));
        universe.tick_with(2, |_grid: &CellGrid| {}).unwrap();
        let cells = live_cells(universe.current());
        assert!(block.iter().all(|cell| cells.contains(cell)));
        assert!(cells.len() == 4 || cells.len() == 5);
    }
}

#[test]
fn tick_does_not_reseed_while_the_population_changes() {
    let start = vec![(1, 1), (2, 1), (1, 2)];
    let mut universe = Universe::with_grid(grid_of(9, 9, &start));
    universe.tick_with(4, |_grid: &CellGrid| {}).unwrap();
    assert_eq!(live_cells(universe.current()), vec![(1, 1), (2, 1), (1, 2), (2, 2)]);
}

#[test]
fn tick_keeps_a_random_universe_within_its_grid() {
    let mut universe = Universe::new(33, 17).unwrap();
    for _ in 0..10 {
        universe.tick(|_grid: &CellGrid| {}).unwrap();
        assert_eq!(universe.current().width(), 33);
        assert_eq!(universe.current().height(), 17);
        assert!(live_cells(universe.current()).len() <= 33 * 17);
    }
}
