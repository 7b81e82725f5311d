use game_of_life::bits::bits_per_cell;
use game_of_life::indexer::Indexer;
use game_of_life::{CellGrid, ErrorKind};

fn live_cells(grid: &CellGrid) -> Vec<(usize, usize)> {
    let mut cells = Vec::new();
    let mut walk = grid.iter();
    while let Some((x, y, alive)) = walk.next() {
        if alive {
            cells.push((x, y));
        }
    }
    cells
}

#[test]
fn new_grid_is_all_dead() {
    for (width, height) in [(1usize, 1usize), (3, 3), (8, 8), (13, 7), (64, 1), (65, 3), (100, 40)] {
        let grid = CellGrid::new(width, height, false).unwrap();
        assert_eq!(grid.width(), width);
        assert_eq!(grid.height(), height);
        for y in 0..height {
            for x in 0..width {
                assert_eq!(grid.get(x, y).unwrap(), false);
            }
        }
        assert!(live_cells(&grid).is_empty());
    }
}

#[test]
fn new_grid_with_zero_dimension_is_a_size_error() {
    for randomize in [false, true] {
        for n in [0usize, 1, 7, 1000] {
            let by_width = CellGrid::new(0, n, randomize);
            assert!(matches!(by_width, Err(e) if e.kind == ErrorKind::SizeError));
            let by_height = CellGrid::new(n, 0, randomize);
            assert!(matches!(by_height, Err(e) if e.kind == ErrorKind::SizeError));
        }
    }
}

#[test]
fn random_grid_has_the_dimensions_asked_for() {
    let grid = CellGrid::new(70, 9, true).unwrap();
    assert_eq!(grid.width(), 70);
    assert_eq!(grid.height(), 9);
    let mut walk = grid.iter();
    let mut seen = 0usize;
    while let Some((x, y, alive)) = walk.next() {
        assert_eq!(grid.get(x, y).unwrap(), alive);
        seen += 1;
    }
    assert_eq!(seen, 70 * 9);
}

#[test]
fn set_then_get_gives_the_value_back() {
    let mut grid = CellGrid::new(67, 5, false).unwrap();
    for y in 0..5 {
        for x in 0..67 {
            grid.set(x, y, true).unwrap();
            assert_eq!(grid.get(x, y).unwrap(), true);
            grid.set(x, y, false).unwrap();
            assert_eq!(grid.get(x, y).unwrap(), false);
        }
    }
}

#[test]
fn set_changes_one_cell_only() {
    let mut grid = CellGrid::new(66, 4, false).unwrap();
    grid.set(63, 0, true).unwrap();
    grid.set(64, 0, true).unwrap();
    grid.set(65, 3, true).unwrap();
    assert_eq!(live_cells(&grid), vec![(63, 0), (64, 0), (65, 3)]);
    grid.set(64, 0, false).unwrap();
    assert_eq!(live_cells(&grid), vec![(63, 0), (65, 3)]);
    grid.set(63, 0, true).unwrap();
    assert_eq!(live_cells(&grid), vec![(63, 0), (65, 3)]);
}

#[test]
fn access_outside_the_grid_is_a_position_error() {
    let mut grid = CellGrid::new(4, 3, false).unwrap();
    for (x, y) in [(4usize, 0usize), (0, 3), (4, 3), (usize::MAX, 0), (0, usize::MAX), (100, 100)] {
        assert!(matches!(grid.get(x, y), Err(e) if e.kind == ErrorKind::PositionError));
        assert!(matches!(grid.set(x, y, true), Err(e) if e.kind == ErrorKind::PositionError));
        assert!(matches!(grid.neighbours(x, y), Err(e) if e.kind == ErrorKind::PositionError));
    }
    assert!(live_cells(&grid).is_empty());
}

#[test]
fn neighbours_wrap_around_both_edges() {
    let mut grid = CellGrid::new(3, 3, false).unwrap();
    grid.set(0, 0, true).unwrap();
    assert_eq!(grid.neighbours(2, 2).unwrap(), 1);
    assert_eq!(grid.neighbours(1, 1).unwrap(), 1);
    assert_eq!(grid.neighbours(0, 0).unwrap(), 0);
    assert_eq!(grid.neighbours(2, 0).unwrap(), 1);
    assert_eq!(grid.neighbours(0, 2).unwrap(), 1);
}

#[test]
fn neighbours_counts_all_eight() {
    let mut grid = CellGrid::new(5, 5, false).unwrap();
    for y in 1..4 {
        for x in 1..4 {
            grid.set(x, y, true).unwrap();
        }
    }
    assert_eq!(grid.neighbours(2, 2).unwrap(), 8);
    assert_eq!(grid.neighbours(1, 1).unwrap(), 3);
    assert_eq!(grid.neighbours(2, 1).unwrap(), 5);
    assert_eq!(grid.neighbours(0, 0).unwrap(), 1);
    assert_eq!(grid.neighbours(4, 2).unwrap(), 3);
    assert_eq!(grid.neighbours(4, 4).unwrap(), 1);
    assert_eq!(grid.neighbours(0, 2).unwrap(), 3);
}

#[test]
fn neighbours_on_a_single_cell_grid_meet_the_cell_itself() {
    let mut grid = CellGrid::new(1, 1, false).unwrap();
    assert_eq!(grid.neighbours(0, 0).unwrap(), 0);
    grid.set(0, 0, true).unwrap();
    assert_eq!(grid.neighbours(0, 0).unwrap(), 8);
}

#[test]
fn iter_walks_row_by_row_and_starts_anew() {
    let mut grid = CellGrid::new(3, 2, false).unwrap();
    grid.set(1, 0, true).unwrap();
    grid.set(2, 1, true).unwrap();
    let expected = vec![
        (0, 0, false),
        (1, 0, true),
        (2, 0, false),
        (0, 1, false),
        (1, 1, false),
        (2, 1, true),
    ];
    for _ in 0..2 {
        let mut walk = grid.iter();
        let mut seen = Vec::new();
        while let Some(cell) = walk.next() {
            seen.push(cell);
        }
        assert_eq!(seen, expected);
        assert_eq!(walk.next(), None);
        assert_eq!(walk.next(), None);
    }
}

#[test]
fn set_random_sets_one_cell_inside_the_grid() {
    for _ in 0..50 {
        let mut grid = CellGrid::new(9, 8, false).unwrap();
        grid.set_random(true).unwrap();
        let cells = live_cells(&grid);
        assert_eq!(cells.len(), 1);
        assert!(cells[0].0 < 9 && cells[0].1 < 8);
        grid.set_random(false).unwrap();
        assert!(live_cells(&grid).len() <= 1);
    }
}

#[test]
fn set_random_on_a_single_cell_grid_sets_that_cell() {
    let mut grid = CellGrid::new(1, 1, false).unwrap();
    grid.set_random(true).unwrap();
    assert_eq!(grid.get(0, 0).unwrap(), true);
    grid.set_random(false).unwrap();
    assert_eq!(grid.get(0, 0).unwrap(), false);
}

#[test]
fn indexer_add_wraps_in_both_directions() {
    assert_eq!(Indexer::add(0, -1, 5), 4);
    assert_eq!(Indexer::add(4, 1, 5), 0);
    assert_eq!(Indexer::add(2, 0, 5), 2);
    assert_eq!(Indexer::add(1, -2, 5), 4);
    assert_eq!(Indexer::add(3, 14, 5), 2);
    assert_eq!(Indexer::add(3, -14, 5), 4);
    assert_eq!(Indexer::add(0, -1, 1), 0);
    assert_eq!(Indexer::add(0, 1, 1), 0);
    assert_eq!(Indexer::add(7, 1, 5), 3);
    assert_eq!(Indexer::add(0, isize::MIN, 7), ((7i128 + (isize::MIN as i128 % 7)) % 7) as usize);
    assert_eq!(Indexer::add(6, isize::MAX, 7), ((6i128 + isize::MAX as i128) % 7) as usize);
    assert_eq!(Indexer::add(usize::MAX - 1, 1, usize::MAX), 0);
    let indexer = Indexer::new(4, 3, 0);
    assert_eq!(indexer.add_x(0, -1), 3);
    assert_eq!(indexer.add_x(3, 1), 0);
    assert_eq!(indexer.add_y(0, -1), 2);
    assert_eq!(indexer.add_y(2, 1), 0);
}

#[test]
fn indexer_index_finds_word_and_mask() {
    let bits = bits_per_cell();
    let indexer = Indexer::new(bits + 3, 4, 0);
    let first = indexer.index(0, 0).unwrap();
    assert_eq!((first.cell, first.bit_mask), (0, 1));
    let last_of_word = indexer.index(bits - 1, 0).unwrap();
    assert_eq!((last_of_word.cell, last_of_word.bit_mask), (0, 1usize << (bits - 1)));
    let next_word = indexer.index(bits, 0).unwrap();
    assert_eq!((next_word.cell, next_word.bit_mask), (1, 1));
    let second_row = indexer.index(2, 1).unwrap();
    assert_eq!((second_row.cell, second_row.bit_mask), (1, 1usize << 5));
    assert!(matches!(indexer.index(bits + 3, 0), Err(e) if e.kind == ErrorKind::PositionError));
    assert!(matches!(indexer.index(0, 4), Err(e) if e.kind == ErrorKind::PositionError));
    let shifted = Indexer::new(bits + 3, 4, bits);
    let from_offset = shifted.index(2, 1).unwrap();
    assert_eq!((from_offset.cell, from_offset.bit_mask), (0, 1usize << 5));
}

#[test]
fn indexer_pos_and_pick_and_cell_count() {
    let indexer = Indexer::new(7, 5, 14);
    assert_eq!(indexer.pos(0), (0, 2));
    assert_eq!(indexer.pos(8), (1, 3));
    assert_eq!(indexer.pick(15, 23), (1, 3));
    assert_eq!(indexer.pick(usize::MAX, 0), (usize::MAX % 7, 0));
    for _ in 0..20 {
        let (x, y) = indexer.random();
        assert!(x < 7 && y < 5);
    }
    let bits = bits_per_cell();
    assert_eq!(Indexer::new(1, 1, 0).cell_count(), 1);
    assert_eq!(Indexer::new(bits, 1, 0).cell_count(), 1);
    assert_eq!(Indexer::new(bits + 1, 1, 0).cell_count(), 2);
    assert_eq!(Indexer::new(bits, 3, 0).cell_count(), 3);
    assert_eq!(Indexer::new(10, 10, 0).cell_count(), (100 + bits - 1) / bits);
    assert!(bits == 32 || bits == 64);
    assert_eq!(bits, usize::BITS as usize);
}
