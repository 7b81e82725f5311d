use game_of_life::bits::bits_per_cell;
use game_of_life::{CellGrid, CellGridSlice, ErrorKind};

fn coordinates(part: &CellGridSlice) -> Vec<(usize, usize)> {
    let mut out = Vec::new();
    let mut walk = part.iter();
    while let Some(at) = walk.next() {
        out.push(at);
    }
    out
}

fn ceil(n: usize, d: usize) -> usize {
    (n + d - 1) / d
}

#[test]
fn partitions_cover_the_grid_exactly_once() {
    let word = bits_per_cell();
    for (width, height) in [(1usize, 1usize), (3, 3), (8, 8), (13, 7), (64, 4), (65, 5), (100, 37)] {
        for slices in [1usize, 2, 3, 4, 5, 7, 8, 16, 1000] {
            let mut grid = CellGrid::new(width, height, true).unwrap();
            let parts = grid.split_mut(slices);
            let words = ceil(width * height, word);
            let chunk = ceil(words, slices);
            assert_eq!(parts.len(), ceil(words, chunk));
            assert!(parts.len() <= slices);
            let mut total = 0usize;
            let mut seen = vec![0u32; width * height];
            for (k, part) in parts.iter().enumerate() {
                assert_eq!(part.width(), width);
                assert_eq!(part.height(), height);
                assert_eq!(part.bit_offset(), k * chunk * word);
                assert_eq!(part.bit_offset(), total);
                let rest = width * height - part.bit_offset();
                assert_eq!(part.bit_len(), rest.min(chunk * word));
                assert!(part.bit_len() > 0);
                let at = coordinates(part);
                assert_eq!(at.len(), part.bit_len());
                for (j, (x, y)) in at.iter().enumerate() {
                    assert!(*x < width && *y < height);
                    assert_eq!(y * width + x, part.bit_offset() + j);
                    seen[y * width + x] += 1;
                }
                total += part.bit_len();
            }
            assert_eq!(total, width * height);
            assert!(seen.iter().all(|n| *n == 1));
        }
    }
}

#[test]
fn split_gives_as_many_partitions_as_asked_where_the_words_allow() {
    let word = bits_per_cell();
    let mut grid = CellGrid::new(word, 8, false).unwrap();
    assert_eq!(grid.split_mut(1).len(), 1);
    assert_eq!(grid.split_mut(2).len(), 2);
    assert_eq!(grid.split_mut(4).len(), 4);
    assert_eq!(grid.split_mut(8).len(), 8);
    assert_eq!(grid.split_mut(3).len(), 3);
    assert_eq!(grid.split_mut(5).len(), 4);
    assert_eq!(grid.split_mut(6).len(), 4);
    assert_eq!(grid.split_mut(9).len(), 8);
    let lens: Vec<usize> = grid.split_mut(3).iter().map(|p| p.bit_len()).collect();
    assert_eq!(lens, vec![3 * word, 3 * word, 2 * word]);
}

#[test]
fn last_partition_stops_at_the_last_cell() {
    let word = bits_per_cell();
    let mut grid = CellGrid::new(word + 6, 1, false).unwrap();
    let parts = grid.split_mut(2);
    assert_eq!(parts.len(), 2);
    assert_eq!((parts[0].bit_offset(), parts[0].bit_len()), (0, word));
    assert_eq!((parts[1].bit_offset(), parts[1].bit_len()), (word, 6));
    assert_eq!(coordinates(&parts[1]), (word..word + 6).map(|x| (x, 0)).collect::<Vec<_>>());
    let one = grid.split_mut(1);
    assert_eq!((one[0].bit_offset(), one[0].bit_len()), (0, word + 6));
}

#[test]
fn slice_iter_starts_anew_each_time() {
    let mut grid = CellGrid::new(5, 2, false).unwrap();
    let parts = grid.split_mut(1);
    let first = coordinates(&parts[0]);
    assert_eq!(first, vec![(0, 0), (1, 0), (2, 0), (3, 0), (4, 0), (0, 1), (1, 1), (2, 1), (3, 1), (4, 1)]);
    assert_eq!(coordinates(&parts[0]), first);
    let mut walk = parts[0].iter();
    for _ in 0..10 {
        assert!(walk.next().is_some());
    }
    assert_eq!(walk.next(), None);
    assert_eq!(walk.next(), None);
}

#[test]
fn split_leaves_the_grid_as_it_was_until_merge() {
    let word = bits_per_cell();
    let mut grid = CellGrid::new(word, 3, false).unwrap();
    grid.set(1, 1, true).unwrap();
    let mut parts = grid.split_mut(3);
    assert_eq!(parts.len(), 3);
    parts[0].set(2, 0, true).unwrap();
    parts[1].set(1, 1, false).unwrap();
    parts[2].set(word - 1, 2, true).unwrap();
    assert_eq!(grid.get(1, 1).unwrap(), true);
    assert_eq!(grid.get(2, 0).unwrap(), false);
    grid.merge(&parts);
    for y in 0..3 {
        for x in 0..word {
            let expected = (x, y) == (2, 0) || (x, y) == (word - 1, 2);
            assert_eq!(grid.get(x, y).unwrap(), expected);
        }
    }
}

#[test]
fn merge_of_an_untouched_split_changes_nothing() {
    let mut grid = CellGrid::new(37, 11, true).unwrap();
    let mut before = Vec::new();
    let mut walk = grid.iter();
    while let Some(cell) = walk.next() {
        before.push(cell);
    }
    for slices in [1usize, 2, 3, 7] {
        let parts = grid.split_mut(slices);
        grid.merge(&parts);
        let mut after = Vec::new();
        let mut walk = grid.iter();
        while let Some(cell) = walk.next() {
            after.push(cell);
        }
        assert_eq!(after, before);
    }
}

#[test]
fn slice_set_outside_the_grid_is_a_position_error() {
    let mut grid = CellGrid::new(6, 4, false).unwrap();
    let mut parts = grid.split_mut(1);
    for (x, y) in [(6usize, 0usize), (0, 4), (6, 4), (usize::MAX, usize::MAX)] {
        assert!(matches!(parts[0].set(x, y, true), Err(e) if e.kind == ErrorKind::PositionError));
    }
    grid.merge(&parts);
    for y in 0..4 {
        for x in 0..6 {
            assert_eq!(grid.get(x, y).unwrap(), false);
        }
    }
}
