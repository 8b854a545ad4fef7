use advent_25::day04::{both, neighbor_counts, neighbors_at, parse_grid, part1, part2, peel, Error};

const EXAMPLE: &str = "\
..@@.@@@@.
@@@.@.@.@@
@@@@@.@.@@
@.@@@@..@.
@@.@@@@.@@
.@@@@@@@.@
.@.@.@.@@@
@.@@@.@@@@
.@@@@@@@@.
@.@.@@@.@.
";

#[test]
fn example_accessible_rolls() {
    assert_eq!(part1(EXAMPLE).unwrap(), 13);
}

#[test]
fn example_total_removed() {
    assert_eq!(part2(EXAMPLE).unwrap(), 43);
}

#[test]
fn both_parts_of_the_grid() {
    assert_eq!(both(EXAMPLE).unwrap(), (13, 43));
}

#[test]
fn grid_is_read_with_blank_lines_and_carriage_returns() {
    let grid = parse_grid(b"\n.@\r\n\r\n@@\n").unwrap();
    assert_eq!(grid, vec![vec![0, 1], vec![1, 1]]);
    assert_eq!(neighbors_at(&grid, 0, 0), 3);
    assert_eq!(neighbors_at(&grid, 1, 1), 2);
    assert_eq!(neighbor_counts(&grid), vec![vec![0, 2], vec![2, 2]]);
}

#[test]
fn each_day04_error() {
    assert_eq!(part1(""), Err(Error::Empty));
    assert_eq!(part1("\n\r\n"), Err(Error::Empty));
    assert_eq!(part1(".@x\n"), Err(Error::InvalidCharacter(b'x')));
    assert_eq!(part2(".@\n.@@\n"), Err(Error::RowWidth));
}

#[test]
fn a_full_block_loses_its_corners_only() {
    let text = "@@@@\n@@@@\n@@@@\n@@@@\n";
    assert_eq!(part1(text).unwrap(), 4);
    let (left, taken) = peel(parse_grid(text.as_bytes()).unwrap());
    assert_eq!(taken, 4);
    assert_eq!(
        left,
        vec![vec![0, 1, 1, 0], vec![1, 1, 1, 1], vec![1, 1, 1, 1], vec![0, 1, 1, 0]]
    );
}

#[test]
fn a_thin_strip_goes_entirely() {
    let text = "@@@@@@\n@@@@@@\n";
    assert_eq!(part1(text).unwrap(), 4);
    let (left, taken) = peel(parse_grid(text.as_bytes()).unwrap());
    assert_eq!(taken, 12);
    assert_eq!(left, vec![vec![0u8; 6]; 2]);
}

#[test]
fn what_is_left_is_stable() {
    let text = "\
@@@@@@
@@@@@@
@@@@@@
@@@@@@
@@@@@@
@@@@@@
......
@.....
";
    let grid = parse_grid(text.as_bytes()).unwrap();
    let (left, taken) = peel(grid.clone());
    let rolls: usize = grid.iter().flatten().map(|&c| c as usize).sum();
    let kept: usize = left.iter().flatten().map(|&c| c as usize).sum();
    assert_eq!(taken, rolls - kept);
    for r in 0..left.len() {
        for c in 0..left[r].len() {
            if left[r][c] == 1 {
                assert!(neighbors_at(&left, r, c) >= 4);
            }
        }
    }
}
