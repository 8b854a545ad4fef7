use advent_25::day12::{
    build_shape, can_fit, can_fit_exact, count_boards, flip_horizontal, max_shape_dims, parse,
    parse_region_line, parse_shape, parse_usize, part1, rotate, trim_grid, Error, Region,
};

const EXAMPLE: &str = "\
0:
###
##.
##.

1:
###
##.
.##

2:
.##
###
##.

3:
##.
###
##.

4:
###
#..
###

5:
###
.#.
###

4x4: 0 0 0 0 2 0
12x5: 1 0 1 0 2 2
12x5: 1 0 1 0 3 2
";

fn grid(rows: &[&str]) -> Vec<Vec<bool>> {
    rows.iter().map(|row| row.bytes().map(|b| b == b'#').collect()).collect()
}

#[test]
fn example_count() {
    let result = part1(EXAMPLE).unwrap();
    assert_eq!(result, 2);
}

#[test]
fn grids_turn_flip_and_trim() {
    let g = grid(&["#..", "##."]);
    assert_eq!(rotate(&g, 3), grid(&["##", "#.", ".."]));
    assert_eq!(flip_horizontal(&g, 3), grid(&["..#", ".##"]));
    assert_eq!(trim_grid(&g, 3), (grid(&["#.", "##"]), 2));
    assert_eq!(trim_grid(&grid(&["....", ".#..", "...."]), 4), (grid(&["#"]), 1));
    assert_eq!(trim_grid(&grid(&["..", ".."]), 2), (Vec::<Vec<bool>>::new(), 0));
}

#[test]
fn shapes_lie_in_each_way_once() {
    let corner = build_shape(grid(&["#.", "##"]), 2);
    assert_eq!(corner.orientations.len(), 4);
    assert_eq!(corner.area, 3);
    assert_eq!((corner.max_width, corner.max_height), (2, 2));
    let bar = build_shape(grid(&["###"]), 3);
    assert_eq!(bar.orientations.len(), 2);
    assert_eq!((bar.max_width, bar.max_height), (3, 3));
    assert_eq!(bar.orientations[0].cells, vec![(0, 0), (0, 1), (0, 2)]);
    assert_eq!(bar.orientations[1].cells, vec![(0, 0), (1, 0), (2, 0)]);
    let ess = build_shape(grid(&[".##", "##."]), 3);
    assert_eq!(ess.orientations.len(), 4);
    let square = build_shape(grid(&["....", ".##.", ".##."]), 4);
    assert_eq!(square.orientations.len(), 1);
    assert_eq!(square.area, 4);
    assert_eq!(max_shape_dims(&vec![corner, bar, ess, square]), (3, 3));
}

#[test]
fn boards_are_read_from_their_lines() {
    let region = parse_region_line(b"12x5: 1 0  3").unwrap();
    assert_eq!((region.width, region.height), (12, 5));
    assert_eq!(region.counts, vec![1, 0, 3]);
    assert_eq!(parse_region_line(b"4x4:").unwrap().counts, Vec::<usize>::new());
    assert!(parse_region_line(b"12x5").is_none());
    assert!(parse_region_line(b"12x5: 1: 2").is_none());
    assert!(parse_region_line(b"12x5x2: 1").is_none());
    assert!(parse_region_line(b"12: 1").is_none());
    assert!(parse_region_line(b"ax5: 1").is_none());
    assert!(parse_region_line(b"12x5: 1 b").is_none());
    assert_eq!(parse_usize(b"+17"), Some(17));
    assert_eq!(parse_usize(b""), None);
    assert_eq!(parse_usize(b"+"), None);
    assert_eq!(parse_usize(b"1 "), None);
    assert_eq!(parse_usize(b"99999999999999999999999999"), None);
}

#[test]
fn each_day12_error() {
    assert_eq!(part1(""), Err(Error::NoShapes));
    assert_eq!(part1("4x4: 1\n"), Err(Error::NoShapes));
    assert_eq!(part1("zero\n##\n"), Err(Error::ExpectedHeader));
    assert_eq!(part1("a:\n##\n"), Err(Error::InvalidIndex));
    assert_eq!(part1("0:\n\n##\n"), Err(Error::NoGrid));
    assert_eq!(part1("0:\n1:\n##\n"), Err(Error::NoGrid));
    assert_eq!(part1("0:\n##\n\n0:\n#\n"), Err(Error::DuplicateShape));
    assert_eq!(part1("1:\n##\n"), Err(Error::MissingShape));
    assert_eq!(part1("0:\n##\n#\n"), Err(Error::InconsistentWidths));
    assert_eq!(part1("0:\n#x\n"), Err(Error::InvalidCharacter(b'x')));
    assert_eq!(part1("0:\n..\n"), Err(Error::NoCells));
    assert_eq!(part1("0:\n##\n\n4x4: 1 1\n"), Err(Error::CountMismatch));
    let huge = format!("0:\n##\n\n{0}x{0}: 1\n", usize::MAX);
    assert_eq!(part1(&huge), Err(Error::TooLarge));
    assert_eq!(parse_shape(&vec![&b".."[..]]).unwrap_err(), Error::NoCells);
}

#[test]
fn shapes_may_come_in_any_order() {
    let text = "1:\n##\n\n0:\n#\n#\n#\n\n3x2: 1 1\r\nnot a board\n3x2: 0 4\n2x2: 0 1\n1x2: 1 0\n";
    let (shapes, regions) = parse(text.as_bytes()).unwrap();
    assert_eq!(shapes.len(), 2);
    assert_eq!(shapes[0].area, 3);
    assert_eq!(shapes[1].area, 2);
    assert_eq!(regions.len(), 4);
    assert_eq!(count_boards(&shapes, &regions), Ok(2));
    assert_eq!(part1(text), Ok(2));
}

#[test]
fn boards_with_and_without_room() {
    let shapes = vec![build_shape(grid(&["#.", "##"]), 2), build_shape(grid(&["##"]), 2)];
    let board = |width, height, counts: &[usize]| Region { width, height, counts: counts.to_vec() };
    assert_eq!(can_fit(&board(2, 2, &[1, 0]), &shapes), Ok(true));
    assert_eq!(can_fit(&board(2, 2, &[0, 2]), &shapes), Ok(true));
    assert_eq!(can_fit(&board(2, 2, &[1, 1]), &shapes), Ok(false));
    assert_eq!(can_fit(&board(3, 2, &[2, 0]), &shapes), Ok(true));
    assert_eq!(can_fit(&board(3, 2, &[1, 1]), &shapes), Ok(true));
    assert_eq!(can_fit(&board(5, 1, &[0, 2]), &shapes), Ok(true));
    assert_eq!(can_fit(&board(5, 1, &[1, 0]), &shapes), Ok(false));
    assert_eq!(can_fit(&board(3, 1, &[0, 2]), &shapes), Ok(false));
    assert_eq!(can_fit(&board(0, 0, &[0, 0]), &shapes), Ok(true));
    assert_eq!(can_fit(&board(0, 7, &[0, 1]), &shapes), Ok(false));
    // each corner of the square would need a shape of its own
    assert!(!can_fit_exact(3, 3, &shapes, &vec![3, 0]));
    assert!(can_fit_exact(4, 3, &shapes, &vec![4, 0]));
    assert!(!can_fit_exact(3, 3, &shapes, &vec![2, 2]));
    assert!(can_fit_exact(4, 2, &shapes, &vec![2, 1]));
}

#[test]
fn many_shapes_find_room_in_slots_of_their_own() {
    let (shapes, _) = parse(EXAMPLE.as_bytes()).unwrap();
    let roomy = Region { width: 60, height: 45, counts: vec![50, 50, 50, 50, 50, 50] };
    assert_eq!(can_fit(&roomy, &shapes), Ok(true));
    let crowded = Region { width: 60, height: 45, counts: vec![70, 70, 70, 70, 70, 70] };
    assert_eq!(can_fit(&crowded, &shapes), Ok(false));
    let empty = Region { width: 0, height: 0, counts: vec![0, 0, 0, 0, 0, 0] };
    assert_eq!(can_fit(&empty, &shapes), Ok(true));
    let text = format!("{}60x45: 50 50 50 50 50 50\n", EXAMPLE);
    assert_eq!(part1(&text), Ok(3));
}
