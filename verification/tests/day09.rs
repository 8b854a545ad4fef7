use advent_25::day09::{
    both, build_coverage, build_row, max_area_any, max_area_within_green, parse_points, part1,
    part2, rect_area, Error, Tile, SHIFT,
};
use advent_25::lines::ParseError;

const EXAMPLE: &str = "7,1\n\
11,1\n\
11,7\n\
9,7\n\
9,5\n\
2,5\n\
2,3\n\
7,3\n";

fn tile(x: i32, y: i32) -> Tile {
    Tile { x, y }
}

/// A loop in the shape of stairs with `steps` steps.
fn stairs(steps: i32) -> String {
    let mut text = String::from("0,0\n");
    for k in 0..steps {
        text.push_str(&format!("{},{}\n", 10 * (k + 1), 7 * k));
        text.push_str(&format!("{},{}\n", 10 * (k + 1), 7 * (k + 1)));
    }
    text.push_str(&format!("0,{}\n", 7 * steps));
    text
}

#[test]
fn example_max_area() {
    let pts = parse_points(EXAMPLE.as_bytes()).unwrap();
    assert_eq!(max_area_any(&pts), 50);
}

#[test]
fn day09_example_part2() {
    let pts = parse_points(EXAMPLE.as_bytes()).unwrap();
    let cov = build_coverage(&pts).unwrap();
    assert_eq!(max_area_within_green(&pts, &cov), 24);
}

#[test]
fn parse_handles_crlf_and_blanks() {
    let data = "1,2\r\n\r\n-3,4\n";
    let pts = parse_points(data.as_bytes()).unwrap();
    assert_eq!(pts, vec![tile(1, 2), tile(-3, 4)]);
}

#[test]
fn day09_puzzle_input_runs() {
    let text = stairs(120);
    let _ = both(&text).unwrap();
}

#[test]
fn both_parts_of_the_tiles() {
    assert_eq!(part1(EXAMPLE), Ok(50));
    assert_eq!(part2(EXAMPLE), Ok(24));
    assert_eq!(both(EXAMPLE), Ok((50, 24)));
}

#[test]
fn stairs_hold_their_largest_step_rectangle() {
    let text = stairs(3);
    // the largest rectangle inside reaches from the far corner to the middle step
    assert_eq!(part2(&text), Ok(21 * 15));
    assert_eq!(part1(&text), Ok(31 * 22));
}

#[test]
fn a_square_loop_is_green_all_over() {
    let text = "0,0\n5,0\n5,5\n0,5\n";
    assert_eq!(both(text), Ok((36, 36)));
    let pts = parse_points(text.as_bytes()).unwrap();
    let shift = SHIFT as u64;
    assert_eq!(build_row(&pts, 0), Ok(vec![(shift, shift + 5)]));
    assert_eq!(build_row(&pts, 3), Ok(vec![(shift, shift + 5)]));
    assert_eq!(build_row(&pts, 5), Ok(vec![(shift, shift + 5)]));
    assert_eq!(build_row(&pts, 6), Ok(vec![]));
}

#[test]
fn area_counts_both_corners() {
    assert_eq!(rect_area(&tile(2, 5), &tile(11, 1)), 50);
    assert_eq!(rect_area(&tile(3, 3), &tile(3, 3)), 1);
    assert_eq!(rect_area(&tile(i32::MIN, i32::MIN), &tile(i32::MAX, i32::MAX)), 1u128 << 64);
}

#[test]
fn each_day09_error() {
    assert_eq!(part1("1,2\n"), Err(Error::TooFewTiles));
    assert_eq!(part1(""), Err(Error::TooFewTiles));
    assert_eq!(part2("1,2\n3,4\n"), Err(Error::TooFewForLoop));
    assert_eq!(both("1,2\n3,4\n"), Err(Error::TooFewForLoop));
    assert_eq!(part1("1;2\n"), Err(Error::Parse(ParseError::MissingSeparator)));
    assert_eq!(part1("1,2,3\n"), Err(Error::Parse(ParseError::TrailingCharacters)));
    assert_eq!(part2("0,0\n0,5\n3,5\n"), Err(Error::Malformed));
    let far = format!("{0},{0}\n{1},{1}\n", i32::MIN, i32::MAX);
    assert_eq!(part1(&far), Err(Error::AreaOverflow));
}
