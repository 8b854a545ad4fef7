use advent_25::day05::{both, parse_input, parse_ranges, part1, part2, Error};
use advent_25::lines::NumberError;
use advent_25::ranges::{count_covered, is_fresh, merge_ranges};

const EXAMPLE: &str = "\
3-5
10-14
16-20
12-18

1
5
8
11
17
32
";

#[test]
fn example_counts_fresh_ids() {
    assert_eq!(part1(EXAMPLE).unwrap(), 3);
}

#[test]
fn example_counts_total_fresh_space() {
    assert_eq!(part2(EXAMPLE).unwrap(), 14);
}

#[test]
fn both_parts_of_the_inventory() {
    assert_eq!(both(EXAMPLE).unwrap(), (3, 14));
    assert_eq!(both("3-5\r\n\r\n4\r\n"), Ok((1, 3)));
}

#[test]
fn ranges_are_merged_where_they_overlap_or_touch() {
    let merged = merge_ranges(vec![(10, 14), (3, 5), (16, 20), (12, 18), (6, 6), (30, 30)]);
    assert_eq!(merged, vec![(3, 6), (10, 20), (30, 30)]);
    assert_eq!(count_covered(&merged), 4 + 11 + 1);
    assert!(is_fresh(3, &merged));
    assert!(is_fresh(20, &merged));
    assert!(is_fresh(30, &merged));
    assert!(!is_fresh(2, &merged));
    assert!(!is_fresh(7, &merged));
    assert!(!is_fresh(31, &merged));
    assert_eq!(merge_ranges(vec![]), vec![]);
    let whole = merge_ranges(vec![(1, u64::MAX), (0, 0)]);
    assert_eq!(whole, vec![(0, u64::MAX)]);
    assert_eq!(count_covered(&whole), 1u128 << 64);
}

#[test]
fn each_day05_error() {
    assert_eq!(part1(""), Err(Error::NoRanges));
    assert_eq!(part2("\n3-5\n"), Err(Error::NoRanges));
    assert_eq!(part1("3-5\n"), Err(Error::NoIds));
    assert_eq!(part2("3-5\n").unwrap(), 3);
    assert_eq!(part1("35\n\n1\n"), Err(Error::MissingHyphen));
    assert_eq!(part1("-5\n\n1\n"), Err(Error::Number(NumberError::Missing)));
    assert_eq!(part1("3-\n\n1\n"), Err(Error::Number(NumberError::Missing)));
    assert_eq!(part1("3-5\n\n1x\n"), Err(Error::Number(NumberError::BadDigit(b'x'))));
    assert_eq!(part1("5-3\n\n1\n"), Err(Error::Reversed));
    assert_eq!(
        part2("1-18446744073709551616\n"),
        Err(Error::Number(NumberError::TooLarge))
    );
    assert_eq!(parse_ranges(b"1-2\n3-4\n\nxyz\n"), Ok(vec![(1, 2), (3, 4)]));
    assert_eq!(
        parse_input(b"1-2\n\n7\n\n9\n"),
        Ok((vec![(1, 2)], vec![7, 9]))
    );
}
