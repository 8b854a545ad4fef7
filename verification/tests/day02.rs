use advent_25::day02::{
    both, has_double_representation, has_shape, no_earlier_shape, parse_ranges, part1, part2,
    pow10_table, repunit_of, sums_for_ranges, Error,
};
use advent_25::ranges::merge_ranges;

const EXAMPLE: &str = "11-22,95-115,998-1012,1188511880-1188511890,222220-222224,\n\
1698522-1698528,446443-446449,38593856-38593862,565653-565659,\n\
824824821-824824827,2121212118-2121212124";

/// Whether the digits of `n` are one block written `reps` times.
fn is_block_written(n: u64, reps: usize) -> bool {
    let text = n.to_string();
    if text.len() % reps != 0 {
        return false;
    }
    let len = text.len() / reps;
    (0..text.len()).all(|i| text.as_bytes()[i] == text.as_bytes()[i % len])
}

#[test]
fn day02_example_input() {
    assert_eq!(part1(EXAMPLE).unwrap(), 1_227_775_554);
    assert_eq!(part2(EXAMPLE).unwrap(), 4_174_379_265);
}

#[test]
fn accepts_trailing_commas_and_spaces() {
    let input = "11-22, 99-105,\n";
    assert_eq!(part1(input).unwrap(), 132);
}

#[test]
fn both_parts_of_the_ranges() {
    assert_eq!(both(EXAMPLE), Ok((1_227_775_554, 4_174_379_265)));
    assert_eq!(both(""), Ok((0, 0)));
    assert_eq!(both("1-9"), Ok((0, 0)));
}

#[test]
fn sums_match_a_search_through_every_number() {
    let ranges = vec![(1u64, 25_000u64), (20_000, 130_000), (990_000, 1_012_000)];
    let mut doubled: u128 = 0;
    let mut repeated: u128 = 0;
    for n in (1..=130_000u64).chain(990_000..=1_012_000) {
        if is_block_written(n, 2) {
            doubled += n as u128;
        }
        if (2..=7).any(|reps| is_block_written(n, reps)) {
            repeated += n as u128;
        }
    }
    let merged = merge_ranges(ranges);
    assert_eq!(sums_for_ranges(&merged, true), Some(doubled));
    assert_eq!(sums_for_ranges(&merged, false), Some(repeated));
}

#[test]
fn a_number_in_two_ranges_counts_once() {
    assert_eq!(part2("10-12,11-11,5-11").unwrap(), 11);
    assert_eq!(part1("1111-1111").unwrap(), 1111);
    assert_eq!(part2("1111-1111").unwrap(), 1111);
    assert_eq!(part1("111-111").unwrap(), 0);
    assert_eq!(part2("111-111").unwrap(), 111);
}

#[test]
fn numbers_of_twenty_digits() {
    let text = "11111111111111111111-11111111111111111111,18446744073709551615-18446744073709551615";
    assert_eq!(part2(text).unwrap(), 11_111_111_111_111_111_111);
    assert_eq!(part1(text).unwrap(), 11_111_111_111_111_111_111);
    assert_eq!(
        part1("1234567890-1234567890,12345678901234567890-12345678901234567890").unwrap(),
        12_345_678_901_234_567_890
    );
    assert_eq!(
        part1("1000000000-1000000001,10000000001000000000-10000000001000000001").unwrap(),
        10_000_000_001_000_000_000
    );
    assert_eq!(part1("12345678901234567891-12345678911234567889").unwrap(), 0);
}

#[test]
fn shapes_of_numbers() {
    let table = pow10_table();
    assert_eq!(table[0], 1);
    assert_eq!(table[20], 100_000_000_000_000_000_000);
    assert_eq!(repunit_of(&table, 2, 3), 10101);
    assert_eq!(repunit_of(&table, 1, 20), 11_111_111_111_111_111_111);
    assert_eq!(repunit_of(&table, 10, 2), 10_000_000_001);
    assert!(has_shape(&table, 121212, 2, 3));
    assert!(!has_shape(&table, 121212, 3, 2));
    assert!(has_shape(&table, 123123, 3, 2));
    assert!(!has_shape(&table, 909, 2, 2));
    assert!(!has_shape(&table, 1201, 2, 2));
    assert!(has_shape(&table, 1111, 2, 2));
    assert!(has_shape(&table, 1111, 1, 4));
    assert!(no_earlier_shape(&table, 1111, 1, 4));
    assert!(!no_earlier_shape(&table, 1111, 2, 2));
    assert!(no_earlier_shape(&table, 1212, 2, 2));
    assert!(has_double_representation(&table, 1111));
    assert!(has_double_representation(&table, 6464));
    assert!(!has_double_representation(&table, 111));
    assert!(!has_double_representation(&table, 121212));
}

#[test]
fn each_day02_error() {
    assert_eq!(part1("1x-5"), Err(Error::InvalidStart(b'x')));
    assert_eq!(part1("1-5x"), Err(Error::InvalidEnd(b'x')));
    assert_eq!(part1("-5"), Err(Error::MissingStart));
    assert_eq!(part1("15"), Err(Error::MissingEnd));
    assert_eq!(part1("15-,"), Err(Error::MissingEnd));
    assert_eq!(part1("15- "), Err(Error::MissingEnd));
    assert_eq!(part1("18446744073709551616-5"), Err(Error::StartOverflow));
    assert_eq!(part1("5-18446744073709551616"), Err(Error::EndOverflow));
    assert_eq!(part1("9-5"), Err(Error::Reversed));
    assert_eq!(parse_ranges(b"1-2 ,\r\n 3 - 4"), Err(Error::InvalidStart(b' ')));
    assert_eq!(parse_ranges(b"1-2 ,\r\n 3- 4 5"), Ok(vec![(1, 2), (3, 45)]));
}
