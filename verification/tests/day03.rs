use advent_25::day03::{both, max_number_from_line_pick, part1, part2, solve_single_pick, Error};

#[test]
fn example_input_part1() {
    let input = "\
987654321111111
811111111111119
234234234234278
818181911112111
";

    assert_eq!(part1(input).unwrap(), 357);
}

#[test]
fn example_input_part2() {
    let input = "\
987654321111111
811111111111119
234234234234278
818181911112111
";

    assert_eq!(part2(input).unwrap(), 3_121_910_778_619);
}

#[test]
fn both_parts_of_the_example() {
    let input = "987654321111111\r\n\r\n811111111111119\n234234234234278\n818181911112111";
    assert_eq!(both(input).unwrap(), (357, 3_121_910_778_619));
}

#[test]
fn best_pick_of_a_line() {
    assert_eq!(max_number_from_line_pick(b"818181911112111", 2), Ok(92));
    assert_eq!(max_number_from_line_pick(b"818181911112111", 12), Ok(888911112111));
    assert_eq!(max_number_from_line_pick(b"12345", 5), Ok(12345));
    assert_eq!(max_number_from_line_pick(b"12345", 0), Ok(0));
    assert_eq!(max_number_from_line_pick(b"54321", 3), Ok(543));
    assert_eq!(max_number_from_line_pick(b"1929", 2), Ok(99));
    assert_eq!(max_number_from_line_pick(b"9991", 3), Ok(999));
    assert_eq!(max_number_from_line_pick(b"00090", 2), Ok(90));
}

#[test]
fn best_pick_is_the_largest_of_all_picks() {
    let line = b"3141592653589793";
    let digits: Vec<u64> = line.iter().map(|b| (b - b'0') as u64).collect();
    let mut best = 0;
    for a in 0..digits.len() {
        for b in (a + 1)..digits.len() {
            for c in (b + 1)..digits.len() {
                best = best.max(digits[a] * 100 + digits[b] * 10 + digits[c]);
            }
        }
    }
    assert_eq!(max_number_from_line_pick(line, 3), Ok(best));
}

#[test]
fn each_day03_error() {
    assert_eq!(part1("1\n"), Err(Error::TooShort));
    assert_eq!(part2("12345678901\n"), Err(Error::TooShort));
    assert_eq!(part1("12x4\n"), Err(Error::NonDigit(b'x')));
    assert_eq!(both("1234\n"), Err(Error::TooShort));
    assert_eq!(
        max_number_from_line_pick(b"99999999999999999999", 20),
        Err(Error::Overflow)
    );
    assert_eq!(
        solve_single_pick("18446744073709551615\n00000000000000000001\n", 20),
        Err(Error::Overflow)
    );
    assert_eq!(solve_single_pick("", 2), Ok(0));
}
