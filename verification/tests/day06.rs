use advent_25::day06::{both, find_segments, operator_for_segment, parse_lines, parse_row_number, part1, part2, Error};

const EXAMPLE: &str = "123 328  51 64 \n 45 64  387 23 \n  6 98  215 314\n*   +   *   +  ";

#[test]
fn day06_example_part1() {
    assert_eq!(part1(EXAMPLE).unwrap(), 4_277_556);
}

#[test]
fn day06_example_part2() {
    assert_eq!(part2(EXAMPLE).unwrap(), 3_263_827);
}

#[test]
fn both_parts_of_the_sheet() {
    assert_eq!(both(EXAMPLE).unwrap(), (4_277_556, 3_263_827));
    assert_eq!(both("12 3\r\n 4 5\r\n+  *\r\n").unwrap(), (16 + 15, 24 + 1 + 35));
}

#[test]
fn segments_operators_and_numbers() {
    let rows = parse_lines(EXAMPLE.as_bytes());
    assert_eq!(rows.len(), 4);
    assert_eq!(find_segments(&rows, 15), vec![(0, 3), (4, 7), (8, 11), (12, 15)]);
    assert_eq!(operator_for_segment(rows[3], 0, 3), Ok(b'*'));
    assert_eq!(operator_for_segment(rows[3], 4, 7), Ok(b'+'));
    assert_eq!(parse_row_number(rows[1], 0, 3), Ok(45));
    assert_eq!(parse_row_number(rows[2], 12, 15), Ok(314));
}

#[test]
fn each_day06_error() {
    assert_eq!(both("1 2\n"), Err(Error::TooFewRows));
    assert_eq!(both("\n\n"), Err(Error::Empty));
    assert_eq!(both("   \n   \n"), Err(Error::NoProblems));
    assert_eq!(both("12\n+*\n"), Err(Error::MultipleOperators));
    assert_eq!(both("12 3\n+   \n"), Err(Error::MissingOperator));
    assert_eq!(both("12\n- \n"), Err(Error::BadOperator(b'-')));
    assert_eq!(both("12\n  \n3 \n+ \n"), Err(Error::MissingNumber));
    assert_eq!(both("1x\n+ \n"), Err(Error::NonDigit(b'x')));
    assert_eq!(both("1 2\n345\n+  \n"), Err(Error::NonDigit(b' ')));
    assert_eq!(
        both("340282366920938463463374607431768211456\n+\n"),
        Err(Error::Overflow)
    );
    assert_eq!(
        both("340282366920938463463374607431768211455\n2\n*\n"),
        Err(Error::Overflow)
    );
}
