use advent_25::render::decimal;
use advent_25::day08::points::ParseError;
use advent_25::day08::SolveError;
use advent_25::{day03, solve, Failure, Part, IMPLEMENTED_DAYS};

#[test]
fn part_from_each_word() {
    for word in ["1", "one", "One"] {
        assert_eq!(Part::from_str(word), Ok(Part::One));
    }
    for word in ["2", "two", "Two"] {
        assert_eq!(Part::from_str(word), Ok(Part::Two));
    }
    for word in ["both", "Both", "all", "*", "0"] {
        assert_eq!(Part::from_str(word), Ok(Part::Both));
    }
    assert_eq!(
        Part::from_str("three"),
        Err(String::from("part must be 1, 2, or both, got 'three'"))
    );
    assert_eq!(Part::from_str(""), Err(String::from("part must be 1, 2, or both, got ''")));
}

#[test]
fn part_labels() {
    assert_eq!(Part::One.label(), "1");
    assert_eq!(Part::Two.label(), "2");
    assert_eq!(Part::Both.label(), "both");
}

#[test]
fn twelve_days() {
    assert_eq!(IMPLEMENTED_DAYS.to_vec(), (1..=12).collect::<Vec<u8>>());
}

#[test]
fn decimal_text_of_numbers() {
    assert_eq!(decimal(0), "0");
    assert_eq!(decimal(7), "7");
    assert_eq!(decimal(10), "10");
    assert_eq!(decimal(1_227_775_554), "1227775554");
    assert_eq!(decimal(u128::MAX), u128::MAX.to_string());
}

#[test]
fn solve_writes_the_answers_of_a_day() {
    assert_eq!(solve(3, Part::One, "987654321111111\n"), Ok(String::from("98")));
    assert_eq!(solve(3, Part::Two, "987654321111111\n"), Ok(String::from("987654321111")));
    assert_eq!(
        solve(3, Part::Both, "987654321111111\n"),
        Ok(String::from("Part 1: 98\nPart 2: 987654321111"))
    );
    assert_eq!(
        solve(1, Part::Both, "L50\nR100\n"),
        Ok(String::from("Part 1: 2\nPart 2: 2"))
    );
    assert_eq!(solve(8, Part::Two, "0,0,0\n7,0,0\n5,0,0\n"), Ok(String::from("0")));
    assert_eq!(solve(8, Part::Both, "3,0,0\n7,0,0\n"), Ok(String::from("Part 1: 0\nPart 2: 21")));
    for part in [Part::One, Part::Two, Part::Both] {
        assert_eq!(
            solve(12, part, "0:\n#\n\n1x1: 1\n1x1: 2\n"),
            Ok(String::from("Part 1: 1"))
        );
    }
}

#[test]
fn solve_reports_each_kind_of_failure() {
    assert_eq!(solve(0, Part::One, ""), Err(Failure::DayOutOfRange(0)));
    assert_eq!(solve(26, Part::Both, ""), Err(Failure::DayOutOfRange(26)));
    assert_eq!(solve(13, Part::Two, ""), Err(Failure::NotImplemented(13, Part::Two)));
    assert_eq!(solve(25, Part::One, ""), Err(Failure::NotImplemented(25, Part::One)));
    assert_eq!(solve(3, Part::One, "1\n"), Err(Failure::Day03(day03::Error::TooShort)));
    assert_eq!(
        solve(8, Part::Both, "1,2"),
        Err(Failure::Day08(SolveError::Parse(ParseError::MissingSeparator)))
    );
}
