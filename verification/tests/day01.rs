use advent_25::day01::{count_passes, count_stops, parse_turns, part1, part2, Error, Turn};

#[test]
fn day01_example_input() {
    let input = "\
L68
L30
R48
L5
R60
L55
L1
L99
R14
L82
";

    assert_eq!(part1(input).unwrap(), 3);
    assert_eq!(part2(input).unwrap(), 6);
}

#[test]
fn turns_are_read_with_blank_lines_and_carriage_returns() {
    let turns = parse_turns(b"\r\nL5\r\n\nR120\nL\n").unwrap();
    assert_eq!(
        turns,
        vec![
            Turn { right: false, clicks: 5 },
            Turn { right: true, clicks: 120 },
            Turn { right: false, clicks: 0 },
        ]
    );
    assert_eq!(parse_turns(b"").unwrap(), vec![]);
}

#[test]
fn each_day01_error() {
    assert_eq!(part1("X5\n"), Err(Error::BadDirection(b'X')));
    assert_eq!(part1("L5a\n"), Err(Error::BadDigit(b'a')));
    assert_eq!(part2("R18446744073709551616\n"), Err(Error::TooManyClicks));
    assert_eq!(part2("R18446744073709551615\n").unwrap(), 184467440737095516);
    let mut long = String::new();
    for _ in 0..101 {
        long.push_str("R18446744073709551600\n");
    }
    let turns = parse_turns(long.as_bytes()).unwrap();
    assert_eq!(count_passes(&turns), None);
    assert_eq!(part2(&long), Err(Error::CountTooLarge));
}

#[test]
fn stops_and_passes_on_small_turns() {
    let right = vec![Turn { right: true, clicks: 50 }];
    assert_eq!(count_stops(&right), 1);
    assert_eq!(count_passes(&right), Some(1));
    let round = vec![Turn { right: false, clicks: 250 }];
    assert_eq!(count_stops(&round), 1);
    assert_eq!(count_passes(&round), Some(3));
    let from_zero = vec![Turn { right: true, clicks: 50 }, Turn { right: false, clicks: 100 }];
    assert_eq!(count_stops(&from_zero), 2);
    assert_eq!(count_passes(&from_zero), Some(2));
    let short = vec![Turn { right: true, clicks: 49 }, Turn { right: false, clicks: 98 }];
    assert_eq!(count_stops(&short), 0);
    assert_eq!(count_passes(&short), Some(0));
    let over = vec![Turn { right: true, clicks: 49 }, Turn { right: false, clicks: 100 }];
    assert_eq!(count_stops(&over), 0);
    assert_eq!(count_passes(&over), Some(1));
}
