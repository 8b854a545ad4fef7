use advent_25::day07::{both, part1, part2, simulate, Error};

const EXAMPLE: &str = ".......S.......\n\
...............\n\
.......^.......\n\
...............\n\
......^.^......\n\
...............\n\
.....^.^.^.....\n\
...............\n\
....^.^...^....\n\
...............\n\
...^.^...^.^...\n\
...............\n\
..^...^.....^..\n\
...............\n\
.^.^.^.^.^...^.\n\
...............\n";

#[test]
fn day07_example_part1() {
    assert_eq!(part1(EXAMPLE).unwrap(), 21);
}

#[test]
fn day07_example_part2() {
    assert_eq!(part2(EXAMPLE).unwrap(), 40);
}

#[test]
fn both_parts_of_the_beams() {
    assert_eq!(both(EXAMPLE).unwrap(), (21, 40));
    assert_eq!(simulate(b"S\r\n^\r\n"), Ok((1, 2)));
    assert_eq!(simulate(b".S.\n.^.\n^.^\n"), Ok((3, 4)));
    assert_eq!(simulate(b"^^^\n.S.\n"), Ok((0, 1)));
}

#[test]
fn each_day07_error() {
    assert_eq!(both(""), Err(Error::MissingStart));
    assert_eq!(both("...\n.^.\n"), Err(Error::MissingStart));
    assert_eq!(both(".S.\n\n...\n"), Err(Error::EmptyLine));
    assert_eq!(both(".S.\n..\n"), Err(Error::WidthMismatch));
    assert_eq!(both(".S.\n.S.\n"), Err(Error::MultipleStarts));
    let mut tall = String::from(".S.\n");
    for _ in 0..130 {
        tall.push_str(".^.\n^.^\n");
    }
    assert_eq!(both(&tall), Err(Error::Overflow));
}
