//! Solvers for a set of small, independent puzzles. Each solver is a pure
//! function from the puzzle text to one or two numbers.

use vstd::prelude::*;
use vstd::string::StringExecFns;

pub mod ascii;
pub mod day01;
pub mod day02;
pub mod day03;
pub mod day04;
pub mod day05;
pub mod day06;
pub mod day07;
pub mod day08;
pub mod day09;
pub mod day10;
pub mod day11;
pub mod day12;
pub mod lines;
pub mod ranges;
pub mod render;
pub mod values;

use crate::render::{decimal, spec_decimal};

verus! {

/// The days that have a solver.
pub const IMPLEMENTED_DAYS: [u8; 12] = [1, 2, 3, 4, 5, 6, 7, 8, 9, 10, 11, 12];

/// Which half of a puzzle to solve.
#[derive(Copy, Clone, Debug, PartialEq, Eq, Structural)]
pub enum Part {
    One,
    Two,
    Both,
}

/// The part that a word names, if it names one.
pub open spec fn spec_part(word: Seq<char>) -> Option<Part> {
    if word == "1"@ || word == "one"@ || word == "One"@ {
        Some(Part::One)
    } else if word == "2"@ || word == "two"@ || word == "Two"@ {
        Some(Part::Two)
    } else if word == "both"@ || word == "Both"@ || word == "all"@ || word == "*"@ || word == "0"@ {
        Some(Part::Both)
    } else {
        None
    }
}

/// Whether a text is the given word.
fn is_word(text: &String, word: &str) -> (r: bool)
    ensures
        r == (text@ == word@),
{
    let other = String::from_str(word);
    *text == other
}

impl Part {
    /// The part that a word names.
    pub fn from_str(raw: &str) -> (r: Result<Part, String>)
        ensures
            match r {
                Ok(part) => spec_part(raw@) == Some(part),
                Err(message) => spec_part(raw@) is None && message@
                    == "part must be 1, 2, or both, got '"@ + raw@ + "'"@,
            },
    {
        let text = String::from_str(raw);
        if is_word(&text, "1") || is_word(&text, "one") || is_word(&text, "One") {
            Ok(Part::One)
        } else if is_word(&text, "2") || is_word(&text, "two") || is_word(&text, "Two") {
            Ok(Part::Two)
        } else if is_word(&text, "both") || is_word(&text, "Both") || is_word(&text, "all")
            || is_word(&text, "*") || is_word(&text, "0") {
            Ok(Part::Both)
        } else {
            let message = String::from_str("part must be 1, 2, or both, got '").concat(raw).concat(
                "'",
            );
            Err(message)
        }
    }

    /// The word for a part.
    pub fn label(self) -> (r: &'static str)
        ensures
            r@ == match self {
                Part::One => "1"@,
                Part::Two => "2"@,
                Part::Both => "both"@,
            },
    {
        match self {
            Part::One => "1",
            Part::Two => "2",
            Part::Both => "both",
        }
    }
}

/// Why a day has no answer.
#[derive(Copy, Clone, Debug, PartialEq, Eq)]
pub enum Failure {
    /// The day is not one of the twenty-five days.
    DayOutOfRange(u8),
    /// The day has no solver.
    NotImplemented(u8, Part),
    /// The text of day 1 has no answer.
    Day01(day01::Error),
    /// The text of day 2 has no answer.
    Day02(day02::Error),
    /// The text of day 3 has no answer.
    Day03(day03::Error),
    /// The text of day 4 has no answer.
    Day04(day04::Error),
    /// The text of day 5 has no answer.
    Day05(day05::Error),
    /// The text of day 6 has no answer.
    Day06(day06::Error),
    /// The text of day 7 has no answer.
    Day07(day07::Error),
    /// The text of day 8 has no answer.
    Day08(day08::SolveError),
    /// The text of day 9 has no answer.
    Day09(day09::Error),
    /// The text of day 10 has no answer.
    Day10(day10::Error),
    /// The text of day 11 has no answer.
    Day11(day11::Error),
    /// The text of day 12 has no answer.
    Day12(day12::Error),
}

/// The text for both answers.
pub open spec fn both_text(first: nat, second: nat) -> Seq<char> {
    "Part 1: "@ + spec_decimal(first) + "\nPart 2: "@ + spec_decimal(second)
}

/// The text for a day that has one answer only.
pub open spec fn only_text(first: nat) -> Seq<char> {
    "Part 1: "@ + spec_decimal(first)
}

/// Writes both answers.
fn write_both(first: u128, second: u128) -> (text: String)
    ensures
        text@ == both_text(first as nat, second as nat),
{
    let mut text = String::from_str("Part 1: ");
    let one = decimal(first);
    text.append(one.as_str());
    text.append("\nPart 2: ");
    let two = decimal(second);
    text.append(two.as_str());
    text
}

/// Writes the answer of a day that has one answer only.
fn write_only(first: u128) -> (text: String)
    ensures
        text@ == only_text(first as nat),
{
    let mut text = String::from_str("Part 1: ");
    let one = decimal(first);
    text.append(one.as_str());
    text
}

/// What solving day 1 gives: the answers that its solver gives, written
/// out, or the fault that its solver finds.
pub open spec fn day01_holds(part: Part, input: &str, r: Result<String, Failure>) -> bool {
    match part {
        Part::One => exists|a: Result<usize, day01::Error>|
            #[trigger] day01::part1_holds(input, a) && match (a, r) {
                (Ok(n), Ok(text)) => text@ == spec_decimal(n as nat),
                (Err(e), Err(f)) => f == Failure::Day01(e),
                _ => false,
            },
        Part::Two => exists|a: Result<usize, day01::Error>|
            #[trigger] day01::part2_holds(input, a) && match (a, r) {
                (Ok(n), Ok(text)) => text@ == spec_decimal(n as nat),
                (Err(e), Err(f)) => f == Failure::Day01(e),
                _ => false,
            },
        Part::Both => exists|a: Result<usize, day01::Error>|
            #[trigger] day01::part1_holds(input, a) && match a {
                Err(e) => r == Err::<String, Failure>(Failure::Day01(e)),
                Ok(n) => exists|b: Result<usize, day01::Error>|
                    #[trigger] day01::part2_holds(input, b) && match (b, r) {
                        (Ok(m), Ok(text)) => text@ == both_text(n as nat, m as nat),
                        (Err(e), Err(f)) => f == Failure::Day01(e),
                        _ => false,
                    },
            },
    }
}

/// What solving day 2 gives: the answers that its solver gives, written
/// out, or the fault that its solver finds.
pub open spec fn day02_holds(part: Part, input: &str, r: Result<String, Failure>) -> bool {
    match part {
        Part::One => exists|a: Result<u128, day02::Error>|
            #[trigger] day02::part1_holds(input, a) && match (a, r) {
                (Ok(n), Ok(text)) => text@ == spec_decimal(n as nat),
                (Err(e), Err(f)) => f == Failure::Day02(e),
                _ => false,
            },
        Part::Two => exists|a: Result<u128, day02::Error>|
            #[trigger] day02::part2_holds(input, a) && match (a, r) {
                (Ok(n), Ok(text)) => text@ == spec_decimal(n as nat),
                (Err(e), Err(f)) => f == Failure::Day02(e),
                _ => false,
            },
        Part::Both => exists|a: Result<(u128, u128), day02::Error>|
            #[trigger] day02::both_holds(input, a) && match (a, r) {
                (Ok((n, m)), Ok(text)) => text@ == both_text(n as nat, m as nat),
                (Err(e), Err(f)) => f == Failure::Day02(e),
                _ => false,
            },
    }
}

/// What solving day 3 gives: the answers that its solver gives, written
/// out, or the fault that its solver finds.
pub open spec fn day03_holds(part: Part, input: &str, r: Result<String, Failure>) -> bool {
    match part {
        Part::One => exists|a: Result<u64, day03::Error>|
            #[trigger] day03::part1_holds(input, a) && match (a, r) {
                (Ok(n), Ok(text)) => text@ == spec_decimal(n as nat),
                (Err(e), Err(f)) => f == Failure::Day03(e),
                _ => false,
            },
        Part::Two => exists|a: Result<u64, day03::Error>|
            #[trigger] day03::part2_holds(input, a) && match (a, r) {
                (Ok(n), Ok(text)) => text@ == spec_decimal(n as nat),
                (Err(e), Err(f)) => f == Failure::Day03(e),
                _ => false,
            },
        Part::Both => exists|a: Result<(u64, u64), day03::Error>|
            #[trigger] day03::both_holds(input, a) && match (a, r) {
                (Ok((n, m)), Ok(text)) => text@ == both_text(n as nat, m as nat),
                (Err(e), Err(f)) => f == Failure::Day03(e),
                _ => false,
            },
    }
}

/// What solving day 4 gives: the answers that its solver gives, written
/// out, or the fault that its solver finds.
pub open spec fn day04_holds(part: Part, input: &str, r: Result<String, Failure>) -> bool {
    match part {
        Part::One => exists|a: Result<usize, day04::Error>|
            #[trigger] day04::part1_holds(input, a) && match (a, r) {
                (Ok(n), Ok(text)) => text@ == spec_decimal(n as nat),
                (Err(e), Err(f)) => f == Failure::Day04(e),
                _ => false,
            },
        Part::Two => exists|a: Result<usize, day04::Error>|
            #[trigger] day04::part2_holds(input, a) && match (a, r) {
                (Ok(n), Ok(text)) => text@ == spec_decimal(n as nat),
                (Err(e), Err(f)) => f == Failure::Day04(e),
                _ => false,
            },
        Part::Both => exists|a: Result<(usize, usize), day04::Error>|
            #[trigger] day04::both_holds(input, a) && match (a, r) {
                (Ok((n, m)), Ok(text)) => text@ == both_text(n as nat, m as nat),
                (Err(e), Err(f)) => f == Failure::Day04(e),
                _ => false,
            },
    }
}

/// What solving day 5 gives: the answers that its solver gives, written
/// out, or the fault that its solver finds.
pub open spec fn day05_holds(part: Part, input: &str, r: Result<String, Failure>) -> bool {
    match part {
        Part::One => exists|a: Result<usize, day05::Error>|
            #[trigger] day05::part1_holds(input, a) && match (a, r) {
                (Ok(n), Ok(text)) => text@ == spec_decimal(n as nat),
                (Err(e), Err(f)) => f == Failure::Day05(e),
                _ => false,
            },
        Part::Two => exists|a: Result<u128, day05::Error>|
            #[trigger] day05::part2_holds(input, a) && match (a, r) {
                (Ok(n), Ok(text)) => text@ == spec_decimal(n as nat),
                (Err(e), Err(f)) => f == Failure::Day05(e),
                _ => false,
            },
        Part::Both => exists|a: Result<(usize, u128), day05::Error>|
            #[trigger] day05::both_holds(input, a) && match (a, r) {
                (Ok((n, m)), Ok(text)) => text@ == both_text(n as nat, m as nat),
                (Err(e), Err(f)) => f == Failure::Day05(e),
                _ => false,
            },
    }
}

/// What solving day 6 gives: the answers that its solver gives, written
/// out, or the fault that its solver finds.
pub open spec fn day06_holds(part: Part, input: &str, r: Result<String, Failure>) -> bool {
    match part {
        Part::One => exists|a: Result<u128, day06::Error>|
            #[trigger] day06::part1_holds(input, a) && match (a, r) {
                (Ok(n), Ok(text)) => text@ == spec_decimal(n as nat),
                (Err(e), Err(f)) => f == Failure::Day06(e),
                _ => false,
            },
        Part::Two => exists|a: Result<u128, day06::Error>|
            #[trigger] day06::part2_holds(input, a) && match (a, r) {
                (Ok(n), Ok(text)) => text@ == spec_decimal(n as nat),
                (Err(e), Err(f)) => f == Failure::Day06(e),
                _ => false,
            },
        Part::Both => exists|a: Result<(u128, u128), day06::Error>|
            #[trigger] day06::both_holds(input, a) && match (a, r) {
                (Ok((n, m)), Ok(text)) => text@ == both_text(n as nat, m as nat),
                (Err(e), Err(f)) => f == Failure::Day06(e),
                _ => false,
            },
    }
}

/// What solving day 7 gives: the answers that its solver gives, written
/// out, or the fault that its solver finds.
pub open spec fn day07_holds(part: Part, input: &str, r: Result<String, Failure>) -> bool {
    match part {
        Part::One => exists|a: Result<u128, day07::Error>|
            #[trigger] day07::part1_holds(input, a) && match (a, r) {
                (Ok(n), Ok(text)) => text@ == spec_decimal(n as nat),
                (Err(e), Err(f)) => f == Failure::Day07(e),
                _ => false,
            },
        Part::Two => exists|a: Result<u128, day07::Error>|
            #[trigger] day07::part2_holds(input, a) && match (a, r) {
                (Ok(n), Ok(text)) => text@ == spec_decimal(n as nat),
                (Err(e), Err(f)) => f == Failure::Day07(e),
                _ => false,
            },
        Part::Both => exists|a: Result<(u128, u128), day07::Error>|
            #[trigger] day07::both_holds(input, a) && match (a, r) {
                (Ok((n, m)), Ok(text)) => text@ == both_text(n as nat, m as nat),
                (Err(e), Err(f)) => f == Failure::Day07(e),
                _ => false,
            },
    }
}

/// What solving day 8 gives: the answers that its solver gives, written
/// out, or the fault that its solver finds.
pub open spec fn day08_holds(part: Part, input: &str, r: Result<String, Failure>) -> bool {
    match part {
        Part::One => exists|a: Result<u64, day08::SolveError>|
            #[trigger] day08::part1_holds(input, a) && match (a, r) {
                (Ok(n), Ok(text)) => text@ == spec_decimal(n as nat),
                (Err(e), Err(f)) => f == Failure::Day08(e),
                _ => false,
            },
        Part::Two => exists|a: Result<u64, day08::SolveError>|
            #[trigger] day08::part2_holds(input, a) && match (a, r) {
                (Ok(n), Ok(text)) => text@ == spec_decimal(n as nat),
                (Err(e), Err(f)) => f == Failure::Day08(e),
                _ => false,
            },
        Part::Both => exists|a: Result<(u64, u64), day08::SolveError>|
            #[trigger] day08::both_holds(input, a) && match (a, r) {
                (Ok((n, m)), Ok(text)) => text@ == both_text(n as nat, m as nat),
                (Err(e), Err(f)) => f == Failure::Day08(e),
                _ => false,
            },
    }
}

/// What solving day 9 gives: the answers that its solver gives, written
/// out, or the fault that its solver finds.
pub open spec fn day09_holds(part: Part, input: &str, r: Result<String, Failure>) -> bool {
    match part {
        Part::One => exists|a: Result<u64, day09::Error>|
            #[trigger] day09::part1_holds(input, a) && match (a, r) {
                (Ok(n), Ok(text)) => text@ == spec_decimal(n as nat),
                (Err(e), Err(f)) => f == Failure::Day09(e),
                _ => false,
            },
        Part::Two => exists|a: Result<u64, day09::Error>|
            #[trigger] day09::part2_holds(input, a) && match (a, r) {
                (Ok(n), Ok(text)) => text@ == spec_decimal(n as nat),
                (Err(e), Err(f)) => f == Failure::Day09(e),
                _ => false,
            },
        Part::Both => exists|a: Result<(u64, u64), day09::Error>|
            #[trigger] day09::both_holds(input, a) && match (a, r) {
                (Ok((n, m)), Ok(text)) => text@ == both_text(n as nat, m as nat),
                (Err(e), Err(f)) => f == Failure::Day09(e),
                _ => false,
            },
    }
}

/// What solving day 10 gives: the answers that its solver gives, written
/// out, or the fault that its solver finds.
pub open spec fn day10_holds(part: Part, input: &str, r: Result<String, Failure>) -> bool {
    match part {
        Part::One => exists|a: Result<u64, day10::Error>|
            #[trigger] day10::part1_holds(input, a) && match (a, r) {
                (Ok(n), Ok(text)) => text@ == spec_decimal(n as nat),
                (Err(e), Err(f)) => f == Failure::Day10(e),
                _ => false,
            },
        Part::Two => exists|a: Result<u64, day10::Error>|
            #[trigger] day10::part2_holds(input, a) && match (a, r) {
                (Ok(n), Ok(text)) => text@ == spec_decimal(n as nat),
                (Err(e), Err(f)) => f == Failure::Day10(e),
                _ => false,
            },
        Part::Both => exists|a: Result<(u64, u64), day10::Error>|
            #[trigger] day10::both_holds(input, a) && match (a, r) {
                (Ok((n, m)), Ok(text)) => text@ == both_text(n as nat, m as nat),
                (Err(e), Err(f)) => f == Failure::Day10(e),
                _ => false,
            },
    }
}

/// What solving day 11 gives: the answers that its solver gives, written
/// out, or the fault that its solver finds.
pub open spec fn day11_holds(part: Part, input: &str, r: Result<String, Failure>) -> bool {
    match part {
        Part::One => exists|a: Result<u64, day11::Error>|
            #[trigger] day11::part1_holds(input, a) && match (a, r) {
                (Ok(n), Ok(text)) => text@ == spec_decimal(n as nat),
                (Err(e), Err(f)) => f == Failure::Day11(e),
                _ => false,
            },
        Part::Two => exists|a: Result<u64, day11::Error>|
            #[trigger] day11::part2_holds(input, a) && match (a, r) {
                (Ok(n), Ok(text)) => text@ == spec_decimal(n as nat),
                (Err(e), Err(f)) => f == Failure::Day11(e),
                _ => false,
            },
        Part::Both => exists|a: Result<(u64, u64), day11::Error>|
            #[trigger] day11::both_holds(input, a) && match (a, r) {
                (Ok((n, m)), Ok(text)) => text@ == both_text(n as nat, m as nat),
                (Err(e), Err(f)) => f == Failure::Day11(e),
                _ => false,
            },
    }
}

/// What solving day 12 gives: it has one answer, whatever part is asked
/// for.
pub open spec fn day12_holds(input: &str, r: Result<String, Failure>) -> bool {
    exists|a: Result<u64, day12::Error>|
        #[trigger] day12::part1_holds(input, a) && match (a, r) {
            (Ok(n), Ok(text)) => text@ == only_text(n as nat),
            (Err(e), Err(f)) => f == Failure::Day12(e),
            _ => false,
        }
}

/// What solving gives.
pub open spec fn solve_holds(day: u8, part: Part, input: &str, r: Result<String, Failure>) -> bool {
    if day < 1 || day > 25 {
        r == Err::<String, Failure>(Failure::DayOutOfRange(day))
    } else if day > 12 {
        r == Err::<String, Failure>(Failure::NotImplemented(day, part))
    } else if day == 1 {
        day01_holds(part, input, r)
    } else if day == 2 {
        day02_holds(part, input, r)
    } else if day == 3 {
        day03_holds(part, input, r)
    } else if day == 4 {
        day04_holds(part, input, r)
    } else if day == 5 {
        day05_holds(part, input, r)
    } else if day == 6 {
        day06_holds(part, input, r)
    } else if day == 7 {
        day07_holds(part, input, r)
    } else if day == 8 {
        day08_holds(part, input, r)
    } else if day == 9 {
        day09_holds(part, input, r)
    } else if day == 10 {
        day10_holds(part, input, r)
    } else if day == 11 {
        day11_holds(part, input, r)
    } else {
        day12_holds(input, r)
    }
}

/// Solves day 1.
fn solve_day01(part: Part, input: &str) -> (r: Result<String, Failure>)
    ensures
        day01_holds(part, input, r),
{
    match part {
        Part::One => match day01::part1(input) {
            Ok(n) => Ok(decimal(n as u128)),
            Err(e) => Err(Failure::Day01(e)),
        },
        Part::Two => match day01::part2(input) {
            Ok(n) => Ok(decimal(n as u128)),
            Err(e) => Err(Failure::Day01(e)),
        },
        Part::Both => {
            let n = match day01::part1(input) {
                Ok(n) => n,
                Err(e) => {
                    return Err(Failure::Day01(e));
                },
            };
            match day01::part2(input) {
                Ok(m) => Ok(write_both(n as u128, m as u128)),
                Err(e) => Err(Failure::Day01(e)),
            }
        },
    }
}

/// Solves day 2.
fn solve_day02(part: Part, input: &str) -> (r: Result<String, Failure>)
    ensures
        day02_holds(part, input, r),
{
    match part {
        Part::One => match day02::part1(input) {
            Ok(n) => Ok(decimal(n as u128)),
            Err(e) => Err(Failure::Day02(e)),
        },
        Part::Two => match day02::part2(input) {
            Ok(n) => Ok(decimal(n as u128)),
            Err(e) => Err(Failure::Day02(e)),
        },
        Part::Both => match day02::both(input) {
            Ok((n, m)) => Ok(write_both(n as u128, m as u128)),
            Err(e) => Err(Failure::Day02(e)),
        },
    }
}

/// Solves day 3.
fn solve_day03(part: Part, input: &str) -> (r: Result<String, Failure>)
    ensures
        day03_holds(part, input, r),
{
    match part {
        Part::One => match day03::part1(input) {
            Ok(n) => Ok(decimal(n as u128)),
            Err(e) => Err(Failure::Day03(e)),
        },
        Part::Two => match day03::part2(input) {
            Ok(n) => Ok(decimal(n as u128)),
            Err(e) => Err(Failure::Day03(e)),
        },
        Part::Both => match day03::both(input) {
            Ok((n, m)) => Ok(write_both(n as u128, m as u128)),
            Err(e) => Err(Failure::Day03(e)),
        },
    }
}

/// Solves day 4.
fn solve_day04(part: Part, input: &str) -> (r: Result<String, Failure>)
    ensures
        day04_holds(part, input, r),
{
    match part {
        Part::One => match day04::part1(input) {
            Ok(n) => Ok(decimal(n as u128)),
            Err(e) => Err(Failure::Day04(e)),
        },
        Part::Two => match day04::part2(input) {
            Ok(n) => Ok(decimal(n as u128)),
            Err(e) => Err(Failure::Day04(e)),
        },
        Part::Both => match day04::both(input) {
            Ok((n, m)) => Ok(write_both(n as u128, m as u128)),
            Err(e) => Err(Failure::Day04(e)),
        },
    }
}

/// Solves day 5.
fn solve_day05(part: Part, input: &str) -> (r: Result<String, Failure>)
    ensures
        day05_holds(part, input, r),
{
    match part {
        Part::One => match day05::part1(input) {
            Ok(n) => Ok(decimal(n as u128)),
            Err(e) => Err(Failure::Day05(e)),
        },
        Part::Two => match day05::part2(input) {
            Ok(n) => Ok(decimal(n as u128)),
            Err(e) => Err(Failure::Day05(e)),
        },
        Part::Both => match day05::both(input) {
            Ok((n, m)) => Ok(write_both(n as u128, m as u128)),
            Err(e) => Err(Failure::Day05(e)),
        },
    }
}

/// Solves day 6.
fn solve_day06(part: Part, input: &str) -> (r: Result<String, Failure>)
    ensures
        day06_holds(part, input, r),
{
    match part {
        Part::One => match day06::part1(input) {
            Ok(n) => Ok(decimal(n as u128)),
            Err(e) => Err(Failure::Day06(e)),
        },
        Part::Two => match day06::part2(input) {
            Ok(n) => Ok(decimal(n as u128)),
            Err(e) => Err(Failure::Day06(e)),
        },
        Part::Both => match day06::both(input) {
            Ok((n, m)) => Ok(write_both(n as u128, m as u128)),
            Err(e) => Err(Failure::Day06(e)),
        },
    }
}

/// Solves day 7.
fn solve_day07(part: Part, input: &str) -> (r: Result<String, Failure>)
    ensures
        day07_holds(part, input, r),
{
    match part {
        Part::One => match day07::part1(input) {
            Ok(n) => Ok(decimal(n as u128)),
            Err(e) => Err(Failure::Day07(e)),
        },
        Part::Two => match day07::part2(input) {
            Ok(n) => Ok(decimal(n as u128)),
            Err(e) => Err(Failure::Day07(e)),
        },
        Part::Both => match day07::both(input) {
            Ok((n, m)) => Ok(write_both(n as u128, m as u128)),
            Err(e) => Err(Failure::Day07(e)),
        },
    }
}

/// Solves day 8.
fn solve_day08(part: Part, input: &str) -> (r: Result<String, Failure>)
    ensures
        day08_holds(part, input, r),
{
    match part {
        Part::One => match day08::part1(input) {
            Ok(n) => Ok(decimal(n as u128)),
            Err(e) => Err(Failure::Day08(e)),
        },
        Part::Two => match day08::part2(input) {
            Ok(n) => Ok(decimal(n as u128)),
            Err(e) => Err(Failure::Day08(e)),
        },
        Part::Both => match day08::both(input) {
            Ok((n, m)) => Ok(write_both(n as u128, m as u128)),
            Err(e) => Err(Failure::Day08(e)),
        },
    }
}

/// Solves day 9.
fn solve_day09(part: Part, input: &str) -> (r: Result<String, Failure>)
    ensures
        day09_holds(part, input, r),
{
    match part {
        Part::One => match day09::part1(input) {
            Ok(n) => Ok(decimal(n as u128)),
            Err(e) => Err(Failure::Day09(e)),
        },
        Part::Two => match day09::part2(input) {
            Ok(n) => Ok(decimal(n as u128)),
            Err(e) => Err(Failure::Day09(e)),
        },
        Part::Both => match day09::both(input) {
            Ok((n, m)) => Ok(write_both(n as u128, m as u128)),
            Err(e) => Err(Failure::Day09(e)),
        },
    }
}

/// Solves day 10.
fn solve_day10(part: Part, input: &str) -> (r: Result<String, Failure>)
    ensures
        day10_holds(part, input, r),
{
    match part {
        Part::One => match day10::part1(input) {
            Ok(n) => Ok(decimal(n as u128)),
            Err(e) => Err(Failure::Day10(e)),
        },
        Part::Two => match day10::part2(input) {
            Ok(n) => Ok(decimal(n as u128)),
            Err(e) => Err(Failure::Day10(e)),
        },
        Part::Both => match day10::both(input) {
            Ok((n, m)) => Ok(write_both(n as u128, m as u128)),
            Err(e) => Err(Failure::Day10(e)),
        },
    }
}

/// Solves day 11.
fn solve_day11(part: Part, input: &str) -> (r: Result<String, Failure>)
    ensures
        day11_holds(part, input, r),
{
    match part {
        Part::One => match day11::part1(input) {
            Ok(n) => Ok(decimal(n as u128)),
            Err(e) => Err(Failure::Day11(e)),
        },
        Part::Two => match day11::part2(input) {
            Ok(n) => Ok(decimal(n as u128)),
            Err(e) => Err(Failure::Day11(e)),
        },
        Part::Both => match day11::both(input) {
            Ok((n, m)) => Ok(write_both(n as u128, m as u128)),
            Err(e) => Err(Failure::Day11(e)),
        },
    }
}

/// Solves day 12.
fn solve_day12(input: &str) -> (r: Result<String, Failure>)
    ensures
        day12_holds(input, r),
{
    match day12::part1(input) {
        Ok(n) => Ok(write_only(n as u128)),
        Err(e) => Err(Failure::Day12(e)),
    }
}

/// Solves one day: runs its solver on the text and writes the answers
/// out.
pub fn solve(day: u8, part: Part, input: &str) -> (r: Result<String, Failure>)
    ensures
        solve_holds(day, part, input, r),
{
    if day < 1 || day > 25 {
        return Err(Failure::DayOutOfRange(day));
    }
    if day == 1 {
        solve_day01(part, input)
    } else if day == 2 {
        solve_day02(part, input)
    } else if day == 3 {
        solve_day03(part, input)
    } else if day == 4 {
        solve_day04(part, input)
    } else if day == 5 {
        solve_day05(part, input)
    } else if day == 6 {
        solve_day06(part, input)
    } else if day == 7 {
        solve_day07(part, input)
    } else if day == 8 {
        solve_day08(part, input)
    } else if day == 9 {
        solve_day09(part, input)
    } else if day == 10 {
        solve_day10(part, input)
    } else if day == 11 {
        solve_day11(part, input)
    } else if day == 12 {
        solve_day12(input)
    } else {
        Err(Failure::NotImplemented(day, part))
    }
}

} // verus!
