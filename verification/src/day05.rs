//! Ranges of fresh numbers, and numbers to look up in them.
//!
//! The text holds one range `a-b` on each line up to the first blank
//! line, then one number on each line. The first answer counts the
//! numbers that lie in some range, the second counts all numbers that
//! the ranges hold together.

use vstd::prelude::*;
use vstd::string::StringSliceAdditionalSpecFns;
use crate::ascii::MINUS;
use crate::lines::{
    find_byte, first_index, parse_number, spec_lines, spec_number, split_lines, strip_cr,
    without_cr, line_views, NumberError,
};
use crate::ranges::{all_valid, count_covered, cover, covered, is_fresh, merge_ranges};

verus! {

/// Why a text has no answer.
#[derive(Copy, Clone, Debug, PartialEq, Eq, Structural)]
pub enum Error {
    /// A line among the ranges has no `-`.
    MissingHyphen,
    /// What stands for a number is none.
    Number(NumberError),
    /// A range starts after its end.
    Reversed,
    /// The text holds no range.
    NoRanges,
    /// The text holds no number to look up.
    NoIds,
}

/// The range that a line `a-b` holds.
pub open spec fn spec_range(line: Seq<u8>) -> Result<(u64, u64), Error> {
    match first_index(line, MINUS) {
        None => Err(Error::MissingHyphen),
        Some(hyphen) => match spec_number(line.subrange(0, hyphen)) {
            Err(e) => Err(Error::Number(e)),
            Ok(start) => match spec_number(line.subrange(hyphen + 1, line.len() as int)) {
                Err(e) => Err(Error::Number(e)),
                Ok(end) => if start > end {
                    Err(Error::Reversed)
                } else {
                    Ok((start as u64, end as u64))
                },
            },
        },
    }
}

/// The ranges and numbers of the lines from the `i`-th on, after those
/// read already. The first blank line ends the ranges.
pub open spec fn spec_inventory(
    lines: Seq<Seq<u8>>,
    i: int,
    in_ids: bool,
    ranges: Seq<(u64, u64)>,
    ids: Seq<u64>,
) -> Result<(Seq<(u64, u64)>, Seq<u64>), Error>
    decreases lines.len() - i,
{
    if i < 0 || i >= lines.len() {
        if ranges.len() == 0 {
            Err(Error::NoRanges)
        } else if ids.len() == 0 {
            Err(Error::NoIds)
        } else {
            Ok((ranges, ids))
        }
    } else {
        let line = strip_cr(lines[i]);
        if line.len() == 0 {
            spec_inventory(lines, i + 1, true, ranges, ids)
        } else if !in_ids {
            match spec_range(line) {
                Err(e) => Err(e),
                Ok(range) => spec_inventory(lines, i + 1, false, ranges.push(range), ids),
            }
        } else {
            match spec_number(line) {
                Err(e) => Err(Error::Number(e)),
                Ok(id) => spec_inventory(lines, i + 1, true, ranges, ids.push(id as u64)),
            }
        }
    }
}

/// The ranges of the lines from the `i`-th up to the first blank line,
/// after those read already.
pub open spec fn spec_leading_ranges(lines: Seq<Seq<u8>>, i: int, ranges: Seq<(u64, u64)>) -> Result<
    Seq<(u64, u64)>,
    Error,
>
    decreases lines.len() - i,
{
    if i < 0 || i >= lines.len() || strip_cr(lines[i]).len() == 0 {
        if ranges.len() == 0 {
            Err(Error::NoRanges)
        } else {
            Ok(ranges)
        }
    } else {
        match spec_range(strip_cr(lines[i])) {
            Err(e) => Err(e),
            Ok(range) => spec_leading_ranges(lines, i + 1, ranges.push(range)),
        }
    }
}

/// The ranges and the numbers that a text holds.
pub open spec fn spec_parse_input(s: Seq<u8>) -> Result<(Seq<(u64, u64)>, Seq<u64>), Error> {
    spec_inventory(spec_lines(s), 0, false, Seq::empty(), Seq::empty())
}

/// The ranges that a text holds.
pub open spec fn spec_parse_ranges(s: Seq<u8>) -> Result<Seq<(u64, u64)>, Error> {
    spec_leading_ranges(spec_lines(s), 0, Seq::empty())
}

/// How many of the first `k` numbers lie in some range.
pub open spec fn count_fresh(ranges: Seq<(u64, u64)>, ids: Seq<u64>, k: int) -> int
    decreases k,
{
    if k <= 0 {
        0
    } else {
        count_fresh(ranges, ids, k - 1) + if covered(ranges, ids[k - 1] as int) {
            1int
        } else {
            0int
        }
    }
}

/// Reads a range `a-b`.
fn parse_range(line: &[u8]) -> (r: Result<(u64, u64), Error>)
    ensures
        r == spec_range(line@),
        r is Ok ==> r.unwrap().0 <= r.unwrap().1,
{
    let hyphen = match find_byte(line, MINUS) {
        Some(at) => at,
        None => {
            return Err(Error::MissingHyphen);
        },
    };
    let start = match parse_number(&line[0..hyphen]) {
        Ok(v) => v,
        Err(e) => {
            return Err(Error::Number(e));
        },
    };
    let end = match parse_number(&line[hyphen + 1..line.len()]) {
        Ok(v) => v,
        Err(e) => {
            return Err(Error::Number(e));
        },
    };
    if start > end {
        return Err(Error::Reversed);
    }
    Ok((start, end))
}

/// Reads the ranges and the numbers to look up.
pub fn parse_input(bytes: &[u8]) -> (r: Result<(Vec<(u64, u64)>, Vec<u64>), Error>)
    ensures
        match (r, spec_parse_input(bytes@)) {
            (Ok((ranges, ids)), Ok((rs, is))) => ranges@ == rs && ids@ == is && all_valid(ranges@),
            (Err(e), Err(f)) => e == f,
            _ => false,
        },
{
    let lines = split_lines(bytes);
    let mut ranges: Vec<(u64, u64)> = Vec::new();
    let mut ids: Vec<u64> = Vec::new();
    let mut in_ids = false;
    let mut i: usize = 0;
    while i < lines.len()
        invariant
            i <= lines.len(),
            line_views(lines@) == spec_lines(bytes@),
            all_valid(ranges@),
            spec_parse_input(bytes@) == spec_inventory(
                spec_lines(bytes@),
                i as int,
                in_ids,
                ranges@,
                ids@,
            ),
        decreases lines.len() - i,
    {
        let line = without_cr(lines[i]);
        proof {
            assert(line_views(lines@)[i as int] == lines@[i as int]@);
        }
        if line.len() == 0 {
            in_ids = true;
        } else if !in_ids {
            match parse_range(line) {
                Ok(range) => {
                    ranges.push(range);
                },
                Err(e) => {
                    return Err(e);
                },
            }
        } else {
            match parse_number(line) {
                Ok(id) => {
                    ids.push(id);
                },
                Err(e) => {
                    return Err(Error::Number(e));
                },
            }
        }
        i += 1;
    }
    if ranges.len() == 0 {
        return Err(Error::NoRanges);
    }
    if ids.len() == 0 {
        return Err(Error::NoIds);
    }
    Ok((ranges, ids))
}

/// Reads the ranges only.
pub fn parse_ranges(bytes: &[u8]) -> (r: Result<Vec<(u64, u64)>, Error>)
    ensures
        match (r, spec_parse_ranges(bytes@)) {
            (Ok(ranges), Ok(rs)) => ranges@ == rs && all_valid(ranges@),
            (Err(e), Err(f)) => e == f,
            _ => false,
        },
{
    let lines = split_lines(bytes);
    let mut ranges: Vec<(u64, u64)> = Vec::new();
    let mut i: usize = 0;
    while i < lines.len()
        invariant
            i <= lines.len(),
            line_views(lines@) == spec_lines(bytes@),
            all_valid(ranges@),
            spec_parse_ranges(bytes@) == spec_leading_ranges(
                spec_lines(bytes@),
                i as int,
                ranges@,
            ),
        decreases lines.len() - i,
    {
        let line = without_cr(lines[i]);
        proof {
            assert(line_views(lines@)[i as int] == lines@[i as int]@);
        }
        if line.len() == 0 {
            if ranges.len() == 0 {
                return Err(Error::NoRanges);
            }
            return Ok(ranges);
        }
        match parse_range(line) {
            Ok(range) => {
                ranges.push(range);
            },
            Err(e) => {
                return Err(e);
            },
        }
        i += 1;
    }
    if ranges.len() == 0 {
        return Err(Error::NoRanges);
    }
    Ok(ranges)
}

/// How many of the numbers lie in some of the separated ranges.
fn count_in(merged: &Vec<(u64, u64)>, ids: &Vec<u64>) -> (count: usize)
    requires
        crate::ranges::separated(merged@),
    ensures
        count == count_fresh(merged@, ids@, ids.len() as int),
{
    let mut count: usize = 0;
    let mut k: usize = 0;
    while k < ids.len()
        invariant
            k <= ids.len(),
            count <= k,
            crate::ranges::separated(merged@),
            count == count_fresh(merged@, ids@, k as int),
        decreases ids.len() - k,
    {
        if is_fresh(ids[k], merged) {
            count += 1;
        }
        k += 1;
    }
    count
}

/// Ranges that cover the same numbers count the same numbers as fresh.
proof fn lemma_count_same(a: Seq<(u64, u64)>, b: Seq<(u64, u64)>, ids: Seq<u64>, k: int)
    requires
        forall|x: int| covered(a, x) <==> covered(b, x),
    ensures
        count_fresh(a, ids, k) == count_fresh(b, ids, k),
    decreases k,
{
    if k > 0 {
        lemma_count_same(a, b, ids, k - 1);
    }
}

/// What holds of the first answer for a text.
pub open spec fn part1_holds(input: &str, r: Result<usize, Error>) -> bool {
    match (r, spec_parse_input(input.spec_bytes())) {
        (Ok(count), Ok((ranges, ids))) => count == count_fresh(ranges, ids, ids.len() as int),
        (Err(e), Err(f)) => e == f,
        _ => false,
    }
}

/// Counts the listed numbers that lie in some range.
pub fn part1(input: &str) -> (r: Result<usize, Error>)
    ensures
        part1_holds(input, r),
{
    match both(input) {
        Ok((fresh, total)) => Ok(fresh),
        Err(e) => Err(e),
    }
}

/// What holds of the second answer for a text.
pub open spec fn part2_holds(input: &str, r: Result<u128, Error>) -> bool {
    match (r, spec_parse_ranges(input.spec_bytes())) {
        (Ok(total), Ok(ranges)) => cover(ranges).finite() && total == cover(ranges).len(),
        (Err(e), Err(f)) => e == f,
        _ => false,
    }
}

/// Counts all numbers that the ranges hold together.
pub fn part2(input: &str) -> (r: Result<u128, Error>)
    ensures
        part2_holds(input, r),
{
    let ranges = match parse_ranges(input.as_bytes()) {
        Ok(ranges) => ranges,
        Err(e) => {
            return Err(e);
        },
    };
    let ghost given = ranges@;
    let merged = merge_ranges(ranges);
    let total = count_covered(&merged);
    proof {
        assert(cover(merged@) =~= cover(given));
    }
    Ok(total)
}

/// What holds of both answers for a text.
pub open spec fn both_holds(input: &str, r: Result<(usize, u128), Error>) -> bool {
    match (r, spec_parse_input(input.spec_bytes())) {
        (Ok((fresh, total)), Ok((ranges, ids))) => fresh == count_fresh(
            ranges,
            ids,
            ids.len() as int,
        ) && cover(ranges).finite() && total == cover(ranges).len(),
        (Err(e), Err(f)) => e == f,
        _ => false,
    }
}

/// Both answers.
pub fn both(input: &str) -> (r: Result<(usize, u128), Error>)
    ensures
        both_holds(input, r),
{
    let (ranges, ids) = match parse_input(input.as_bytes()) {
        Ok(found) => found,
        Err(e) => {
            return Err(e);
        },
    };
    let ghost given = ranges@;
    let merged = merge_ranges(ranges);
    let fresh = count_in(&merged, &ids);
    let total = count_covered(&merged);
    proof {
        lemma_count_same(merged@, given, ids@, ids.len() as int);
        assert(cover(merged@) =~= cover(given));
    }
    Ok((fresh, total))
}

} // verus!
