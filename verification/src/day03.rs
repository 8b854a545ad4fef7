//! The largest number that a row of digits holds.
//!
//! From each line of digits some are picked, in their order, so that they
//! spell the largest number possible: two digits for the first answer,
//! twelve for the second. Each answer adds up the numbers of all lines.

use vstd::prelude::*;
use vstd::string::StringSliceAdditionalSpecFns;
use crate::ascii::{digit, is_digit};
use crate::lines::{
    line_views, parse_number, spec_lines, spec_number, split_lines, strip_cr, without_cr,
};

verus! {

/// How many digits the first answer picks from a line.
pub const PART1_DIGITS: usize = 2;

/// How many digits the second answer picks from a line.
pub const PART2_DIGITS: usize = 12;

/// Why a text has no answer.
#[derive(Copy, Clone, Debug, PartialEq, Eq, Structural)]
pub enum Error {
    /// A line holds fewer digits than are to be picked.
    TooShort,
    /// This byte is no digit.
    NonDigit(u8),
    /// A number does not fit in 64 bits.
    Overflow,
}

/// The positions rise from each to the next.
pub open spec fn increasing(idx: Seq<int>) -> bool {
    forall|i: int, j: int| 0 <= i < j < idx.len() ==> idx[i] < idx[j]
}

/// `picked` can be had from `line` by leaving bytes out, without using
/// the bytes before `start`.
pub open spec fn is_subsequence(picked: Seq<u8>, line: Seq<u8>, start: int) -> bool {
    exists|idx: Seq<int>| #[trigger] picks(idx, picked, line, start)
}

/// `idx` holds the positions in `line` of the bytes of `picked`.
pub open spec fn picks(idx: Seq<int>, picked: Seq<u8>, line: Seq<u8>, start: int) -> bool {
    &&& idx.len() == picked.len()
    &&& increasing(idx)
    &&& forall|j: int|
        0 <= j < idx.len() ==> start <= #[trigger] idx[j] < line.len() && line[idx[j]] == picked[j]
}

/// `a` spells no larger a number than `b`, both of the same length.
pub open spec fn lex_le(a: Seq<u8>, b: Seq<u8>) -> bool
    decreases a.len(),
{
    if a.len() == 0 || b.len() == 0 {
        true
    } else {
        a[0] < b[0] || (a[0] == b[0] && lex_le(a.drop_first(), b.drop_first()))
    }
}

/// `picked` holds `k` bytes of `line` in their order, and no other `k`
/// bytes of `line` spell a larger number.
pub open spec fn is_best(picked: Seq<u8>, line: Seq<u8>, k: int) -> bool {
    &&& picked.len() == k
    &&& is_subsequence(picked, line, 0)
    &&& forall|other: Seq<u8>|
        other.len() == k && #[trigger] is_subsequence(other, line, 0) ==> lex_le(other, picked)
}

/// `i` is the first position between `lo` and `hi` that holds the
/// largest byte found there.
pub open spec fn is_leftmost_max(line: Seq<u8>, lo: int, hi: int, i: int) -> bool {
    &&& lo <= i <= hi
    &&& forall|j: int| lo <= j <= hi ==> line[j] <= line[i]
    &&& forall|j: int| lo <= j < i ==> line[j] < line[i]
}

/// The first position between `lo` and `hi` that holds the largest byte
/// found there.
pub open spec fn leftmost_max(line: Seq<u8>, lo: int, hi: int) -> int {
    choose|i: int| is_leftmost_max(line, lo, hi, i)
}

/// The pick of `k` bytes from `start` on that takes the largest byte it
/// can each time, and the first of several: one that leaves enough bytes
/// for the rest of the pick.
pub open spec fn greedy(line: Seq<u8>, start: int, k: int) -> Seq<u8>
    decreases k,
{
    if k <= 0 {
        Seq::empty()
    } else {
        let i = leftmost_max(line, start, line.len() - k);
        seq![line[i]] + greedy(line, i + 1, k - 1)
    }
}

/// The best pick of `k` bytes.
pub open spec fn best_pick(line: Seq<u8>, k: int) -> Seq<u8> {
    greedy(line, 0, k)
}

proof fn lemma_leftmost_max_exists(line: Seq<u8>, lo: int, hi: int) -> (i: int)
    requires
        0 <= lo <= hi < line.len(),
    ensures
        is_leftmost_max(line, lo, hi, i),
        leftmost_max(line, lo, hi) == i,
    decreases hi - lo,
{
    let i = if lo == hi {
        lo
    } else {
        let earlier = lemma_leftmost_max_exists(line, lo, hi - 1);
        if line[hi] > line[earlier] {
            hi
        } else {
            earlier
        }
    };
    assert(is_leftmost_max(line, lo, hi, i));
    let other = leftmost_max(line, lo, hi);
    assert(is_leftmost_max(line, lo, hi, other));
    if other < i {
        assert(line[other] < line[i]);
    }
    if i < other {
        assert(line[i] < line[other]);
    }
    i
}

proof fn lemma_increasing_gap(idx: Seq<int>, j: int)
    requires
        increasing(idx),
        0 <= j < idx.len(),
    ensures
        idx[0] + j <= idx[j],
    decreases j,
{
    if j > 0 {
        lemma_increasing_gap(idx, j - 1);
    }
}

/// The greedy pick is a pick, and no pick spells a larger number.
pub proof fn lemma_greedy(line: Seq<u8>, start: int, k: int)
    requires
        0 <= start,
        0 <= k,
        start + k <= line.len(),
    ensures
        greedy(line, start, k).len() == k,
        is_subsequence(greedy(line, start, k), line, start),
        forall|other: Seq<u8>|
            other.len() == k && #[trigger] is_subsequence(other, line, start) ==> lex_le(
                other,
                greedy(line, start, k),
            ),
    decreases k,
{
    let best = greedy(line, start, k);
    if k == 0 {
        assert(picks(Seq::<int>::empty(), best, line, start));
    } else {
        let i = lemma_leftmost_max_exists(line, start, line.len() - k);
        lemma_greedy(line, i + 1, k - 1);
        let rest = greedy(line, i + 1, k - 1);
        assert(best.drop_first() =~= rest);
        let rest_idx = choose|idx: Seq<int>| #[trigger] picks(idx, rest, line, i + 1);
        let idx = seq![i] + rest_idx;
        assert(picks(idx, best, line, start)) by {
            assert forall|a: int, b: int| 0 <= a < b < idx.len() implies idx[a] < idx[b] by {
                if a == 0 {
                    assert(idx[b] == rest_idx[b - 1]);
                } else {
                    assert(idx[a] == rest_idx[a - 1]);
                    assert(idx[b] == rest_idx[b - 1]);
                }
            }
            assert forall|j: int| 0 <= j < idx.len() implies start <= #[trigger] idx[j]
                < line.len() && line[idx[j]] == best[j] by {
                if j > 0 {
                    assert(idx[j] == rest_idx[j - 1]);
                    assert(best[j] == rest[j - 1]);
                }
            }
        }
        assert forall|other: Seq<u8>|
            other.len() == k && #[trigger] is_subsequence(other, line, start) implies lex_le(
            other,
            best,
        ) by {
            let at = choose|at: Seq<int>| #[trigger] picks(at, other, line, start);
            lemma_increasing_gap(at, k - 1);
            assert(start <= at[0] <= line.len() - k);
            assert(other[0] == line[at[0]]);
            if other[0] == best[0] {
                if at[0] < i {
                    assert(line[at[0]] < line[i]);
                }
                let tail = at.drop_first();
                assert(picks(tail, other.drop_first(), line, i + 1)) by {
                    assert forall|j: int| 0 <= j < tail.len() implies i + 1 <= #[trigger] tail[j]
                        < line.len() && line[tail[j]] == other.drop_first()[j] by {
                        assert(tail[j] == at[j + 1]);
                        assert(at[0] < at[j + 1]);
                    }
                    assert forall|a: int, b: int| 0 <= a < b < tail.len() implies tail[a]
                        < tail[b] by {
                        assert(at[a + 1] < at[b + 1]);
                    }
                }
                assert(is_subsequence(other.drop_first(), line, i + 1));
            }
        }
    }
}

/// The best pick is the greedy pick.
pub proof fn lemma_best_pick(line: Seq<u8>, k: int)
    requires
        0 <= k <= line.len(),
    ensures
        is_best(best_pick(line, k), line, k),
{
    lemma_greedy(line, 0, k);
}

/// The first byte of a line that is no digit, if it has one.
pub open spec fn first_non_digit(line: Seq<u8>, i: int) -> Option<u8>
    decreases line.len() - i,
{
    if i < 0 || i >= line.len() {
        None
    } else if !is_digit(line[i]) {
        Some(line[i])
    } else {
        first_non_digit(line, i + 1)
    }
}

/// The largest number that `pick` digits of a line spell.
pub open spec fn spec_line(line: Seq<u8>, pick: int) -> Result<int, Error> {
    if line.len() < pick {
        Err(Error::TooShort)
    } else {
        match first_non_digit(line, 0) {
            Some(b) => Err(Error::NonDigit(b)),
            None => if pick <= 0 {
                Ok(0)
            } else {
                match spec_number(best_pick(line, pick)) {
                    Ok(value) => Ok(value),
                    Err(_) => Err(Error::Overflow),
                }
            },
        }
    }
}

/// The numbers of the lines from the `i`-th on, added to `acc`. Empty
/// lines are passed over.
pub open spec fn spec_total(lines: Seq<Seq<u8>>, pick: int, i: int, acc: int) -> Result<int, Error>
    decreases lines.len() - i,
{
    if i < 0 || i >= lines.len() {
        Ok(acc)
    } else if strip_cr(lines[i]).len() == 0 {
        spec_total(lines, pick, i + 1, acc)
    } else {
        match spec_line(strip_cr(lines[i]), pick) {
            Err(e) => Err(e),
            Ok(value) => if acc + value > u64::MAX {
                Err(Error::Overflow)
            } else {
                spec_total(lines, pick, i + 1, acc + value)
            },
        }
    }
}

/// The answer for a text.
pub open spec fn spec_solve(s: Seq<u8>, pick: int) -> Result<int, Error> {
    spec_total(spec_lines(s), pick, 0, 0)
}

/// The first position between `lo` and `hi` that holds the largest byte
/// found there.
fn find_leftmost_max(line: &[u8], lo: usize, hi: usize) -> (i: usize)
    requires
        lo <= hi < line.len(),
    ensures
        i == leftmost_max(line@, lo as int, hi as int),
        lo <= i <= hi,
{
    let mut best: usize = lo;
    let mut j: usize = lo + 1;
    while j <= hi
        invariant
            lo < j <= hi + 1,
            hi < line.len(),
            is_leftmost_max(line@, lo as int, j - 1, best as int),
        decreases hi + 1 - j,
    {
        if line[j] > line[best] {
            best = j;
        }
        j += 1;
    }
    proof {
        lemma_leftmost_max_exists(line@, lo as int, hi as int);
        let other = leftmost_max(line@, lo as int, hi as int);
        if other < best {
            assert(line@[other] < line@[best as int]);
        }
        if best < other {
            assert(line@[best as int] < line@[other]);
        }
    }
    best
}

/// The largest number that `pick` digits of a line spell.
pub fn max_number_from_line_pick(line: &[u8], pick: usize) -> (r: Result<u64, Error>)
    ensures
        match (r, spec_line(line@, pick as int)) {
            (Ok(value), Ok(v)) => value == v,
            (Err(e), Err(f)) => e == f,
            _ => false,
        },
{
    let len: usize = line.len();
    if len < pick {
        return Err(Error::TooShort);
    }
    let mut i: usize = 0;
    while i < len
        invariant
            i <= len,
            len == line.len(),
            pick <= len,
            first_non_digit(line@, 0) == first_non_digit(line@, i as int),
        decreases len - i,
    {
        if !digit(line[i]) {
            return Err(Error::NonDigit(line[i]));
        }
        i += 1;
    }
    if pick == 0 {
        return Ok(0);
    }
    let mut picked: Vec<u8> = Vec::new();
    let mut start: usize = 0;
    let mut left: usize = pick;
    while left > 0
        invariant
            left <= pick <= len,
            len == line.len(),
            start + left <= len,
            picked.len() + left == pick,
            best_pick(line@, pick as int) == picked@ + greedy(line@, start as int, left as int),
        decreases left,
    {
        let at = find_leftmost_max(line, start, len - left);
        let ghost before = picked@;
        picked.push(line[at]);
        proof {
            assert(picked@ + greedy(line@, at + 1, left - 1) =~= before + greedy(
                line@,
                start as int,
                left as int,
            ));
        }
        start = at + 1;
        left -= 1;
    }
    proof {
        assert(picked@ + greedy(line@, start as int, 0) =~= picked@);
    }
    match parse_number(picked.as_slice()) {
        Ok(value) => Ok(value),
        Err(_) => Err(Error::Overflow),
    }
}

/// Adds up the largest numbers that `pick` digits of each line spell.
pub fn solve_single_pick(input: &str, pick: usize) -> (r: Result<u64, Error>)
    ensures
        match (r, spec_solve(input.spec_bytes(), pick as int)) {
            (Ok(total), Ok(t)) => total == t,
            (Err(e), Err(f)) => e == f,
            _ => false,
        },
{
    let bytes = input.as_bytes();
    let lines = split_lines(bytes);
    let mut total: u64 = 0;
    let mut i: usize = 0;
    while i < lines.len()
        invariant
            i <= lines.len(),
            line_views(lines@) == spec_lines(bytes@),
            bytes@ == input.spec_bytes(),
            spec_solve(bytes@, pick as int) == spec_total(
                spec_lines(bytes@),
                pick as int,
                i as int,
                total as int,
            ),
        decreases lines.len() - i,
    {
        proof {
            assert(line_views(lines@)[i as int] == lines[i as int]@);
        }
        let line = without_cr(lines[i]);
        if line.len() > 0 {
            let value = match max_number_from_line_pick(line, pick) {
                Ok(value) => value,
                Err(e) => {
                    return Err(e);
                },
            };
            total = match total.checked_add(value) {
                Some(sum) => sum,
                None => {
                    return Err(Error::Overflow);
                },
            };
        }
        i += 1;
    }
    Ok(total)
}

/// What holds of the first answer for a text.
pub open spec fn part1_holds(input: &str, r: Result<u64, Error>) -> bool {
    match (r, spec_solve(input.spec_bytes(), PART1_DIGITS as int)) {
        (Ok(total), Ok(t)) => total == t,
        (Err(e), Err(f)) => e == f,
        _ => false,
    }
}

/// Adds up the largest numbers that two digits of each line spell.
pub fn part1(input: &str) -> (r: Result<u64, Error>)
    ensures
        part1_holds(input, r),
{
    solve_single_pick(input, PART1_DIGITS)
}

/// What holds of the second answer for a text.
pub open spec fn part2_holds(input: &str, r: Result<u64, Error>) -> bool {
    match (r, spec_solve(input.spec_bytes(), PART2_DIGITS as int)) {
        (Ok(total), Ok(t)) => total == t,
        (Err(e), Err(f)) => e == f,
        _ => false,
    }
}

/// Adds up the largest numbers that twelve digits of each line spell.
pub fn part2(input: &str) -> (r: Result<u64, Error>)
    ensures
        part2_holds(input, r),
{
    solve_single_pick(input, PART2_DIGITS)
}

/// What holds of both answers for a text.
pub open spec fn both_holds(input: &str, r: Result<(u64, u64), Error>) -> bool {
    match r {
        Ok((first, second)) => spec_solve(input.spec_bytes(), PART1_DIGITS as int) == Ok::<
            int,
            Error,
        >(first as int) && spec_solve(input.spec_bytes(), PART2_DIGITS as int) == Ok::<
            int,
            Error,
        >(second as int),
        Err(e) => spec_solve(input.spec_bytes(), PART2_DIGITS as int) == Err::<int, Error>(e) || (
        spec_solve(input.spec_bytes(), PART2_DIGITS as int) is Ok && spec_solve(
            input.spec_bytes(),
            PART1_DIGITS as int,
        ) == Err::<int, Error>(e)),
    }
}

/// Both answers. A fault that the second answer meets is reported where
/// both have one.
pub fn both(input: &str) -> (r: Result<(u64, u64), Error>)
    ensures
        both_holds(input, r),
{
    let second = match part2(input) {
        Ok(total) => total,
        Err(e) => {
            return Err(e);
        },
    };
    let first = match part1(input) {
        Ok(total) => total,
        Err(e) => {
            return Err(e);
        },
    };
    Ok((first, second))
}

} // verus!
