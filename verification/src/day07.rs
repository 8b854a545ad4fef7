//! Beams that fall through a grid of splitters.
//!
//! One beam starts at `S` and falls down. Where a beam meets a splitter
//! `^` it ends, and one beam goes on from the left and one from the right
//! of the splitter. The first answer counts the splitters that a beam
//! meets, the second the ways through the grid: one, and one more for
//! every way that meets a splitter.

use vstd::prelude::*;
use vstd::string::StringSliceAdditionalSpecFns;
use crate::ascii::CARET;
use crate::lines::{find_byte, first_index, line_views, spec_lines, split_lines, strip_cr, without_cr};

verus! {

/// The byte `S`.
pub const START: u8 = 83;

/// Why a text has no answer.
#[derive(Copy, Clone, Debug, PartialEq, Eq, Structural)]
pub enum Error {
    /// A line is empty.
    EmptyLine,
    /// A line is not as wide as the first.
    WidthMismatch,
    /// More than one line holds a start.
    MultipleStarts,
    /// No line holds a start.
    MissingStart,
    /// A count does not fit in 128 bits.
    Overflow,
}

/// The rows of a grid: its lines without the carriage return at their
/// end.
pub open spec fn spec_rows(s: Seq<u8>) -> Seq<Seq<u8>> {
    Seq::new(spec_lines(s).len(), |i: int| strip_cr(spec_lines(s)[i]))
}

/// The row and column of the start, from the rows from the `i`-th on,
/// when `start` is what the rows before gave.
pub open spec fn spec_start(rows: Seq<Seq<u8>>, i: int, start: Option<(int, int)>) -> Result<
    (int, int),
    Error,
>
    decreases rows.len() - i,
{
    if i < 0 || i >= rows.len() {
        match start {
            Some(at) => Ok(at),
            None => Err(Error::MissingStart),
        }
    } else if rows[i].len() == 0 {
        Err(Error::EmptyLine)
    } else if rows[i].len() != rows[0].len() {
        Err(Error::WidthMismatch)
    } else {
        match first_index(rows[i], START) {
            None => spec_start(rows, i + 1, start),
            Some(col) => if start is Some {
                Err(Error::MultipleStarts)
            } else {
                spec_start(rows, i + 1, Some((i, col)))
            },
        }
    }
}

/// How many beams are in column `c` of the row below, given the beams
/// that enter `line`: those that fall through, and those that the
/// splitters to the right and to the left send over.
pub open spec fn next_count(counts: Seq<int>, line: Seq<u8>, c: int) -> int {
    (if line[c] != CARET { counts[c] } else { 0 }) + (if c > 0 && line[c - 1] == CARET {
        counts[c - 1]
    } else {
        0
    }) + (if c + 1 < counts.len() && line[c + 1] == CARET { counts[c + 1] } else { 0 })
}

/// The beams in every column below a line.
pub open spec fn next_counts(counts: Seq<int>, line: Seq<u8>) -> Seq<int> {
    Seq::new(counts.len(), |c: int| next_count(counts, line, c))
}

/// How many splitters in the first `k` columns of `line` a beam meets.
pub open spec fn hits(counts: Seq<int>, line: Seq<u8>, k: int) -> int
    decreases k,
{
    if k <= 0 {
        0
    } else {
        hits(counts, line, k - 1) + if counts[k - 1] > 0 && line[k - 1] == CARET { 1int } else { 0int }
    }
}

/// How many beams meet a splitter in the first `k` columns of `line`.
pub open spec fn gained(counts: Seq<int>, line: Seq<u8>, k: int) -> int
    decreases k,
{
    if k <= 0 {
        0
    } else {
        gained(counts, line, k - 1) + if line[k - 1] == CARET { counts[k - 1] } else { 0 }
    }
}

/// Whether every count fits in 128 bits.
pub open spec fn all_fit(counts: Seq<int>) -> bool {
    forall|c: int| 0 <= c < counts.len() ==> 0 <= #[trigger] counts[c] <= u128::MAX
}

/// The splitters met and the ways through the rows from the `i`-th on,
/// added to those so far, or nothing if a count on the way does not fit
/// in 128 bits.
pub open spec fn run(rows: Seq<Seq<u8>>, i: int, counts: Seq<int>, splits: int, ways: int) -> Option<
    (int, int),
>
    decreases rows.len() - i,
{
    if i < 0 || i >= rows.len() {
        Some((splits, ways))
    } else {
        let below = next_counts(counts, rows[i]);
        let more_splits = splits + hits(counts, rows[i], counts.len() as int);
        let more_ways = ways + gained(counts, rows[i], counts.len() as int);
        if more_splits > u128::MAX || more_ways > u128::MAX || !all_fit(below) {
            None
        } else {
            run(rows, i + 1, below, more_splits, more_ways)
        }
    }
}

/// One beam in column `col` of `width` columns.
pub open spec fn single_beam(width: int, col: int) -> Seq<int> {
    Seq::new(width as nat, |c: int| if c == col { 1int } else { 0int })
}

/// What the grid of a text gives: the splitters met and the ways through
/// it.
pub open spec fn spec_simulate(s: Seq<u8>) -> Result<(int, int), Error> {
    let rows = spec_rows(s);
    match spec_start(rows, 0, None) {
        Err(e) => Err(e),
        Ok((row, col)) => match run(rows, row + 1, single_beam(rows[0].len() as int, col), 0, 1) {
            None => Err(Error::Overflow),
            Some(found) => Ok(found),
        },
    }
}

/// The counts as mathematical integers.
pub open spec fn as_ints(counts: Seq<u128>) -> Seq<int> {
    Seq::new(counts.len(), |c: int| counts[c] as int)
}

/// Finds the start and checks that the rows are of one width and not
/// empty.
fn find_start(rows: &Vec<&[u8]>) -> (r: Result<(usize, usize), Error>)
    ensures
        match (r, spec_start(line_views(rows@), 0, None)) {
            (Ok((row, col)), Ok((sr, sc))) => row == sr && col == sc && row < rows.len() && col
                < rows[0]@.len() && forall|i: int|
                0 <= i < rows.len() ==> (#[trigger] rows[i])@.len() == rows[0]@.len(),
            (Err(e), Err(f)) => e == f,
            _ => false,
        },
{
    let mut start: Option<(usize, usize)> = None;
    let mut i: usize = 0;
    while i < rows.len()
        invariant
            i <= rows.len(),
            spec_start(line_views(rows@), 0, None) == spec_start(
                line_views(rows@),
                i as int,
                match start {
                    Some((row, col)) => Some((row as int, col as int)),
                    None => None,
                },
            ),
            forall|k: int| 0 <= k < i ==> (#[trigger] rows[k])@.len() == rows[0]@.len(),
            start is Some ==> start.unwrap().0 < i && start.unwrap().1 < rows[0]@.len(),
        decreases rows.len() - i,
    {
        let row = rows[i];
        proof {
            assert(line_views(rows@)[i as int] == rows[i as int]@);
            assert(line_views(rows@)[0] == rows[0]@);
        }
        if row.len() == 0 {
            return Err(Error::EmptyLine);
        }
        if row.len() != rows[0].len() {
            return Err(Error::WidthMismatch);
        }
        match find_byte(row, START) {
            Some(col) => {
                if start.is_some() {
                    return Err(Error::MultipleStarts);
                }
                start = Some((i, col));
            },
            None => {},
        }
        i += 1;
    }
    match start {
        Some(at) => Ok(at),
        None => Err(Error::MissingStart),
    }
}

/// Lets the beams fall through one row. Gives the beams below, and adds
/// the splitters met and the beams that met one to the counts.
fn fall(counts: &Vec<u128>, line: &[u8], splits: u128, ways: u128) -> (r: Option<
    (Vec<u128>, u128, u128),
>)
    requires
        line@.len() == counts.len(),
    ensures
        match r {
            Some((below, more_splits, more_ways)) => {
                &&& as_ints(below@) == next_counts(as_ints(counts@), line@)
                &&& more_splits == splits + hits(as_ints(counts@), line@, counts.len() as int)
                &&& more_ways == ways + gained(as_ints(counts@), line@, counts.len() as int)
            },
            None => splits + hits(as_ints(counts@), line@, counts.len() as int) > u128::MAX || ways
                + gained(as_ints(counts@), line@, counts.len() as int) > u128::MAX || !all_fit(
                next_counts(as_ints(counts@), line@),
            ),
        },
{
    let width: usize = counts.len();
    let mut below: Vec<u128> = Vec::new();
    let mut more_splits: u128 = splits;
    let mut more_ways: u128 = ways;
    let ghost ints = as_ints(counts@);
    let mut c: usize = 0;
    while c < width
        invariant
            c <= width,
            width == counts.len(),
            line@.len() == width,
            ints == as_ints(counts@),
            below.len() == c,
            forall|k: int| 0 <= k < c ==> below[k] == next_count(ints, line@, k),
            more_splits == splits + hits(ints, line@, c as int),
            more_ways == ways + gained(ints, line@, c as int),
        decreases width - c,
    {
        let here: u128 = counts[c];
        proof {
            assert(ints[c as int] == here);
            lemma_sums_grow(ints, line@, c as int + 1, width as int);
        }
        let mut sum: u128 = 0;
        if line[c] == CARET {
            if here > 0 {
                if more_splits == u128::MAX {
                    return None;
                }
                more_splits += 1;
            }
            if here > u128::MAX - more_ways {
                return None;
            }
            more_ways += here;
        } else {
            sum = here;
        }
        if c > 0 && line[c - 1] == CARET {
            let left: u128 = counts[c - 1];
            proof {
                assert(ints[c - 1] == left);
            }
            if left > u128::MAX - sum {
                proof {
                    assert(next_counts(ints, line@)[c as int] > u128::MAX);
                }
                return None;
            }
            sum += left;
        }
        if c + 1 < width && line[c + 1] == CARET {
            let right: u128 = counts[c + 1];
            proof {
                assert(ints[c + 1] == right);
            }
            if right > u128::MAX - sum {
                proof {
                    assert(next_counts(ints, line@)[c as int] > u128::MAX);
                }
                return None;
            }
            sum += right;
        }
        below.push(sum);
        c += 1;
    }
    proof {
        assert(as_ints(below@) =~= next_counts(ints, line@));
    }
    Some((below, more_splits, more_ways))
}

/// The sums over more columns are no smaller.
proof fn lemma_sums_grow(counts: Seq<int>, line: Seq<u8>, k: int, upto: int)
    requires
        0 <= k <= upto <= counts.len(),
        forall|c: int| 0 <= c < counts.len() ==> 0 <= #[trigger] counts[c],
    ensures
        0 <= hits(counts, line, k) <= hits(counts, line, upto),
        0 <= gained(counts, line, k) <= gained(counts, line, upto),
    decreases upto,
{
    if k < upto {
        lemma_sums_grow(counts, line, k, upto - 1);
    } else if k > 0 {
        lemma_sums_grow(counts, line, k - 1, upto - 1);
    }
}

/// Lets one beam fall from the start through the rows of the grid.
pub fn simulate(bytes: &[u8]) -> (r: Result<(u128, u128), Error>)
    ensures
        match (r, spec_simulate(bytes@)) {
            (Ok((splits, ways)), Ok((s, w))) => splits == s && ways == w,
            (Err(e), Err(f)) => e == f,
            _ => false,
        },
{
    let lines = split_lines(bytes);
    let mut rows: Vec<&[u8]> = Vec::new();
    let mut i: usize = 0;
    while i < lines.len()
        invariant
            i <= lines.len(),
            rows.len() == i,
            line_views(lines@) == spec_lines(bytes@),
            forall|k: int| 0 <= k < i ==> (#[trigger] rows[k])@ == strip_cr(spec_lines(bytes@)[k]),
        decreases lines.len() - i,
    {
        proof {
            assert(line_views(lines@)[i as int] == lines[i as int]@);
        }
        rows.push(without_cr(lines[i]));
        i += 1;
    }
    proof {
        assert(line_views(rows@) =~= spec_rows(bytes@));
    }
    let (start_row, start_col) = match find_start(&rows) {
        Ok(at) => at,
        Err(e) => {
            return Err(e);
        },
    };
    let width: usize = rows[0].len();
    let mut counts: Vec<u128> = Vec::new();
    let mut c: usize = 0;
    while c < width
        invariant
            c <= width,
            counts.len() == c,
            start_col < width,
            forall|k: int| 0 <= k < c ==> counts[k] == if k == start_col { 1u128 } else { 0u128 },
        decreases width - c,
    {
        counts.push(if c == start_col { 1 } else { 0 });
        c += 1;
    }
    proof {
        assert(as_ints(counts@) =~= single_beam(width as int, start_col as int));
    }
    let mut splits: u128 = 0;
    let mut ways: u128 = 1;
    let mut row: usize = start_row + 1;
    let ghost grid = line_views(rows@);
    while row < rows.len()
        invariant
            start_row < row <= rows.len(),
            counts.len() == width,
            grid == line_views(rows@),
            grid == spec_rows(bytes@),
            width == grid[0].len(),
            spec_start(grid, 0, None) == Ok::<(int, int), Error>((start_row as int, start_col as int)),
            forall|k: int| 0 <= k < rows.len() ==> (#[trigger] rows[k])@.len() == width,
            run(grid, start_row + 1, single_beam(width as int, start_col as int), 0, 1) == run(
                grid,
                row as int,
                as_ints(counts@),
                splits as int,
                ways as int,
            ),
        decreases rows.len() - row,
    {
        proof {
            assert(grid[row as int] == rows[row as int]@);
            assert(as_ints(counts@).len() == width);
        }
        match fall(&counts, rows[row], splits, ways) {
            Some((below, more_splits, more_ways)) => {
                proof {
                    assert(all_fit(as_ints(below@)));
                }
                counts = below;
                splits = more_splits;
                ways = more_ways;
            },
            None => {
                return Err(Error::Overflow);
            },
        }
        row += 1;
    }
    Ok((splits, ways))
}

/// What holds of the first answer for a text.
pub open spec fn part1_holds(input: &str, r: Result<u128, Error>) -> bool {
    match (r, spec_simulate(input.spec_bytes())) {
        (Ok(splits), Ok((s, w))) => splits == s,
        (Err(e), Err(f)) => e == f,
        _ => false,
    }
}

/// Counts the splitters that a beam meets.
pub fn part1(input: &str) -> (r: Result<u128, Error>)
    ensures
        part1_holds(input, r),
{
    match simulate(input.as_bytes()) {
        Ok((splits, ways)) => Ok(splits),
        Err(e) => Err(e),
    }
}

/// What holds of the second answer for a text.
pub open spec fn part2_holds(input: &str, r: Result<u128, Error>) -> bool {
    match (r, spec_simulate(input.spec_bytes())) {
        (Ok(ways), Ok((s, w))) => ways == w,
        (Err(e), Err(f)) => e == f,
        _ => false,
    }
}

/// Counts the ways through the grid.
pub fn part2(input: &str) -> (r: Result<u128, Error>)
    ensures
        part2_holds(input, r),
{
    match simulate(input.as_bytes()) {
        Ok((splits, ways)) => Ok(ways),
        Err(e) => Err(e),
    }
}

/// What holds of both answers for a text.
pub open spec fn both_holds(input: &str, r: Result<(u128, u128), Error>) -> bool {
    match (r, spec_simulate(input.spec_bytes())) {
        (Ok((splits, ways)), Ok((s, w))) => splits == s && ways == w,
        (Err(e), Err(f)) => e == f,
        _ => false,
    }
}

/// Both answers.
pub fn both(input: &str) -> (r: Result<(u128, u128), Error>)
    ensures
        both_holds(input, r),
{
    simulate(input.as_bytes())
}

} // verus!
