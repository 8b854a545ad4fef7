//! Sums and products written in columns.
//!
//! The problems stand side by side, with a column of blanks between them.
//! The last row holds the sign of each problem, `+` or `*`. For the first
//! answer each row above holds one number of the problem. For the second
//! answer each column holds one number, its digits from top to bottom,
//! and the columns are read from the right. Each answer adds up the
//! results of the problems.

use vstd::prelude::*;
use vstd::string::StringSliceAdditionalSpecFns;
use crate::ascii::{digit, is_digit, CR, PLUS, SPACE, STAR, ZERO};
use crate::lines::{line_views, spec_lines, split_lines};

verus! {

/// Why a text has no answer.
#[derive(Copy, Clone, Debug, PartialEq, Eq, Structural)]
pub enum Error {
    /// Fewer than two rows.
    TooFewRows,
    /// Every row is empty.
    Empty,
    /// Every column is blank.
    NoProblems,
    /// A problem has more than one sign.
    MultipleOperators,
    /// A problem has no sign.
    MissingOperator,
    /// The sign of a problem is this byte, which is neither `+` nor `*`.
    BadOperator(u8),
    /// A row holds no number for a problem.
    MissingNumber,
    /// This byte stands where a digit should.
    NonDigit(u8),
    /// A number does not fit in 128 bits.
    Overflow,
}

/// A line without the carriage returns at its end.
pub open spec fn trimmed(line: Seq<u8>) -> Seq<u8>
    decreases line.len(),
{
    if line.len() > 0 && line.last() == CR {
        trimmed(line.drop_last())
    } else {
        line
    }
}

/// The rows of a text.
pub open spec fn spec_rows(s: Seq<u8>) -> Seq<Seq<u8>> {
    Seq::new(spec_lines(s).len(), |i: int| trimmed(spec_lines(s)[i]))
}

/// The byte in a column of a row; a blank where the row is too short.
pub open spec fn char_at(line: Seq<u8>, col: int) -> u8 {
    if 0 <= col < line.len() {
        line[col]
    } else {
        SPACE
    }
}

/// The width of the widest of the first `k` rows.
pub open spec fn max_width(rows: Seq<Seq<u8>>, k: int) -> int
    decreases k,
{
    if k <= 0 {
        0
    } else if rows[k - 1].len() > max_width(rows, k - 1) {
        rows[k - 1].len() as int
    } else {
        max_width(rows, k - 1)
    }
}

/// Every row has a blank in this column.
pub open spec fn is_blank_col(rows: Seq<Seq<u8>>, col: int) -> bool {
    forall|r: int| 0 <= r < rows.len() ==> char_at(#[trigger] rows[r], col) == SPACE
}

/// The runs of columns that are not blank, from column `col` on, after
/// those in `acc`. `start` is where the run that is open began, or -1.
pub open spec fn spec_segments(
    rows: Seq<Seq<u8>>,
    width: int,
    col: int,
    start: int,
    acc: Seq<(int, int)>,
) -> Seq<(int, int)>
    decreases width - col,
{
    if col < 0 || col >= width {
        if start >= 0 {
            acc.push((start, width))
        } else {
            acc
        }
    } else if is_blank_col(rows, col) {
        if start >= 0 {
            spec_segments(rows, width, col + 1, -1, acc.push((start, col)))
        } else {
            spec_segments(rows, width, col + 1, -1, acc)
        }
    } else if start >= 0 {
        spec_segments(rows, width, col + 1, start, acc)
    } else {
        spec_segments(rows, width, col + 1, col, acc)
    }
}

/// The sign in the columns from `col` to `end` of the last row, when
/// `found` is what the columns before gave.
pub open spec fn spec_operator(line: Seq<u8>, col: int, end: int, found: Option<u8>) -> Result<
    u8,
    Error,
>
    decreases end - col,
{
    if col >= end {
        match found {
            None => Err(Error::MissingOperator),
            Some(op) => if op == PLUS || op == STAR {
                Ok(op)
            } else {
                Err(Error::BadOperator(op))
            },
        }
    } else if char_at(line, col) == SPACE {
        spec_operator(line, col + 1, end, found)
    } else if found is Some {
        Err(Error::MultipleOperators)
    } else {
        spec_operator(line, col + 1, end, Some(char_at(line, col)))
    }
}

/// The number that the digits in the columns from `col` to `end` spell
/// after those that gave `acc`.
pub open spec fn spec_digits(line: Seq<u8>, col: int, end: int, acc: int) -> Result<int, Error>
    decreases end - col,
{
    if col >= end {
        Ok(acc)
    } else if !is_digit(char_at(line, col)) {
        Err(Error::NonDigit(char_at(line, col)))
    } else if acc * 10 + (char_at(line, col) - ZERO) > u128::MAX {
        Err(Error::Overflow)
    } else {
        spec_digits(line, col + 1, end, acc * 10 + (char_at(line, col) - ZERO))
    }
}

/// The first column from `col` on and before `end` that is not blank in
/// the row, or `end`.
pub open spec fn skip_blanks(line: Seq<u8>, col: int, end: int) -> int
    decreases end - col,
{
    if col < end && char_at(line, col) == SPACE {
        skip_blanks(line, col + 1, end)
    } else {
        col
    }
}

/// The column after the last one before `end` and from `from` on that is
/// not blank in the row, or `from`.
pub open spec fn skip_blanks_back(line: Seq<u8>, from: int, end: int) -> int
    decreases end - from,
{
    if end > from && char_at(line, end - 1) == SPACE {
        skip_blanks_back(line, from, end - 1)
    } else {
        end
    }
}

/// The number that a row holds in the columns from `start` to `end`, with
/// blanks before and after it.
pub open spec fn spec_row_number(line: Seq<u8>, start: int, end: int) -> Result<int, Error> {
    let lo = skip_blanks(line, start, end);
    let hi = skip_blanks_back(line, lo, end);
    if lo >= hi {
        Err(Error::MissingNumber)
    } else {
        spec_digits(line, lo, hi, 0)
    }
}

/// The number that a column holds in the rows from `r` to `end`, its
/// digits from top to bottom with blanks passed over, after the digits
/// that gave `acc`: nothing if the column holds no digit.
pub open spec fn spec_col_number(
    rows: Seq<Seq<u8>>,
    col: int,
    r: int,
    end: int,
    acc: int,
    found: bool,
) -> Result<Option<int>, Error>
    decreases end - r,
{
    if r >= end {
        if found {
            Ok(Some(acc))
        } else {
            Ok(None)
        }
    } else if char_at(rows[r], col) == SPACE {
        spec_col_number(rows, col, r + 1, end, acc, found)
    } else if !is_digit(char_at(rows[r], col)) {
        Err(Error::NonDigit(char_at(rows[r], col)))
    } else if acc * 10 + (char_at(rows[r], col) - ZERO) > u128::MAX {
        Err(Error::Overflow)
    } else {
        spec_col_number(rows, col, r + 1, end, acc * 10 + (char_at(rows[r], col) - ZERO), true)
    }
}

/// What a sign makes of two numbers, if it fits in 128 bits.
pub open spec fn apply(op: u8, acc: int, value: int) -> Result<int, Error> {
    let result = if op == PLUS { acc + value } else { acc * value };
    if result > u128::MAX {
        Err(Error::Overflow)
    } else {
        Ok(result)
    }
}

/// Where a sum or a product starts.
pub open spec fn unit(op: u8) -> int {
    if op == PLUS {
        0
    } else {
        1
    }
}

/// The result of a problem read by rows, from row `r` on, when the rows
/// before gave `acc`.
pub open spec fn by_rows(
    rows: Seq<Seq<u8>>,
    start: int,
    end: int,
    op: u8,
    r: int,
    acc: int,
) -> Result<int, Error>
    decreases rows.len() - 1 - r,
{
    if r >= rows.len() - 1 {
        Ok(acc)
    } else {
        match spec_row_number(rows[r], start, end) {
            Err(e) => Err(e),
            Ok(value) => match apply(op, acc, value) {
                Err(e) => Err(e),
                Ok(next) => by_rows(rows, start, end, op, r + 1, next),
            },
        }
    }
}

/// The result of a problem read by columns, from the column before `col`
/// down to column `start`, when the columns to the right gave `acc`.
pub open spec fn by_cols(rows: Seq<Seq<u8>>, start: int, op: u8, col: int, acc: int) -> Result<
    int,
    Error,
>
    decreases col - start,
{
    if col <= start {
        Ok(acc)
    } else {
        match spec_col_number(rows, col - 1, 0, rows.len() - 1, 0, false) {
            Err(e) => Err(e),
            Ok(None) => by_cols(rows, start, op, col - 1, acc),
            Ok(Some(value)) => match apply(op, acc, value) {
                Err(e) => Err(e),
                Ok(next) => by_cols(rows, start, op, col - 1, next),
            },
        }
    }
}

/// Both results of one problem.
pub open spec fn spec_problem(rows: Seq<Seq<u8>>, start: int, end: int) -> Result<(int, int), Error> {
    match spec_operator(rows[rows.len() - 1], start, end, None) {
        Err(e) => Err(e),
        Ok(op) => match by_rows(rows, start, end, op, 0, unit(op)) {
            Err(e) => Err(e),
            Ok(first) => match by_cols(rows, start, op, end, unit(op)) {
                Err(e) => Err(e),
                Ok(second) => Ok((first, second)),
            },
        },
    }
}

/// Both totals over the problems from the `k`-th on, added to the
/// totals so far.
pub open spec fn spec_totals(
    rows: Seq<Seq<u8>>,
    segments: Seq<(int, int)>,
    k: int,
    first: int,
    second: int,
) -> Result<(int, int), Error>
    decreases segments.len() - k,
{
    if k < 0 || k >= segments.len() {
        Ok((first, second))
    } else {
        match spec_problem(rows, segments[k].0, segments[k].1) {
            Err(e) => Err(e),
            Ok((by_row, by_col)) => if first + by_row > u128::MAX || second + by_col > u128::MAX {
                Err(Error::Overflow)
            } else {
                spec_totals(rows, segments, k + 1, first + by_row, second + by_col)
            },
        }
    }
}

/// Both answers for a text.
pub open spec fn spec_both(s: Seq<u8>) -> Result<(int, int), Error> {
    let rows = spec_rows(s);
    if rows.len() < 2 {
        Err(Error::TooFewRows)
    } else {
        let width = max_width(rows, rows.len() as int);
        if width == 0 {
            Err(Error::Empty)
        } else {
            let segments = spec_segments(rows, width, 0, -1, Seq::empty());
            if segments.len() == 0 {
                Err(Error::NoProblems)
            } else {
                spec_totals(rows, segments, 0, 0, 0)
            }
        }
    }
}

/// Takes the carriage returns off the end of a line.
fn trim_line<'a>(line: &'a [u8]) -> (r: &'a [u8])
    ensures
        r@ == trimmed(line@),
{
    let mut end: usize = line.len();
    proof {
        assert(line@.subrange(0, end as int) =~= line@);
    }
    while end > 0 && line[end - 1] == CR
        invariant
            end <= line.len(),
            trimmed(line@) == trimmed(line@.subrange(0, end as int)),
        decreases end,
    {
        proof {
            assert(line@.subrange(0, end as int).drop_last() =~= line@.subrange(0, end as int - 1));
        }
        end -= 1;
    }
    let r = &line[0..end];
    r
}

/// The byte in a column of a row; a blank where the row is too short.
fn byte_at(line: &[u8], col: usize) -> (b: u8)
    ensures
        b == char_at(line@, col as int),
{
    if col < line.len() {
        line[col]
    } else {
        SPACE
    }
}

/// Whether every row has a blank in this column.
fn blank_col(rows: &Vec<&[u8]>, col: usize) -> (r: bool)
    ensures
        r == is_blank_col(line_views(rows@), col as int),
{
    let mut r: usize = 0;
    while r < rows.len()
        invariant
            r <= rows.len(),
            forall|k: int| 0 <= k < r ==> char_at(#[trigger] line_views(rows@)[k], col as int) == SPACE,
        decreases rows.len() - r,
    {
        proof {
            assert(line_views(rows@)[r as int] == rows[r as int]@);
        }
        if byte_at(rows[r], col) != SPACE {
            return false;
        }
        r += 1;
    }
    true
}

/// The runs of columns that are not blank.
pub fn find_segments(rows: &Vec<&[u8]>, width: usize) -> (segments: Vec<(usize, usize)>)
    ensures
        as_pairs(segments@) == spec_segments(
            line_views(rows@),
            width as int,
            0,
            -1,
            Seq::empty(),
        ),
        forall|k: int|
            0 <= k < segments.len() ==> (#[trigger] segments[k]).0 < segments[k].1 <= width,
{
    let mut segments: Vec<(usize, usize)> = Vec::new();
    let mut in_segment = false;
    let mut start: usize = 0;
    let mut col: usize = 0;
    proof {
        assert(as_pairs(segments@) =~= Seq::<(int, int)>::empty());
    }
    while col < width
        invariant
            col <= width,
            in_segment ==> start < col,
            forall|k: int|
                0 <= k < segments.len() ==> (#[trigger] segments[k]).0 < segments[k].1 <= width,
            spec_segments(line_views(rows@), width as int, 0, -1, Seq::empty()) == spec_segments(
                line_views(rows@),
                width as int,
                col as int,
                if in_segment { start as int } else { -1 },
                as_pairs(segments@),
            ),
        decreases width - col,
    {
        let ghost before = as_pairs(segments@);
        if blank_col(rows, col) {
            if in_segment {
                segments.push((start, col));
                in_segment = false;
                proof {
                    assert(as_pairs(segments@) =~= before.push((start as int, col as int)));
                }
            }
        } else if !in_segment {
            start = col;
            in_segment = true;
        }
        col += 1;
    }
    if in_segment {
        let ghost before = as_pairs(segments@);
        segments.push((start, width));
        proof {
            assert(as_pairs(segments@) =~= before.push((start as int, width as int)));
        }
    }
    segments
}

/// The pairs as mathematical integers.
pub open spec fn as_pairs(segments: Seq<(usize, usize)>) -> Seq<(int, int)> {
    Seq::new(segments.len(), |k: int| (segments[k].0 as int, segments[k].1 as int))
}

/// The sign of a problem.
pub fn operator_for_segment(line: &[u8], start: usize, end: usize) -> (r: Result<u8, Error>)
    requires
        start <= end,
    ensures
        r == spec_operator(line@, start as int, end as int, None),
{
    let mut found: Option<u8> = None;
    let mut col: usize = start;
    while col < end
        invariant
            start <= col <= end,
            spec_operator(line@, start as int, end as int, None) == spec_operator(
                line@,
                col as int,
                end as int,
                found,
            ),
        decreases end - col,
    {
        let b = byte_at(line, col);
        if b != SPACE {
            if found.is_some() {
                return Err(Error::MultipleOperators);
            }
            found = Some(b);
        }
        col += 1;
    }
    match found {
        None => Err(Error::MissingOperator),
        Some(op) => if op == PLUS || op == STAR {
            Ok(op)
        } else {
            Err(Error::BadOperator(op))
        },
    }
}

/// The number that a row holds for a problem.
pub fn parse_row_number(line: &[u8], start: usize, end: usize) -> (r: Result<u128, Error>)
    requires
        start <= end,
    ensures
        match (r, spec_row_number(line@, start as int, end as int)) {
            (Ok(value), Ok(v)) => value == v,
            (Err(e), Err(f)) => e == f,
            _ => false,
        },
{
    let mut lo: usize = start;
    while lo < end && byte_at(line, lo) == SPACE
        invariant
            start <= lo <= end,
            skip_blanks(line@, start as int, end as int) == skip_blanks(line@, lo as int, end as int),
        decreases end - lo,
    {
        lo += 1;
    }
    let mut hi: usize = end;
    while hi > lo && byte_at(line, hi - 1) == SPACE
        invariant
            lo <= hi <= end,
            skip_blanks_back(line@, lo as int, end as int) == skip_blanks_back(
                line@,
                lo as int,
                hi as int,
            ),
        decreases hi,
    {
        hi -= 1;
    }
    if lo == hi {
        return Err(Error::MissingNumber);
    }
    let mut value: u128 = 0;
    let mut col: usize = lo;
    while col < hi
        invariant
            lo <= col <= hi,
            lo < hi,
            lo == skip_blanks(line@, start as int, end as int),
            hi == skip_blanks_back(line@, lo as int, end as int),
            spec_digits(line@, lo as int, hi as int, 0) == spec_digits(
                line@,
                col as int,
                hi as int,
                value as int,
            ),
        decreases hi - col,
    {
        let b = byte_at(line, col);
        if !digit(b) {
            return Err(Error::NonDigit(b));
        }
        let d: u128 = (b - ZERO) as u128;
        if value > (u128::MAX - d) / 10 {
            return Err(Error::Overflow);
        }
        value = value * 10 + d;
        col += 1;
    }
    Ok(value)
}

/// The number that a column holds above the last row.
fn parse_col_number(rows: &Vec<&[u8]>, col: usize) -> (r: Result<Option<u128>, Error>)
    requires
        rows.len() >= 1,
    ensures
        match (r, spec_col_number(line_views(rows@), col as int, 0, rows.len() - 1, 0, false)) {
            (Ok(Some(value)), Ok(Some(v))) => value == v,
            (Ok(None), Ok(None)) => true,
            (Err(e), Err(f)) => e == f,
            _ => false,
        },
{
    let end: usize = rows.len() - 1;
    let mut value: u128 = 0;
    let mut found = false;
    let mut r: usize = 0;
    while r < end
        invariant
            r <= end,
            end == rows.len() - 1,
            spec_col_number(line_views(rows@), col as int, 0, end as int, 0, false)
                == spec_col_number(
                line_views(rows@),
                col as int,
                r as int,
                end as int,
                value as int,
                found,
            ),
        decreases end - r,
    {
        proof {
            assert(line_views(rows@)[r as int] == rows[r as int]@);
        }
        let b = byte_at(rows[r], col);
        if b != SPACE {
            if !digit(b) {
                return Err(Error::NonDigit(b));
            }
            let d: u128 = (b - ZERO) as u128;
            if value > (u128::MAX - d) / 10 {
                return Err(Error::Overflow);
            }
            value = value * 10 + d;
            found = true;
        }
        r += 1;
    }
    if found {
        Ok(Some(value))
    } else {
        Ok(None)
    }
}

/// Adds or multiplies.
fn combine(op: u8, acc: u128, value: u128) -> (r: Result<u128, Error>)
    ensures
        match (r, apply(op, acc as int, value as int)) {
            (Ok(next), Ok(n)) => next == n,
            (Err(e), Err(f)) => e == f,
            _ => false,
        },
{
    let result = if op == PLUS {
        acc.checked_add(value)
    } else {
        acc.checked_mul(value)
    };
    match result {
        Some(next) => Ok(next),
        None => Err(Error::Overflow),
    }
}

/// Both results of one problem.
fn solve_problem(rows: &Vec<&[u8]>, start: usize, end: usize) -> (r: Result<(u128, u128), Error>)
    requires
        rows.len() >= 1,
        start <= end,
    ensures
        match (r, spec_problem(line_views(rows@), start as int, end as int)) {
            (Ok((first, second)), Ok((f, s))) => first == f && second == s,
            (Err(e), Err(f)) => e == f,
            _ => false,
        },
{
    let op_row: usize = rows.len() - 1;
    let ghost grid = line_views(rows@);
    proof {
        assert(grid[op_row as int] == rows[op_row as int]@);
    }
    let op = match operator_for_segment(rows[op_row], start, end) {
        Ok(op) => op,
        Err(e) => {
            return Err(e);
        },
    };
    let mut first: u128 = if op == PLUS { 0 } else { 1 };
    let mut r: usize = 0;
    while r < op_row
        invariant
            r <= op_row,
            op_row == rows.len() - 1,
            start <= end,
            grid == line_views(rows@),
            spec_operator(grid[grid.len() - 1], start as int, end as int, None) == Ok::<u8, Error>(op),
            by_rows(grid, start as int, end as int, op, 0, unit(op)) == by_rows(
                grid,
                start as int,
                end as int,
                op,
                r as int,
                first as int,
            ),
        decreases op_row - r,
    {
        proof {
            assert(grid[r as int] == rows[r as int]@);
        }
        let value = match parse_row_number(rows[r], start, end) {
            Ok(value) => value,
            Err(e) => {
                return Err(e);
            },
        };
        first = match combine(op, first, value) {
            Ok(next) => next,
            Err(e) => {
                return Err(e);
            },
        };
        r += 1;
    }
    let mut second: u128 = if op == PLUS { 0 } else { 1 };
    let mut col: usize = end;
    while col > start
        invariant
            start <= col <= end,
            rows.len() >= 1,
            grid == line_views(rows@),
            spec_operator(grid[grid.len() - 1], start as int, end as int, None) == Ok::<u8, Error>(op),
            by_rows(grid, start as int, end as int, op, 0, unit(op)) == Ok::<int, Error>(first as int),
            by_cols(grid, start as int, op, end as int, unit(op)) == by_cols(
                grid,
                start as int,
                op,
                col as int,
                second as int,
            ),
        decreases col,
    {
        col -= 1;
        match parse_col_number(rows, col) {
            Err(e) => {
                return Err(e);
            },
            Ok(None) => {},
            Ok(Some(value)) => {
                second = match combine(op, second, value) {
                    Ok(next) => next,
                    Err(e) => {
                        return Err(e);
                    },
                };
            },
        }
    }
    Ok((first, second))
}

/// The rows of a text: its lines without the carriage returns at their
/// end.
pub fn parse_lines<'a>(bytes: &'a [u8]) -> (rows: Vec<&'a [u8]>)
    ensures
        line_views(rows@) == spec_rows(bytes@),
{
    let lines = split_lines(bytes);
    let mut rows: Vec<&'a [u8]> = Vec::new();
    let mut i: usize = 0;
    while i < lines.len()
        invariant
            i <= lines.len(),
            rows.len() == i,
            line_views(lines@) == spec_lines(bytes@),
            forall|k: int| 0 <= k < i ==> (#[trigger] rows[k])@ == trimmed(spec_lines(bytes@)[k]),
        decreases lines.len() - i,
    {
        proof {
            assert(line_views(lines@)[i as int] == lines[i as int]@);
        }
        rows.push(trim_line(lines[i]));
        i += 1;
    }
    proof {
        assert(line_views(rows@) =~= spec_rows(bytes@));
    }
    rows
}

/// What holds of both answers for a text.
pub open spec fn both_holds(input: &str, r: Result<(u128, u128), Error>) -> bool {
    match (r, spec_both(input.spec_bytes())) {
        (Ok((first, second)), Ok((f, s))) => first == f && second == s,
        (Err(e), Err(f)) => e == f,
        _ => false,
    }
}

/// Both answers.
pub fn both(input: &str) -> (r: Result<(u128, u128), Error>)
    ensures
        both_holds(input, r),
{
    let rows = parse_lines(input.as_bytes());
    let ghost grid = line_views(rows@);
    if rows.len() < 2 {
        return Err(Error::TooFewRows);
    }
    let mut width: usize = 0;
    let mut i: usize = 0;
    while i < rows.len()
        invariant
            i <= rows.len(),
            grid == line_views(rows@),
            width == max_width(grid, i as int),
        decreases rows.len() - i,
    {
        proof {
            assert(grid[i as int] == rows[i as int]@);
        }
        if rows[i].len() > width {
            width = rows[i].len();
        }
        i += 1;
    }
    if width == 0 {
        return Err(Error::Empty);
    }
    let segments = find_segments(&rows, width);
    if segments.len() == 0 {
        return Err(Error::NoProblems);
    }
    let mut first: u128 = 0;
    let mut second: u128 = 0;
    let mut k: usize = 0;
    while k < segments.len()
        invariant
            k <= segments.len(),
            rows.len() >= 2,
            grid == line_views(rows@),
            grid == spec_rows(input.spec_bytes()),
            width == max_width(grid, grid.len() as int),
            width != 0,
            segments.len() != 0,
            as_pairs(segments@) == spec_segments(grid, width as int, 0, -1, Seq::empty()),
            forall|j: int|
                0 <= j < segments.len() ==> (#[trigger] segments[j]).0 < segments[j].1 <= width,
            spec_totals(grid, as_pairs(segments@), 0, 0, 0) == spec_totals(
                grid,
                as_pairs(segments@),
                k as int,
                first as int,
                second as int,
            ),
        decreases segments.len() - k,
    {
        let (start, end) = segments[k];
        proof {
            assert(as_pairs(segments@)[k as int] == (start as int, end as int));
        }
        let (by_row, by_col) = match solve_problem(&rows, start, end) {
            Ok(found) => found,
            Err(e) => {
                return Err(e);
            },
        };
        first = match first.checked_add(by_row) {
            Some(sum) => sum,
            None => {
                return Err(Error::Overflow);
            },
        };
        second = match second.checked_add(by_col) {
            Some(sum) => sum,
            None => {
                return Err(Error::Overflow);
            },
        };
        k += 1;
    }
    Ok((first, second))
}

/// What holds of the first answer for a text.
pub open spec fn part1_holds(input: &str, r: Result<u128, Error>) -> bool {
    match (r, spec_both(input.spec_bytes())) {
        (Ok(first), Ok((f, s))) => first == f,
        (Err(e), Err(f)) => e == f,
        _ => false,
    }
}

/// Adds up the results of the problems read by rows.
pub fn part1(input: &str) -> (r: Result<u128, Error>)
    ensures
        part1_holds(input, r),
{
    match both(input) {
        Ok((first, second)) => Ok(first),
        Err(e) => Err(e),
    }
}

/// What holds of the second answer for a text.
pub open spec fn part2_holds(input: &str, r: Result<u128, Error>) -> bool {
    match (r, spec_both(input.spec_bytes())) {
        (Ok(second), Ok((f, s))) => second == s,
        (Err(e), Err(f)) => e == f,
        _ => false,
    }
}

/// Adds up the results of the problems read by columns.
pub fn part2(input: &str) -> (r: Result<u128, Error>)
    ensures
        part2_holds(input, r),
{
    match both(input) {
        Ok((first, second)) => Ok(second),
        Err(e) => Err(e),
    }
}

} // verus!
