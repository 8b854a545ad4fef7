//! Rectangles between red tiles.
//!
//! The text lists the red tiles, one `x,y` on a line. The first answer is
//! the area of the largest rectangle that has red tiles in two opposite
//! corners. For the second answer the red tiles form a closed loop, each
//! joined to the next by a straight line of green tiles, and the tiles
//! inside the loop are green as well: it is the area of the largest such
//! rectangle that holds red and green tiles only.

use vstd::prelude::*;
use vstd::string::StringSliceAdditionalSpecFns;
use crate::ascii::{ends_line, is_eol, COMMA};
use crate::lines::{
    expect_char, lemma_int_advances, lemma_skip_eols, parse_int, skip_eols, spec_comma, spec_int,
    ParseError,
};
use crate::ranges::{all_valid, covered, covers_interval, merge_ranges, separated};
use crate::values::{
    count_equal, count_less, in_pairs, is_sorted, lemma_pairs, sort_values,
};

verus! {

/// A tile of the floor.
#[derive(Copy, Clone, Debug, PartialEq, Eq, Structural)]
pub struct Tile {
    pub x: i32,
    pub y: i32,
}

/// Why a text has no answer.
#[derive(Copy, Clone, Debug, PartialEq, Eq, Structural)]
pub enum Error {
    /// The text is not a list of tiles.
    Parse(ParseError),
    /// Fewer than two red tiles.
    TooFewTiles,
    /// Fewer than three red tiles, which form no loop.
    TooFewForLoop,
    /// Some row is crossed by an odd number of upright lines of the loop.
    Malformed,
    /// The largest area does not fit in 64 bits.
    AreaOverflow,
}

/// A record at `pos`: two numbers with a comma between them, up to a line
/// ending or the end of the text.
pub open spec fn spec_record(s: Seq<u8>, pos: int) -> Result<(Tile, int), ParseError> {
    match spec_int(s, pos) {
        Err(e) => Err(e),
        Ok((x, after_x)) => if !spec_comma(s, after_x) {
            Err(ParseError::MissingSeparator)
        } else {
            match spec_int(s, after_x + 1) {
                Err(e) => Err(e),
                Ok((y, after_y)) => if after_y < s.len() && !is_eol(s[after_y]) {
                    Err(ParseError::TrailingCharacters)
                } else {
                    Ok((Tile { x: x as i32, y: y as i32 }, after_y))
                },
            }
        },
    }
}

/// The records from `pos` to the end of the text, after those in `acc`.
pub open spec fn spec_records(s: Seq<u8>, pos: int, acc: Seq<Tile>) -> Result<Seq<Tile>, ParseError>
    decreases s.len() - pos,
{
    let start = skip_eols(s, pos);
    if pos < 0 || start >= s.len() {
        Ok(acc)
    } else {
        match spec_record(s, start) {
            Err(e) => Err(e),
            Ok((p, next)) => {
                proof {
                    lemma_skip_eols(s, pos);
                    lemma_record_advances(s, start);
                }
                spec_records(s, next, acc.push(p))
            },
        }
    }
}

/// The tiles that a text lists.
pub open spec fn spec_parse_points(s: Seq<u8>) -> Result<Seq<Tile>, ParseError> {
    spec_records(s, 0, Seq::empty())
}

pub proof fn lemma_record_advances(s: Seq<u8>, pos: int)
    requires
        0 <= pos,
        spec_record(s, pos) is Ok,
    ensures
        pos < spec_record(s, pos).unwrap().1 <= s.len(),
{
    lemma_int_advances(s, pos);
    let after_x = spec_int(s, pos).unwrap().1;
    lemma_int_advances(s, after_x + 1);
}

/// Reads the tiles of a text, one `x,y` on each line that is not blank.
pub fn parse_points(bytes: &[u8]) -> (r: Result<Vec<Tile>, ParseError>)
    ensures
        match (r, spec_parse_points(bytes@)) {
            (Ok(points), Ok(s)) => points@ == s,
            (Err(e), Err(f)) => e == f,
            _ => false,
        },
{
    let len = bytes.len();
    let mut points: Vec<Tile> = Vec::new();
    let mut idx: usize = 0;
    loop
        invariant
            idx <= len,
            len == bytes.len(),
            spec_records(bytes@, 0, Seq::empty()) == spec_records(bytes@, idx as int, points@),
        ensures
            spec_records(bytes@, 0, Seq::empty()) == Ok::<Seq<Tile>, ParseError>(points@),
        decreases len - idx,
    {
        let ghost from = idx;
        while idx < len && ends_line(bytes[idx])
            invariant
                from <= idx <= len,
                len == bytes.len(),
                skip_eols(bytes@, from as int) == skip_eols(bytes@, idx as int),
            decreases len - idx,
        {
            idx += 1;
        }
        if idx >= len {
            break;
        }
        let (x, after_x) = match parse_int(bytes, idx) {
            Ok(found) => found,
            Err(e) => {
                return Err(e);
            },
        };
        proof {
            lemma_int_advances(bytes@, idx as int);
        }
        let at_y = match expect_char(bytes, after_x, COMMA) {
            Ok(next) => next,
            Err(e) => {
                return Err(e);
            },
        };
        let (y, after_y) = match parse_int(bytes, at_y) {
            Ok(found) => found,
            Err(e) => {
                return Err(e);
            },
        };
        proof {
            lemma_int_advances(bytes@, after_x + 1);
        }
        if after_y < len && !ends_line(bytes[after_y]) {
            return Err(ParseError::TrailingCharacters);
        }
        points.push(Tile { x, y });
        idx = after_y;
    }
    Ok(points)
}

/// How far two numbers are apart.
pub open spec fn gap(a: int, b: int) -> int {
    if a <= b {
        b - a
    } else {
        a - b
    }
}

/// How many tiles the rectangle with two tiles in opposite corners holds.
pub open spec fn area(a: Tile, b: Tile) -> int {
    (gap(a.x as int, b.x as int) + 1) * (gap(a.y as int, b.y as int) + 1)
}

/// `best` is the largest area of a rectangle between two of the tiles.
pub open spec fn is_max_area(points: Seq<Tile>, best: int) -> bool {
    &&& exists|i: int, j: int|
        0 <= i < j < points.len() && #[trigger] area(points[i], points[j]) == best
    &&& forall|i: int, j: int|
        0 <= i < j < points.len() ==> #[trigger] area(points[i], points[j]) <= best
}

/// The area of the rectangle between two tiles.
pub fn rect_area(a: &Tile, b: &Tile) -> (r: u128)
    ensures
        r == area(*a, *b),
        1 <= r <= 0x1_0000_0000_0000_0000,
{
    let dx: u64 = if a.x <= b.x {
        (b.x as i64 - a.x as i64) as u64
    } else {
        (a.x as i64 - b.x as i64) as u64
    };
    let dy: u64 = if a.y <= b.y {
        (b.y as i64 - a.y as i64) as u64
    } else {
        (a.y as i64 - b.y as i64) as u64
    };
    proof {
        assert(1 <= (dx + 1) * (dy + 1) <= 0x1_0000_0000 * 0x1_0000_0000) by (nonlinear_arith)
            requires
                0 <= dx <= 0xffff_ffff,
                0 <= dy <= 0xffff_ffff,
        ;
    }
    (dx as u128 + 1) * (dy as u128 + 1)
}

/// The largest area of a rectangle between two of the tiles.
pub fn max_area_any(points: &Vec<Tile>) -> (best: u128)
    requires
        points.len() >= 2,
    ensures
        is_max_area(points@, best as int),
{
    let n: usize = points.len();
    let mut best: u128 = rect_area(&points[0], &points[1]);
    let mut i: usize = 0;
    while i < n
        invariant
            i <= n,
            n == points.len(),
            n >= 2,
            exists|a: int, b: int| 0 <= a < b < n && #[trigger] area(points[a], points[b]) == best,
            forall|a: int, b: int|
                0 <= a < i && a < b < n ==> #[trigger] area(points[a], points[b]) <= best,
        decreases n - i,
    {
        let mut j: usize = i + 1;
        while j < n
            invariant
                i < j <= n,
                n == points.len(),
                exists|a: int, b: int|
                    0 <= a < b < n && #[trigger] area(points[a], points[b]) == best,
                forall|a: int, b: int|
                    0 <= a < i && a < b < n ==> #[trigger] area(points[a], points[b]) <= best,
                forall|b: int| i < b < j ==> #[trigger] area(points[i as int], points[b]) <= best,
            decreases n - j,
        {
            let found = rect_area(&points[i], &points[j]);
            if found > best {
                best = found;
            }
            j += 1;
        }
        i += 1;
    }
    best
}

/// What holds of the first answer for a text.
pub open spec fn part1_holds(input: &str, r: Result<u64, Error>) -> bool {
    match spec_parse_points(input.spec_bytes()) {
        Err(e) => r == Err::<u64, Error>(Error::Parse(e)),
        Ok(points) => if points.len() < 2 {
            r == Err::<u64, Error>(Error::TooFewTiles)
        } else {
            match r {
                Ok(best) => is_max_area(points, best as int),
                Err(e) => e == Error::AreaOverflow && !exists|best: u64|
                    is_max_area(points, best as int),
            }
        },
    }
}

/// The largest area of a rectangle between two red tiles.
pub fn part1(input: &str) -> (r: Result<u64, Error>)
    ensures
        part1_holds(input, r),
{
    let points = match parse_points(input.as_bytes()) {
        Ok(points) => points,
        Err(e) => {
            return Err(Error::Parse(e));
        },
    };
    if points.len() < 2 {
        return Err(Error::TooFewTiles);
    }
    let best = max_area_any(&points);
    if best <= u64::MAX as u128 {
        Ok(best as u64)
    } else {
        proof {
            assert forall|other: u64| !is_max_area(points@, other as int) by {
                if is_max_area(points@, other as int) {
                    let (i, j) = choose|i: int, j: int|
                        0 <= i < j < points.len() && #[trigger] area(points[i], points[j]) == best;
                    assert(area(points[i], points[j]) <= other);
                }
            }
        }
        Err(Error::AreaOverflow)
    }
}

/// What is added to a column to make it a number that is not negative.
pub const SHIFT: i64 = 0x8000_0000;

/// The tile after the `i`-th on the loop.
pub open spec fn next_index(n: int, i: int) -> int {
    if i + 1 >= n {
        0
    } else {
        i + 1
    }
}

/// The line from the `i`-th tile to the next stays in one column.
pub open spec fn is_upright(points: Seq<Tile>, i: int) -> bool {
    points[i].x == points[next_index(points.len() as int, i)].x
}

/// The line from the `i`-th tile to the next is upright and passes
/// through row `y`, the row of its upper end left out.
pub open spec fn crosses(points: Seq<Tile>, i: int, y: int) -> bool {
    let a = points[i].y;
    let b = points[next_index(points.len() as int, i)].y;
    is_upright(points, i) && ((a <= y < b) || (b <= y < a))
}

/// The line from the `i`-th tile to the next is not upright, starts in
/// row `y` and reaches over column `x`.
pub open spec fn on_level(points: Seq<Tile>, i: int, x: int, y: int) -> bool {
    let a = points[i].x;
    let b = points[next_index(points.len() as int, i)].x;
    !is_upright(points, i) && points[i].y == y && ((a <= x <= b) || (b <= x <= a))
}

/// How many of the first `k` lines cross row `y`.
pub open spec fn crossings(points: Seq<Tile>, k: int, y: int) -> int
    decreases k,
{
    if k <= 0 {
        0
    } else {
        crossings(points, k - 1, y) + if crosses(points, k - 1, y) { 1int } else { 0int }
    }
}

/// How many of the first `k` lines cross row `y` to the left of column
/// `x`.
pub open spec fn crossings_left(points: Seq<Tile>, k: int, x: int, y: int) -> int
    decreases k,
{
    if k <= 0 {
        0
    } else {
        crossings_left(points, k - 1, x, y) + if crosses(points, k - 1, y) && points[k - 1].x < x {
            1int
        } else {
            0int
        }
    }
}

/// How many of the first `k` lines cross row `y` in column `x`.
pub open spec fn crossings_at(points: Seq<Tile>, k: int, x: int, y: int) -> int
    decreases k,
{
    if k <= 0 {
        0
    } else {
        crossings_at(points, k - 1, x, y) + if crosses(points, k - 1, y) && points[k - 1].x == x {
            1int
        } else {
            0int
        }
    }
}

/// One of the first `k` lines is level with row `y` and reaches over
/// column `x`.
pub open spec fn level_before(points: Seq<Tile>, k: int, x: int, y: int) -> bool {
    exists|i: int| 0 <= i < k && on_level(points, i, x, y)
}

/// The tile is red or green: it lies on a line of the loop, or an odd
/// number of upright lines cross its row to the left of it.
pub open spec fn is_green(points: Seq<Tile>, x: int, y: int) -> bool {
    let n = points.len() as int;
    level_before(points, n, x, y) || crossings_at(points, n, x, y) >= 1 || crossings_left(
        points,
        n,
        x,
        y,
    ) % 2 == 1
}

/// An even number of upright lines cross the row.
pub open spec fn row_is_even(points: Seq<Tile>, y: int) -> bool {
    crossings(points, points.len() as int, y) % 2 == 0
}

/// A column as a number that is not negative.
fn shifted(x: i32) -> (r: u64)
    ensures
        r == x + SHIFT,
{
    (x as i64 + SHIFT) as u64
}

/// One of the first `k` pairs of the list has `v` between its two items
/// or at one of them.
pub open spec fn in_first_pairs(s: Seq<u64>, k: int, v: int) -> bool {
    exists|j: int| 0 <= j < k && 2 * j + 1 < s.len() && #[trigger] s[2 * j] <= v <= s[2 * j + 1]
}

/// The upright lines that cross row `y`, by their columns, and the reach
/// of each line that is level with the row.
fn row_lines(points: &Vec<Tile>, y: i64) -> (r: (Vec<u64>, Vec<(u64, u64)>))
    requires
        points.len() >= 1,
    ensures
        r.0.len() == crossings(points@, points.len() as int, y as int),
        forall|x: int|
            count_less(r.0@, x + SHIFT) == #[trigger] crossings_left(
                points@,
                points.len() as int,
                x,
                y as int,
            ),
        forall|x: int|
            count_equal(r.0@, x + SHIFT) == #[trigger] crossings_at(
                points@,
                points.len() as int,
                x,
                y as int,
            ),
        all_valid(r.1@),
        forall|x: int|
            covered(r.1@, x + SHIFT) <==> #[trigger] level_before(
                points@,
                points.len() as int,
                x,
                y as int,
            ),
{
    let n: usize = points.len();
    let mut uprights: Vec<u64> = Vec::new();
    let mut levels: Vec<(u64, u64)> = Vec::new();
    let mut i: usize = 0;
    while i < n
        invariant
            i <= n,
            n == points.len(),
            uprights.len() == crossings(points@, i as int, y as int),
            forall|x: int|
                count_less(uprights@, x + SHIFT) == #[trigger] crossings_left(
                    points@,
                    i as int,
                    x,
                    y as int,
                ),
            forall|x: int|
                count_equal(uprights@, x + SHIFT) == #[trigger] crossings_at(
                    points@,
                    i as int,
                    x,
                    y as int,
                ),
            all_valid(levels@),
            forall|x: int|
                covered(levels@, x + SHIFT) <==> #[trigger] level_before(
                    points@,
                    i as int,
                    x,
                    y as int,
                ),
        decreases n - i,
    {
        let a = points[i];
        let b = points[if i + 1 == n { 0 } else { i + 1 }];
        let ghost before_up = uprights@;
        let ghost before_level = levels@;
        proof {
            assert(b == points@[next_index(n as int, i as int)]);
        }
        if a.x == b.x {
            let lo: i64 = if a.y <= b.y { a.y as i64 } else { b.y as i64 };
            let hi: i64 = if a.y <= b.y { b.y as i64 } else { a.y as i64 };
            if lo <= y && y < hi {
                uprights.push(shifted(a.x));
                proof {
                    assert(uprights@.drop_last() =~= before_up);
                }
            }
        } else if a.y as i64 == y {
            let lo: u64 = if a.x <= b.x { shifted(a.x) } else { shifted(b.x) };
            let hi: u64 = if a.x <= b.x { shifted(b.x) } else { shifted(a.x) };
            levels.push((lo, hi));
        }
        proof {
            assert forall|x: int|
                count_less(uprights@, x + SHIFT) == #[trigger] crossings_left(
                    points@,
                    i + 1,
                    x,
                    y as int,
                ) by {
                assert(count_less(before_up, x + SHIFT) == crossings_left(
                    points@,
                    i as int,
                    x,
                    y as int,
                ));
            }
            assert forall|x: int|
                count_equal(uprights@, x + SHIFT) == #[trigger] crossings_at(
                    points@,
                    i + 1,
                    x,
                    y as int,
                ) by {
                assert(count_equal(before_up, x + SHIFT) == crossings_at(
                    points@,
                    i as int,
                    x,
                    y as int,
                ));
            }
            assert forall|x: int|
                covered(levels@, x + SHIFT) <==> #[trigger] level_before(
                    points@,
                    i + 1,
                    x,
                    y as int,
                ) by {
                let v = x + SHIFT;
                assert(covered(before_level, v) <==> level_before(points@, i as int, x, y as int));
                if covered(levels@, v) {
                    let k = choose|k: int| 0 <= k < levels@.len() && (#[trigger] levels@[k]).0 <= v
                        <= levels@[k].1;
                    if k < before_level.len() {
                        assert(before_level[k].0 <= v <= before_level[k].1);
                        assert(covered(before_level, v));
                        let j = choose|j: int| 0 <= j < i && on_level(points@, j, x, y as int);
                        assert(on_level(points@, j, x, y as int));
                    } else {
                        assert(on_level(points@, i as int, x, y as int));
                    }
                }
                if level_before(points@, i + 1, x, y as int) {
                    let j = choose|j: int| 0 <= j < i + 1 && on_level(points@, j, x, y as int);
                    if j < i {
                        assert(level_before(points@, i as int, x, y as int));
                        let k = choose|k: int|
                            0 <= k < before_level.len() && (#[trigger] before_level[k]).0 <= v
                                <= before_level[k].1;
                        assert(levels@[k].0 <= v <= levels@[k].1);
                    } else {
                        assert(levels@[levels@.len() - 1].0 <= v <= levels@[levels@.len() - 1].1);
                    }
                }
            }
        }
        i += 1;
    }
    (uprights, levels)
}

/// The red and green tiles of row `y`, as ranges of shifted columns that
/// neither overlap nor touch.
pub fn build_row(points: &Vec<Tile>, y: i64) -> (r: Result<Vec<(u64, u64)>, Error>)
    requires
        points.len() >= 1,
    ensures
        match r {
            Ok(spans) => separated(spans@) && row_is_even(points@, y as int) && forall|x: int|
                covered(spans@, x + SHIFT) <==> #[trigger] is_green(points@, x, y as int),
            Err(e) => e == Error::Malformed && !row_is_even(points@, y as int),
        },
{
    let (uprights, levels) = row_lines(points, y);
    if uprights.len() % 2 != 0 {
        return Err(Error::Malformed);
    }
    let sorted = sort_values(&uprights);
    let mut spans = levels;
    let ghost level_spans = spans@;
    let half: usize = sorted.len() / 2;
    let mut k: usize = 0;
    while k < half
        invariant
            k <= half,
            half * 2 == sorted.len(),
            is_sorted(sorted@),
            all_valid(spans@),
            forall|v: int|
                #[trigger] covered(spans@, v) <==> (covered(level_spans, v) || in_first_pairs(
                    sorted@,
                    k as int,
                    v,
                )),
        decreases half - k,
    {
        let ghost before = spans@;
        spans.push((sorted[2 * k], sorted[2 * k + 1]));
        proof {
            assert forall|v: int|
                #[trigger] covered(spans@, v) <==> (covered(level_spans, v) || in_first_pairs(
                    sorted@,
                    k + 1,
                    v,
                )) by {
                assert(covered(before, v) <==> (covered(level_spans, v) || in_first_pairs(
                    sorted@,
                    k as int,
                    v,
                )));
                if covered(spans@, v) {
                    let at = choose|at: int|
                        0 <= at < spans@.len() && (#[trigger] spans@[at]).0 <= v <= spans@[at].1;
                    if at < before.len() {
                        assert(before[at].0 <= v <= before[at].1);
                        assert(covered(before, v));
                        if in_first_pairs(sorted@, k as int, v) {
                            let j = choose|j: int|
                                0 <= j < k && 2 * j + 1 < sorted@.len() && #[trigger] sorted@[2 * j]
                                    <= v <= sorted@[2 * j + 1];
                            assert(0 <= j < k + 1 && sorted@[2 * j] <= v <= sorted@[2 * j + 1]);
                        }
                    } else {
                        assert(sorted@[2 * (k as int)] <= v <= sorted@[2 * (k as int) + 1]);
                    }
                }
                if covered(before, v) {
                    let at = choose|at: int|
                        0 <= at < before.len() && (#[trigger] before[at]).0 <= v <= before[at].1;
                    assert(spans@[at].0 <= v <= spans@[at].1);
                }
                if in_first_pairs(sorted@, k + 1, v) {
                    let j = choose|j: int|
                        0 <= j < k + 1 && 2 * j + 1 < sorted@.len() && #[trigger] sorted@[2 * j]
                            <= v <= sorted@[2 * j + 1];
                    if j < k {
                        assert(in_first_pairs(sorted@, k as int, v));
                    } else {
                        assert(spans@[spans@.len() - 1].0 <= v <= spans@[spans@.len() - 1].1);
                    }
                }
            }
        }
        k += 1;
    }
    let ghost joined = spans@;
    let merged = merge_ranges(spans);
    proof {
        assert forall|x: int|
            covered(merged@, x + SHIFT) <==> #[trigger] is_green(points@, x, y as int) by {
            let v = x + SHIFT;
            let n = points.len() as int;
            lemma_pairs(sorted@, v);
            assert(covered(merged@, v) <==> covered(joined, v));
            assert(covered(joined, v) <==> (covered(level_spans, v) || in_first_pairs(
                sorted@,
                half as int,
                v,
            )));
            assert(covered(level_spans, v) <==> level_before(points@, n, x, y as int));
            assert(count_less(uprights@, v) == crossings_left(points@, n, x, y as int));
            assert(count_equal(uprights@, v) == crossings_at(points@, n, x, y as int));
            if in_pairs(sorted@, v) {
                let j = choose|j: int|
                    0 <= j && 2 * j + 1 < sorted@.len() && #[trigger] sorted@[2 * j] <= v
                        <= sorted@[2 * j + 1];
                assert(0 <= j < half && sorted@[2 * j] <= v <= sorted@[2 * j + 1]);
            }
            if in_first_pairs(sorted@, half as int, v) {
                let j = choose|j: int|
                    0 <= j < half && 2 * j + 1 < sorted@.len() && #[trigger] sorted@[2 * j] <= v
                        <= sorted@[2 * j + 1];
                assert(0 <= j && sorted@[2 * j] <= v <= sorted@[2 * j + 1]);
                assert(in_pairs(sorted@, v));
            }
        }
    }
    Ok(merged)
}

/// A row in which the tiles of the loop may change: the row of a red
/// tile, or the row after it.
pub open spec fn is_break(points: Seq<Tile>, v: int) -> bool {
    exists|k: int| 0 <= k < points.len() && (v == (#[trigger] points[k]).y || v == points[k].y + 1)
}

/// Every tile of the rectangle between two tiles is red or green.
pub open spec fn rect_green(points: Seq<Tile>, a: Tile, b: Tile) -> bool {
    forall|x: int, y: int|
        (a.x <= x <= b.x || b.x <= x <= a.x) && (a.y <= y <= b.y || b.y <= y <= a.y)
            ==> #[trigger] is_green(points, x, y)
}

/// `best` is the largest area of a rectangle between two of the tiles
/// that holds red and green tiles only, or zero if there is no such
/// rectangle.
pub open spec fn is_max_green(points: Seq<Tile>, best: int) -> bool {
    &&& forall|i: int, j: int|
        0 <= i < j < points.len() && rect_green(points, points[i], points[j]) ==> #[trigger] area(
            points[i],
            points[j],
        ) <= best
    &&& best == 0 || exists|i: int, j: int|
        0 <= i < j < points.len() && rect_green(points, points[i], points[j]) && #[trigger] area(
            points[i],
            points[j],
        ) == best
}

/// An even number of upright lines cross every row in which the tiles
/// of the loop may change.
pub open spec fn loop_is_even(points: Seq<Tile>) -> bool {
    forall|k: int|
        0 <= k < points.len() ==> row_is_even(points, (#[trigger] points[k]).y as int)
            && row_is_even(points, points[k].y + 1)
}

/// The red and green tiles of one row.
pub struct Row {
    pub y: i64,
    pub spans: Vec<(u64, u64)>,
}

/// The red and green tiles of the rows in which the tiles of the loop
/// may change: for each red tile its row and the row after it.
pub struct Coverage {
    pub rows: Vec<Row>,
}

impl Coverage {
    /// The rows are those of the tiles, and hold their red and green
    /// tiles.
    pub open spec fn matches(&self, points: Seq<Tile>) -> bool {
        &&& self.rows.len() == 2 * points.len()
        &&& forall|k: int|
            0 <= k < points.len() ==> (#[trigger] self.rows[2 * k]).y == points[k].y && self.rows[2
                * k + 1].y == points[k].y + 1
        &&& forall|r: int|
            0 <= r < self.rows.len() ==> separated((#[trigger] self.rows[r]).spans@) && forall|
                x: int,
            |
                covered(self.rows[r].spans@, x + SHIFT) <==> #[trigger] is_green(
                    points,
                    x,
                    self.rows[r].y as int,
                )
    }
}

/// Finds the red and green tiles of every row in which the tiles of the
/// loop may change.
pub fn build_coverage(points: &Vec<Tile>) -> (r: Result<Coverage, Error>)
    ensures
        match r {
            Ok(coverage) => points.len() >= 3 && loop_is_even(points@) && coverage.matches(points@),
            Err(Error::TooFewForLoop) => points.len() < 3,
            Err(Error::Malformed) => points.len() >= 3 && !loop_is_even(points@),
            Err(_) => false,
        },
{
    let n: usize = points.len();
    if n < 3 {
        return Err(Error::TooFewForLoop);
    }
    let mut rows: Vec<Row> = Vec::new();
    let mut k: usize = 0;
    while k < n
        invariant
            k <= n,
            n == points.len(),
            n >= 3,
            rows.len() == 2 * k,
            forall|j: int|
                0 <= j < k ==> (#[trigger] rows[2 * j]).y == points[j].y && rows[2 * j + 1].y
                    == points[j].y + 1,
            forall|j: int|
                0 <= j < k ==> row_is_even(points@, (#[trigger] points[j]).y as int) && row_is_even(
                    points@,
                    points[j].y + 1,
                ),
            forall|r: int|
                0 <= r < rows.len() ==> separated((#[trigger] rows[r]).spans@) && forall|x: int|
                    covered(rows[r].spans@, x + SHIFT) <==> #[trigger] is_green(
                        points@,
                        x,
                        rows[r].y as int,
                    ),
        decreases n - k,
    {
        let y: i64 = points[k].y as i64;
        let here = match build_row(points, y) {
            Ok(spans) => spans,
            Err(e) => {
                return Err(e);
            },
        };
        let after = match build_row(points, y + 1) {
            Ok(spans) => spans,
            Err(e) => {
                return Err(e);
            },
        };
        let ghost before = rows@;
        rows.push(Row { y, spans: here });
        rows.push(Row { y: y + 1, spans: after });
        proof {
            assert forall|j: int| 0 <= j < k + 1 implies (#[trigger] rows[2 * j]).y == points[j].y
                && rows[2 * j + 1].y == points[j].y + 1 by {
                if j < k {
                    assert(rows[2 * j] == before[2 * j]);
                    assert(rows[2 * j + 1] == before[2 * j + 1]);
                }
            }
            assert forall|r: int| 0 <= r < rows.len() implies separated(
                (#[trigger] rows[r]).spans@,
            ) && forall|x: int|
                covered(rows[r].spans@, x + SHIFT) <==> #[trigger] is_green(
                    points@,
                    x,
                    rows[r].y as int,
                ) by {
                if r < before.len() {
                    assert(rows[r] == before[r]);
                }
            }
        }
        k += 1;
    }
    Ok(Coverage { rows })
}

/// The lines of the loop cross a row as they cross the last row before
/// it in which the tiles of the loop may change.
proof fn lemma_same_crossings(points: Seq<Tile>, k: int, x: int, y: int, last: int)
    requires
        0 <= k <= points.len(),
        last <= y,
        forall|b: int| #[trigger] is_break(points, b) && b <= y ==> b <= last,
    ensures
        crossings_left(points, k, x, y) == crossings_left(points, k, x, last),
        crossings_at(points, k, x, y) == crossings_at(points, k, x, last),
    decreases k,
{
    if k > 0 {
        lemma_same_crossings(points, k - 1, x, y, last);
        let i = k - 1;
        let next = next_index(points.len() as int, i);
        assert(is_break(points, points[i].y as int));
        assert(is_break(points, points[next].y as int));
    }
}

/// A tile is red or green if the tile in its column is, in the last row
/// before it in which the tiles of the loop may change.
proof fn lemma_row_uniform(points: Seq<Tile>, x: int, y: int, last: int)
    requires
        last <= y,
        is_green(points, x, last),
        forall|b: int| #[trigger] is_break(points, b) && b <= y ==> b <= last,
    ensures
        is_green(points, x, y),
{
    let n = points.len() as int;
    lemma_same_crossings(points, n, x, y, last);
    if last < y && level_before(points, n, x, last) {
        let i = choose|i: int| 0 <= i < n && on_level(points, i, x, last);
        assert(is_break(points, points[i].y + 1));
    }
}

/// The largest of the rows up to `y` in which the tiles of the first `k`
/// red tiles make the loop change, or `floor` if none is larger.
proof fn lemma_largest_break(points: Seq<Tile>, k: int, y: int, floor: int) -> (last: int)
    requires
        0 <= k <= points.len(),
        floor <= y,
    ensures
        floor <= last <= y,
        last == floor || is_break(points, last),
        forall|j: int|
            0 <= j < k ==> ((#[trigger] points[j]).y <= y ==> points[j].y <= last) && (points[j].y
                + 1 <= y ==> points[j].y + 1 <= last),
    decreases k,
{
    if k == 0 {
        floor
    } else {
        let earlier = lemma_largest_break(points, k - 1, y, floor);
        let a = points[k - 1].y as int;
        let with_row = if a <= y && a > earlier { a } else { earlier };
        let with_next = if a + 1 <= y && a + 1 > with_row { a + 1 } else { with_row };
        assert(is_break(points, a));
        assert(is_break(points, a + 1));
        with_next
    }
}

/// Whether every tile of the rectangle between two red tiles is red or
/// green.
fn rect_is_green(points: &Vec<Tile>, coverage: &Coverage, i: usize, j: usize) -> (r: bool)
    requires
        coverage.matches(points@),
        i < points.len(),
        j < points.len(),
    ensures
        r == rect_green(points@, points[i as int], points[j as int]),
{
    let a = points[i];
    let b = points[j];
    let x_lo: i32 = if a.x <= b.x { a.x } else { b.x };
    let x_hi: i32 = if a.x <= b.x { b.x } else { a.x };
    let y_lo: i64 = if a.y <= b.y { a.y as i64 } else { b.y as i64 };
    let y_hi: i64 = if a.y <= b.y { b.y as i64 } else { a.y as i64 };
    let lo: u64 = shifted(x_lo);
    let hi: u64 = shifted(x_hi);
    let mut r: usize = 0;
    while r < coverage.rows.len()
        invariant
            r <= coverage.rows.len(),
            coverage.matches(points@),
            lo == x_lo + SHIFT,
            hi == x_hi + SHIFT,
            x_lo <= x_hi,
            a == points[i as int],
            b == points[j as int],
            x_lo == if a.x <= b.x { a.x } else { b.x },
            x_hi == if a.x <= b.x { b.x } else { a.x },
            y_lo == if a.y <= b.y { a.y } else { b.y },
            y_hi == if a.y <= b.y { b.y } else { a.y },
            forall|q: int, x: int|
                0 <= q < r && y_lo <= (#[trigger] coverage.rows[q]).y <= y_hi && x_lo <= x <= x_hi
                    ==> #[trigger] is_green(points@, x, coverage.rows[q].y as int),
        decreases coverage.rows.len() - r,
    {
        let row = &coverage.rows[r];
        if y_lo <= row.y && row.y <= y_hi {
            if !covers_interval(&row.spans, lo, hi) {
                proof {
                    let v = choose|v: int| lo <= v <= hi && !covered(row.spans@, v);
                    let x = v - SHIFT;
                    assert(covered(row.spans@, x + SHIFT) <==> is_green(points@, x, row.y as int));
                    assert(!is_green(points@, x, row.y as int));
                }
                return false;
            }
            proof {
                assert forall|x: int| x_lo <= x <= x_hi implies #[trigger] is_green(
                    points@,
                    x,
                    row.y as int,
                ) by {
                    assert(covered(row.spans@, x + SHIFT));
                    assert(covered(row.spans@, x + SHIFT) <==> is_green(points@, x, row.y as int));
                }
            }
        }
        r += 1;
    }
    proof {
        assert forall|x: int, y: int|
            (a.x <= x <= b.x || b.x <= x <= a.x) && (a.y <= y <= b.y || b.y <= y
                <= a.y) implies #[trigger] is_green(points@, x, y) by {
            let n = points.len() as int;
            let last = lemma_largest_break(points@, n, y, y_lo as int);
            assert(is_break(points@, y_lo as int)) by {
                if a.y <= b.y {
                    assert(points@[i as int].y == y_lo);
                } else {
                    assert(points@[j as int].y == y_lo);
                }
            }
            assert(is_break(points@, last));
            let k = choose|k: int|
                0 <= k < n && (last == (#[trigger] points@[k]).y || last == points@[k].y + 1);
            let q = if last == points@[k].y { 2 * k } else { 2 * k + 1 };
            assert(coverage.rows[2 * k].y == points@[k].y);
            assert(coverage.rows[q].y == last);
            assert(is_green(points@, x, coverage.rows[q].y as int));
            assert forall|c: int| #[trigger] is_break(points@, c) && c <= y implies c <= last by {
                let m = choose|m: int|
                    0 <= m < n && (c == (#[trigger] points@[m]).y || c == points@[m].y + 1);
                assert(points@[m].y <= y ==> points@[m].y <= last);
            }
            lemma_row_uniform(points@, x, y, last);
        }
    }
    true
}

/// The largest area of a rectangle between two red tiles that holds red
/// and green tiles only.
pub fn max_area_within_green(points: &Vec<Tile>, coverage: &Coverage) -> (best: u128)
    requires
        coverage.matches(points@),
    ensures
        is_max_green(points@, best as int),
{
    let n: usize = points.len();
    let mut best: u128 = 0;
    let mut i: usize = 0;
    while i < n
        invariant
            i <= n,
            n == points.len(),
            coverage.matches(points@),
            best == 0 || exists|a: int, b: int|
                0 <= a < b < n && rect_green(points@, points[a], points[b]) && #[trigger] area(
                    points[a],
                    points[b],
                ) == best,
            forall|a: int, b: int|
                0 <= a < i && a < b < n && rect_green(points@, points[a], points[b])
                    ==> #[trigger] area(points[a], points[b]) <= best,
        decreases n - i,
    {
        let mut j: usize = i + 1;
        while j < n
            invariant
                i < j <= n,
                n == points.len(),
                coverage.matches(points@),
                best == 0 || exists|a: int, b: int|
                    0 <= a < b < n && rect_green(points@, points[a], points[b]) && #[trigger] area(
                        points[a],
                        points[b],
                    ) == best,
                forall|a: int, b: int|
                    0 <= a < i && a < b < n && rect_green(points@, points[a], points[b])
                        ==> #[trigger] area(points[a], points[b]) <= best,
                forall|b: int|
                    i < b < j && rect_green(points@, points[i as int], points[b])
                        ==> #[trigger] area(points[i as int], points[b]) <= best,
            decreases n - j,
        {
            let found = rect_area(&points[i], &points[j]);
            if found > best && rect_is_green(points, coverage, i, j) {
                best = found;
            }
            j += 1;
        }
        i += 1;
    }
    best
}

/// What holds of the second answer for a text.
pub open spec fn part2_holds(input: &str, r: Result<u64, Error>) -> bool {
    match spec_parse_points(input.spec_bytes()) {
        Err(e) => r == Err::<u64, Error>(Error::Parse(e)),
        Ok(points) => if points.len() < 3 {
            r == Err::<u64, Error>(Error::TooFewForLoop)
        } else if !loop_is_even(points) {
            r == Err::<u64, Error>(Error::Malformed)
        } else {
            match r {
                Ok(best) => is_max_green(points, best as int),
                Err(e) => e == Error::AreaOverflow && !exists|best: u64|
                    is_max_green(points, best as int),
            }
        },
    }
}

/// The largest area of a rectangle between two red tiles that holds red
/// and green tiles only.
pub fn part2(input: &str) -> (r: Result<u64, Error>)
    ensures
        part2_holds(input, r),
{
    let points = match parse_points(input.as_bytes()) {
        Ok(points) => points,
        Err(e) => {
            return Err(Error::Parse(e));
        },
    };
    let coverage = match build_coverage(&points) {
        Ok(coverage) => coverage,
        Err(e) => {
            return Err(e);
        },
    };
    let best = max_area_within_green(&points, &coverage);
    if best <= u64::MAX as u128 {
        Ok(best as u64)
    } else {
        proof {
            lemma_green_overflow(points@, best as int);
        }
        Err(Error::AreaOverflow)
    }
}

/// A largest area that does not fit in 64 bits is no number of 64 bits.
proof fn lemma_green_overflow(points: Seq<Tile>, best: int)
    requires
        is_max_green(points, best),
        best > u64::MAX,
    ensures
        !exists|other: u64| is_max_green(points, other as int),
{
    assert forall|other: u64| !is_max_green(points, other as int) by {
        if is_max_green(points, other as int) {
            let (i, j) = choose|i: int, j: int|
                0 <= i < j < points.len() && rect_green(points, points[i], points[j])
                    && #[trigger] area(points[i], points[j]) == best;
            assert(area(points[i], points[j]) <= other);
        }
    }
}

/// What holds of both answers for a text.
pub open spec fn both_holds(input: &str, r: Result<(u64, u64), Error>) -> bool {
    match spec_parse_points(input.spec_bytes()) {
        Err(e) => r == Err::<(u64, u64), Error>(Error::Parse(e)),
        Ok(points) => if points.len() < 2 {
            r == Err::<(u64, u64), Error>(Error::TooFewTiles)
        } else if points.len() < 3 {
            r == Err::<(u64, u64), Error>(Error::TooFewForLoop)
        } else if !loop_is_even(points) {
            r == Err::<(u64, u64), Error>(Error::Malformed)
        } else {
            match r {
                Ok((first, second)) => is_max_area(points, first as int) && is_max_green(
                    points,
                    second as int,
                ),
                Err(e) => e == Error::AreaOverflow && (!(exists|best: u64|
                    is_max_area(points, best as int)) || !(exists|best: u64|
                    is_max_green(points, best as int))),
            }
        },
    }
}

/// Both answers.
pub fn both(input: &str) -> (r: Result<(u64, u64), Error>)
    ensures
        both_holds(input, r),
{
    let points = match parse_points(input.as_bytes()) {
        Ok(points) => points,
        Err(e) => {
            return Err(Error::Parse(e));
        },
    };
    if points.len() < 2 {
        return Err(Error::TooFewTiles);
    }
    let first = max_area_any(&points);
    let coverage = match build_coverage(&points) {
        Ok(coverage) => coverage,
        Err(e) => {
            return Err(e);
        },
    };
    let second = max_area_within_green(&points, &coverage);
    if first > u64::MAX as u128 {
        proof {
            assert forall|other: u64| !is_max_area(points@, other as int) by {
                if is_max_area(points@, other as int) {
                    let (i, j) = choose|i: int, j: int|
                        0 <= i < j < points.len() && #[trigger] area(points[i], points[j]) == first;
                    assert(area(points[i], points[j]) <= other);
                }
            }
        }
        return Err(Error::AreaOverflow);
    }
    if second > u64::MAX as u128 {
        proof {
            lemma_green_overflow(points@, second as int);
        }
        return Err(Error::AreaOverflow);
    }
    Ok((first as u64, second as u64))
}

} // verus!
