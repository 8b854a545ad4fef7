//! Rolls of paper on a grid, and which of them can be reached.
//!
//! A roll `@` can be reached while fewer than four of the eight places
//! around it hold a roll. The first answer counts the rolls that can be
//! reached. The second takes away rolls that can be reached until none
//! is left that can, and counts the rolls taken.

use vstd::prelude::*;
use vstd::string::StringSliceAdditionalSpecFns;
use crate::ascii::{AT, CR, DOT};
use crate::lines::{line_views, spec_lines, split_lines};

verus! {

/// Why a text has no answer.
#[derive(Copy, Clone, Debug, PartialEq, Eq, Structural)]
pub enum Error {
    /// This byte is neither `.` nor `@`.
    InvalidCharacter(u8),
    /// A row is not as wide as the first.
    RowWidth,
    /// The text holds no row.
    Empty,
    /// The count does not fit in the answer.
    CountTooLarge,
}

/// The places of a line from the `i`-th byte on, after those in `acc`:
/// 1 for a roll, 0 for an empty place. Carriage returns are passed over.
pub open spec fn spec_row(line: Seq<u8>, i: int, acc: Seq<u8>) -> Result<Seq<u8>, Error>
    decreases line.len() - i,
{
    if i < 0 || i >= line.len() {
        Ok(acc)
    } else if line[i] == CR {
        spec_row(line, i + 1, acc)
    } else if line[i] == DOT {
        spec_row(line, i + 1, acc.push(0u8))
    } else if line[i] == AT {
        spec_row(line, i + 1, acc.push(1u8))
    } else {
        Err(Error::InvalidCharacter(line[i]))
    }
}

/// The rows of the lines from the `i`-th on, after those in `rows`. Lines
/// without a place are passed over.
pub open spec fn spec_rows(lines: Seq<Seq<u8>>, i: int, rows: Seq<Seq<u8>>) -> Result<
    Seq<Seq<u8>>,
    Error,
>
    decreases lines.len() - i,
{
    if i < 0 || i >= lines.len() {
        if rows.len() == 0 {
            Err(Error::Empty)
        } else {
            Ok(rows)
        }
    } else {
        match spec_row(lines[i], 0, Seq::empty()) {
            Err(e) => Err(e),
            Ok(row) => if row.len() == 0 {
                spec_rows(lines, i + 1, rows)
            } else if rows.len() > 0 && row.len() != rows[0].len() {
                Err(Error::RowWidth)
            } else {
                spec_rows(lines, i + 1, rows.push(row))
            },
        }
    }
}

/// The grid that a text holds.
pub open spec fn spec_parse_grid(s: Seq<u8>) -> Result<Seq<Seq<u8>>, Error> {
    spec_rows(spec_lines(s), 0, Seq::empty())
}

/// A grid has at least one row, rows of one width with at least one
/// place, and 0 or 1 in each place.
pub open spec fn is_grid(g: Seq<Seq<u8>>) -> bool {
    &&& g.len() > 0
    &&& g[0].len() > 0
    &&& forall|r: int| 0 <= r < g.len() ==> (#[trigger] g[r]).len() == g[0].len()
    &&& forall|r: int, c: int| 0 <= r < g.len() && 0 <= c < g[r].len() ==> #[trigger] g[r][c] <= 1
}

/// What the vectors hold.
pub open spec fn grid_view(cells: Seq<Vec<u8>>) -> Seq<Seq<u8>> {
    Seq::new(cells.len(), |r: int| cells[r]@)
}

/// The number in a place, and 0 outside the grid.
pub open spec fn cell(g: Seq<Seq<u8>>, r: int, c: int) -> int {
    if 0 <= r < g.len() && 0 <= c < g[r].len() {
        g[r][c] as int
    } else {
        0
    }
}

/// How many rolls lie around a place.
pub open spec fn neighbors(g: Seq<Seq<u8>>, r: int, c: int) -> int {
    cell(g, r - 1, c - 1) + cell(g, r - 1, c) + cell(g, r - 1, c + 1) + cell(g, r, c - 1) + cell(
        g,
        r,
        c + 1,
    ) + cell(g, r + 1, c - 1) + cell(g, r + 1, c) + cell(g, r + 1, c + 1)
}

/// A roll that can be reached.
pub open spec fn accessible(g: Seq<Seq<u8>>, r: int, c: int) -> bool {
    cell(g, r, c) == 1 && neighbors(g, r, c) < 4
}

/// How many of the first `k` places of row `r` hold a roll that can be
/// reached.
pub open spec fn row_accessible(g: Seq<Seq<u8>>, r: int, k: int) -> int
    decreases k,
{
    if k <= 0 {
        0
    } else {
        row_accessible(g, r, k - 1) + if accessible(g, r, k - 1) { 1int } else { 0int }
    }
}

/// How many rolls in the first `k` rows can be reached.
pub open spec fn count_accessible(g: Seq<Seq<u8>>, k: int) -> int
    decreases k,
{
    if k <= 0 {
        0
    } else {
        count_accessible(g, k - 1) + row_accessible(g, k - 1, g[k - 1].len() as int)
    }
}

/// Reads the places of one line.
fn parse_row(line: &[u8]) -> (r: Result<Vec<u8>, Error>)
    ensures
        match (r, spec_row(line@, 0, Seq::empty())) {
            (Ok(row), Ok(s)) => row@ == s && forall|c: int| 0 <= c < row.len() ==> row[c] <= 1,
            (Err(e), Err(f)) => e == f,
            _ => false,
        },
{
    let mut row: Vec<u8> = Vec::new();
    let mut i: usize = 0;
    while i < line.len()
        invariant
            i <= line.len(),
            spec_row(line@, 0, Seq::empty()) == spec_row(line@, i as int, row@),
            forall|c: int| 0 <= c < row.len() ==> row[c] <= 1,
        decreases line.len() - i,
    {
        let b = line[i];
        if b == DOT {
            row.push(0);
        } else if b == AT {
            row.push(1);
        } else if b != CR {
            return Err(Error::InvalidCharacter(b));
        }
        i += 1;
    }
    Ok(row)
}

/// Reads the grid.
pub fn parse_grid(bytes: &[u8]) -> (r: Result<Vec<Vec<u8>>, Error>)
    ensures
        match (r, spec_parse_grid(bytes@)) {
            (Ok(cells), Ok(g)) => grid_view(cells@) == g && is_grid(g),
            (Err(e), Err(f)) => e == f,
            _ => false,
        },
{
    let lines = split_lines(bytes);
    let mut cells: Vec<Vec<u8>> = Vec::new();
    let mut i: usize = 0;
    proof {
        assert(grid_view(cells@) =~= Seq::<Seq<u8>>::empty());
    }
    while i < lines.len()
        invariant
            i <= lines.len(),
            line_views(lines@) == spec_lines(bytes@),
            spec_parse_grid(bytes@) == spec_rows(spec_lines(bytes@), i as int, grid_view(cells@)),
            cells.len() > 0 ==> is_grid(grid_view(cells@)),
        decreases lines.len() - i,
    {
        proof {
            assert(line_views(lines@)[i as int] == lines[i as int]@);
        }
        let row = match parse_row(lines[i]) {
            Ok(row) => row,
            Err(e) => {
                return Err(e);
            },
        };
        if row.len() > 0 {
            if cells.len() > 0 && row.len() != cells[0].len() {
                return Err(Error::RowWidth);
            }
            let ghost before = grid_view(cells@);
            let ghost added = row@;
            cells.push(row);
            proof {
                assert(grid_view(cells@) =~= before.push(added));
            }
        }
        i += 1;
    }
    if cells.len() == 0 {
        return Err(Error::Empty);
    }
    Ok(cells)
}

/// The number in a place, and 0 outside the grid. The place one row up or
/// one column to the left is asked for with `up` or `left`.
fn cell_at(cells: &Vec<Vec<u8>>, r: usize, c: usize, up: bool, left: bool) -> (v: u8)
    requires
        is_grid(grid_view(cells@)),
    ensures
        v == cell(
            grid_view(cells@),
            if up { r - 1 } else { r as int },
            if left { c - 1 } else { c as int },
        ),
        v <= 1,
{
    if (up && r == 0) || (left && c == 0) {
        return 0;
    }
    let row: usize = if up { r - 1 } else { r };
    let col: usize = if left { c - 1 } else { c };
    if row < cells.len() && col < cells[row].len() {
        proof {
            assert(grid_view(cells@)[row as int][col as int] <= 1);
        }
        cells[row][col]
    } else {
        0
    }
}

/// Counts the rolls around a place.
pub fn neighbors_at(cells: &Vec<Vec<u8>>, r: usize, c: usize) -> (count: u8)
    requires
        is_grid(grid_view(cells@)),
        r < cells.len(),
        c < cells[0].len(),
    ensures
        count == neighbors(grid_view(cells@), r as int, c as int),
        count <= 8,
{
    cell_at(cells, r, c, true, true) + cell_at(cells, r, c, true, false) + cell_at(
        cells,
        r,
        c + 1,
        true,
        false,
    ) + cell_at(cells, r, c, false, true) + cell_at(cells, r, c + 1, false, false) + cell_at(
        cells,
        r + 1,
        c,
        false,
        true,
    ) + cell_at(cells, r + 1, c, false, false) + cell_at(cells, r + 1, c + 1, false, false)
}

/// For each roll, how many rolls lie around it; 0 for an empty place.
pub fn neighbor_counts(cells: &Vec<Vec<u8>>) -> (counts: Vec<Vec<u8>>)
    requires
        is_grid(grid_view(cells@)),
    ensures
        counts.len() == cells.len(),
        forall|r: int| 0 <= r < counts.len() ==> (#[trigger] counts[r]).len() == cells[0].len(),
        forall|r: int, c: int|
            0 <= r < cells.len() && 0 <= c < cells[0].len() ==> #[trigger] counts[r][c] == if cell(
                grid_view(cells@),
                r,
                c,
            ) == 1 {
                neighbors(grid_view(cells@), r, c)
            } else {
                0
            },
{
    let height: usize = cells.len();
    let width: usize = cells[0].len();
    let mut counts: Vec<Vec<u8>> = Vec::new();
    let mut r: usize = 0;
    while r < height
        invariant
            r <= height,
            height == cells.len(),
            width == cells[0].len(),
            is_grid(grid_view(cells@)),
            counts.len() == r,
            forall|k: int| 0 <= k < r ==> (#[trigger] counts[k]).len() == width,
            forall|k: int, c: int|
                0 <= k < r && 0 <= c < width ==> #[trigger] counts[k][c] == if cell(
                    grid_view(cells@),
                    k,
                    c,
                ) == 1 {
                    neighbors(grid_view(cells@), k, c)
                } else {
                    0
                },
        decreases height - r,
    {
        let mut row: Vec<u8> = Vec::new();
        let mut c: usize = 0;
        proof {
            assert(grid_view(cells@)[r as int].len() == width);
        }
        while c < width
            invariant
                c <= width,
                r < height,
                height == cells.len(),
                width == cells[0].len(),
                cells[r as int].len() == width,
                is_grid(grid_view(cells@)),
                row.len() == c,
                forall|k: int|
                    0 <= k < c ==> #[trigger] row[k] == if cell(grid_view(cells@), r as int, k)
                        == 1 {
                        neighbors(grid_view(cells@), r as int, k)
                    } else {
                        0
                    },
            decreases width - c,
        {
            if cells[r][c] == 1 {
                row.push(neighbors_at(cells, r, c));
            } else {
                proof {
                    assert(grid_view(cells@)[r as int][c as int] <= 1);
                }
                row.push(0);
            }
            c += 1;
        }
        counts.push(row);
        r += 1;
    }
    counts
}

/// Counts the rolls that can be reached.
pub fn solve_part1(cells: &Vec<Vec<u8>>) -> (count: u128)
    requires
        is_grid(grid_view(cells@)),
    ensures
        count == count_accessible(grid_view(cells@), cells.len() as int),
{
    let height: usize = cells.len();
    let width: usize = cells[0].len();
    let counts = neighbor_counts(cells);
    let mut total: u128 = 0;
    let mut r: usize = 0;
    let ghost g = grid_view(cells@);
    while r < height
        invariant
            r <= height,
            height == cells.len(),
            width == cells[0].len(),
            g == grid_view(cells@),
            is_grid(g),
            counts.len() == height,
            forall|k: int| 0 <= k < height ==> (#[trigger] counts[k]).len() == width,
            forall|k: int, c: int|
                0 <= k < height && 0 <= c < width ==> #[trigger] counts[k][c] == if cell(g, k, c)
                    == 1 {
                    neighbors(g, k, c)
                } else {
                    0
                },
            total == count_accessible(g, r as int),
            total <= r * width,
        decreases height - r,
    {
        let mut in_row: usize = 0;
        let mut c: usize = 0;
        proof {
            assert(g[r as int].len() == width);
        }
        while c < width
            invariant
                c <= width,
                r < height,
                height == cells.len(),
                width == cells[0].len(),
                cells[r as int].len() == width,
                g == grid_view(cells@),
                is_grid(g),
                counts.len() == height,
                counts[r as int].len() == width,
                forall|k: int|
                    0 <= k < width ==> #[trigger] counts[r as int][k] == if cell(g, r as int, k)
                        == 1 {
                        neighbors(g, r as int, k)
                    } else {
                        0
                    },
                in_row == row_accessible(g, r as int, c as int),
                in_row <= c,
            decreases width - c,
        {
            if cells[r][c] == 1 && counts[r][c] < 4 {
                in_row += 1;
            }
            proof {
                assert(g[r as int][c as int] <= 1);
            }
            c += 1;
        }
        proof {
            assert(r * width + width == (r + 1) * width) by (nonlinear_arith);
            assert((r + 1) * width <= usize::MAX * usize::MAX) by (nonlinear_arith)
                requires
                    r + 1 <= usize::MAX,
                    width <= usize::MAX,
            ;
        }
        total += in_row as u128;
        r += 1;
    }
    total
}

/// What holds of the first answer for a text.
pub open spec fn part1_holds(input: &str, r: Result<usize, Error>) -> bool {
    match (r, spec_parse_grid(input.spec_bytes())) {
        (Ok(count), Ok(g)) => count == count_accessible(g, g.len() as int),
        (Err(Error::CountTooLarge), Ok(g)) => count_accessible(g, g.len() as int) > usize::MAX,
        (Err(e), Err(f)) => e == f,
        _ => false,
    }
}

/// Counts the rolls that can be reached.
pub fn part1(input: &str) -> (r: Result<usize, Error>)
    ensures
        part1_holds(input, r),
{
    let cells = match parse_grid(input.as_bytes()) {
        Ok(cells) => cells,
        Err(e) => {
            return Err(e);
        },
    };
    let count = solve_part1(&cells);
    if count <= usize::MAX as u128 {
        Ok(count as usize)
    } else {
        Err(Error::CountTooLarge)
    }
}

/// Two grids of the same height with rows of the same widths.
pub open spec fn same_shape(a: Seq<Seq<u8>>, b: Seq<Seq<u8>>) -> bool {
    &&& a.len() == b.len()
    &&& forall|r: int| 0 <= r < a.len() ==> (#[trigger] a[r]).len() == b[r].len()
}

/// Every roll of `s` is a roll of `g`.
pub open spec fn within(s: Seq<Seq<u8>>, g: Seq<Seq<u8>>) -> bool {
    &&& same_shape(s, g)
    &&& forall|r: int, c: int|
        0 <= r < s.len() && 0 <= c < s[r].len() ==> #[trigger] s[r][c] <= g[r][c]
}

/// No roll can be reached.
pub open spec fn stable(s: Seq<Seq<u8>>) -> bool {
    forall|r: int, c: int|
        0 <= r < s.len() && 0 <= c < s[r].len() && #[trigger] s[r][c] == 1 ==> neighbors(s, r, c)
            >= 4
}

/// `f` is what is left of `g` when rolls are taken away until none can
/// be reached: of the rolls of `g` it holds the largest set in which no
/// roll can be reached.
pub open spec fn is_core(f: Seq<Seq<u8>>, g: Seq<Seq<u8>>) -> bool {
    &&& within(f, g)
    &&& stable(f)
    &&& forall|s: Seq<Seq<u8>>| #[trigger] within(s, g) && stable(s) ==> within(s, f)
}

/// How many rolls the first `k` places of a row hold.
pub open spec fn row_sum(row: Seq<u8>, k: int) -> int
    decreases k,
{
    if k <= 0 {
        0
    } else {
        row_sum(row, k - 1) + row[k - 1]
    }
}

/// How many rolls the first `k` rows hold.
pub open spec fn grid_sum(g: Seq<Seq<u8>>, k: int) -> int
    decreases k,
{
    if k <= 0 {
        0
    } else {
        grid_sum(g, k - 1) + row_sum(g[k - 1], g[k - 1].len() as int)
    }
}

/// How many rolls a grid holds.
pub open spec fn rolls(g: Seq<Seq<u8>>) -> int {
    grid_sum(g, g.len() as int)
}

/// Only one grid is what is left of `g`.
pub proof fn lemma_core_unique(f: Seq<Seq<u8>>, h: Seq<Seq<u8>>, g: Seq<Seq<u8>>)
    requires
        is_core(f, g),
        is_core(h, g),
    ensures
        f == h,
{
    assert(within(f, h));
    assert(within(h, f));
    assert forall|r: int| 0 <= r < f.len() implies f[r] == h[r] by {
        assert(f[r].len() == h[r].len());
        assert forall|c: int| 0 <= c < f[r].len() implies f[r][c] == h[r][c] by {
            assert(f[r][c] <= h[r][c]);
            assert(h[r][c] <= f[r][c]);
        }
        assert(f[r] =~= h[r]);
    }
    assert(f =~= h);
}

/// The grid without the roll at row `r`, column `c`.
pub open spec fn without_roll(g: Seq<Seq<u8>>, r: int, c: int) -> Seq<Seq<u8>> {
    g.update(r, g[r].update(c, 0u8))
}

/// Whether the place at `x`, `y` is one of the first `k` of the nine
/// places around and at `r`, `c`, the place itself left out.
pub open spec fn touched(k: int, r: int, c: int, x: int, y: int) -> bool {
    let dx = x - r + 1;
    let dy = y - c + 1;
    0 <= dx < 3 && 0 <= dy < 3 && dx * 3 + dy != 4 && dx * 3 + dy < k
}

proof fn lemma_row_sum_update(row: Seq<u8>, c: int, k: int)
    requires
        0 <= c < row.len(),
        0 <= k <= row.len(),
    ensures
        row_sum(row.update(c, 0u8), k) == row_sum(row, k) - if c < k { row[c] as int } else { 0 },
    decreases k,
{
    if k > 0 {
        lemma_row_sum_update(row, c, k - 1);
    }
}

proof fn lemma_grid_sum_update(g: Seq<Seq<u8>>, r: int, c: int, k: int)
    requires
        0 <= r < g.len(),
        0 <= c < g[r].len(),
        0 <= k <= g.len(),
    ensures
        grid_sum(without_roll(g, r, c), k) == grid_sum(g, k) - if r < k { g[r][c] as int } else { 0 },
    decreases k,
{
    if k > 0 {
        lemma_grid_sum_update(g, r, c, k - 1);
        if k - 1 == r {
            lemma_row_sum_update(g[r], c, g[r].len() as int);
        }
    }
}

proof fn lemma_sums_nonnegative(g: Seq<Seq<u8>>, k: int)
    ensures
        grid_sum(g, k) >= 0,
    decreases k,
{
    if k > 0 {
        lemma_sums_nonnegative(g, k - 1);
        lemma_row_nonnegative(g[k - 1], g[k - 1].len() as int);
    }
}

proof fn lemma_row_nonnegative(row: Seq<u8>, k: int)
    ensures
        row_sum(row, k) >= 0,
    decreases k,
{
    if k > 0 {
        lemma_row_nonnegative(row, k - 1);
    }
}

/// Taking a roll away takes one from the count of each roll around it
/// and leaves the other counts as they are.
proof fn lemma_neighbors_without(g: Seq<Seq<u8>>, r: int, c: int, x: int, y: int)
    requires
        is_grid(g),
        0 <= r < g.len(),
        0 <= c < g[0].len(),
        g[r][c] == 1,
        x != r || y != c,
    ensures
        neighbors(without_roll(g, r, c), x, y) == neighbors(g, x, y) - if touched(9, r, c, x, y) {
            1int
        } else {
            0int
        },
        is_grid(without_roll(g, r, c)),
        within(without_roll(g, r, c), g),
{
    let h = without_roll(g, r, c);
    assert(g[r].len() == g[0].len());
    assert forall|a: int, b: int| cell(h, a, b) == cell(g, a, b) - if a == r && b == c {
        1int
    } else {
        0int
    } by {
        if 0 <= a < g.len() {
            assert(g[a].len() == g[0].len());
        }
    }
    assert forall|a: int| 0 <= a < h.len() implies (#[trigger] h[a]).len() == h[0].len() by {
        assert(g[a].len() == g[0].len());
    }
    assert forall|a: int, b: int| 0 <= a < h.len() && 0 <= b < h[a].len() implies #[trigger] h[a][b]
        <= g[a][b] && h[a][b] <= 1 by {
        assert(g[a][b] <= 1);
    }
}

/// The position `d - 1` places after `base`, if it is below `limit`.
fn shifted(base: usize, d: usize, limit: usize) -> (r: Option<usize>)
    requires
        base < limit,
        d < 3,
    ensures
        match r {
            Some(v) => v == base + d - 1 && v < limit,
            None => base + d - 1 < 0 || base + d - 1 >= limit,
        },
{
    if d == 0 {
        if base == 0 {
            None
        } else {
            Some(base - 1)
        }
    } else if d == 1 {
        Some(base)
    } else if base + 1 < limit {
        Some(base + 1)
    } else {
        None
    }
}

/// Takes the roll at `r`, `c` out of the counts of the rolls around it,
/// and queues each of them whose count falls to three.
fn update_neighbors(
    r: usize,
    c: usize,
    grid: &Vec<Vec<u8>>,
    counts: &mut Vec<Vec<u8>>,
    queue: &mut Vec<(usize, usize)>,
    Ghost(before): Ghost<Seq<Seq<u8>>>,
)
    requires
        is_grid(before),
        r < before.len(),
        c < before[0].len(),
        before[r as int][c as int] == 1,
        grid_view(grid@) == without_roll(before, r as int, c as int),
        old(counts).len() == before.len(),
        forall|x: int| 0 <= x < before.len() ==> (#[trigger] old(counts)[x]).len() == before[0].len(),
        forall|x: int, y: int|
            0 <= x < before.len() && 0 <= y < before[0].len() && before[x][y] == 1 ==> #[trigger] old(counts)[x][y] == neighbors(before, x, y),
        forall|q: int|
            0 <= q < old(queue).len() ==> (#[trigger] old(queue)[q]).0 < before.len() && old(queue)[q].1 < before[0].len(),
    ensures
        final(counts).len() == before.len(),
        forall|x: int| 0 <= x < before.len() ==> (#[trigger] final(counts)[x]).len() == before[0].len(),
        forall|x: int, y: int|
            0 <= x < before.len() && 0 <= y < before[0].len() && grid_view(grid@)[x][y] == 1
                ==> #[trigger] final(counts)[x][y] == neighbors(grid_view(grid@), x, y),
        old(queue).len() <= final(queue).len() <= old(queue).len() + 8,
        forall|q: int| 0 <= q < old(queue).len() ==> final(queue)[q] == old(queue)[q],
        forall|q: int|
            0 <= q < final(queue).len() ==> (#[trigger] final(queue)[q]).0 < before.len() && final(queue)[q].1 < before[0].len(),
        forall|x: int, y: int|
            0 <= x < before.len() && 0 <= y < before[0].len() && grid_view(grid@)[x][y] == 1
                && #[trigger] final(counts)[x][y] < 4 && old(counts)[x][y] >= 4 ==> exists|q: int|
                old(queue).len() <= q < final(queue).len() && final(queue)[q] == (
                    x as usize,
                    y as usize,
                ),
{
    let ghost cur = grid_view(grid@);
    let ghost start = queue@;
    let ghost given = counts@;
    proof {
        assert(cur.len() == before.len());
        assert(cur[0].len() == before[0].len());
        assert forall|x: int| 0 <= x < cur.len() implies (#[trigger] cur[x]).len()
            == before[0].len() by {
            assert(before[x].len() == before[0].len());
        }
        assert(cur[0] == grid[0]@);
        assert forall|x: int| 0 <= x < grid.len() implies (#[trigger] grid[x]).len()
            == before[0].len() by {
            assert(cur[x] == grid[x]@);
        }
    }
    let height: usize = grid.len();
    let width: usize = grid[0].len();
    let mut k: usize = 0;
    while k < 9
        invariant
            k <= 9,
            is_grid(before),
            r < before.len(),
            c < before[0].len(),
            before[r as int][c as int] == 1,
            cur == grid_view(grid@),
            cur == without_roll(before, r as int, c as int),
            height == before.len(),
            width == before[0].len(),
            height == grid.len(),
            forall|x: int| 0 <= x < height ==> (#[trigger] grid[x]).len() == width,
            counts.len() == height,
            given.len() == height,
            forall|x: int| 0 <= x < height ==> (#[trigger] counts[x]).len() == width,
            forall|x: int| 0 <= x < height ==> (#[trigger] given[x]).len() == width,
            forall|x: int, y: int|
                0 <= x < height && 0 <= y < width && before[x][y] == 1 ==> #[trigger] given[x][y]
                    == neighbors(before, x, y),
            forall|x: int, y: int|
                0 <= x < height && 0 <= y < width && cur[x][y] == 1 ==> #[trigger] counts[x][y]
                    == given[x][y] - if touched(k as int, r as int, c as int, x, y) {
                    1int
                } else {
                    0int
                },
            start.len() <= queue.len() <= start.len() + if k > 4 { k - 1 } else { k as int },
            forall|q: int| 0 <= q < start.len() ==> queue[q] == start[q],
            forall|q: int|
                0 <= q < queue.len() ==> (#[trigger] queue[q]).0 < height && queue[q].1 < width,
            forall|x: int, y: int|
                0 <= x < height && 0 <= y < width && cur[x][y] == 1 && #[trigger] counts[x][y] < 4
                    && given[x][y] >= 4 ==> exists|q: int|
                    start.len() <= q < queue.len() && queue[q] == (x as usize, y as usize),
        decreases 9 - k,
    {
        let row = shifted(r, k / 3, height);
        let col = shifted(c, k % 3, width);
        if k != 4 && row.is_some() && col.is_some() {
            let x: usize = row.unwrap();
            let y: usize = col.unwrap();
            proof {
                assert(cur[x as int] == grid[x as int]@);
                assert(touched(k as int + 1, r as int, c as int, x as int, y as int));
                assert(!touched(k as int, r as int, c as int, x as int, y as int));
            }
            if grid[x][y] == 1 {
                proof {
                    assert(before[x as int][y as int] == 1);
                    lemma_neighbors_without(before, r as int, c as int, x as int, y as int);
                    assert(touched(9, r as int, c as int, x as int, y as int));
                    assert(neighbors(cur, x as int, y as int) >= 0);
                    assert(counts[x as int][y as int] == given[x as int][y as int]);
                }
                let ghost counted = counts@;
                let ghost queued = queue@;
                let lower: u8 = counts[x][y] - 1;
                counts[x][y] = lower;
                if lower == 3 {
                    queue.push((x, y));
                }
                proof {
                    assert forall|a: int, b: int|
                        0 <= a < height && 0 <= b < width && cur[a][b] == 1 implies #[trigger] counts[a][b]
                        == given[a][b] - if touched(k as int + 1, r as int, c as int, a, b) {
                        1int
                    } else {
                        0int
                    } by {
                        if a != x || b != y {
                            assert(counts[a][b] == counted[a][b]);
                        }
                    }
                    assert forall|a: int, b: int|
                        0 <= a < height && 0 <= b < width && cur[a][b] == 1 && #[trigger] counts[a][b]
                            < 4 && given[a][b] >= 4 implies exists|q: int|
                        start.len() <= q < queue.len() && queue[q] == (a as usize, b as usize) by {
                        if a == x && b == y {
                            assert(queue[queue.len() - 1] == (x, y));
                        } else {
                            assert(counts[a][b] == counted[a][b]);
                            let q = choose|q: int|
                                start.len() <= q < queued.len() && queued[q] == (
                                    a as usize,
                                    b as usize,
                                );
                            assert(queue[q] == (a as usize, b as usize));
                        }
                    }
                }
            }
        } else {
            proof {
                assert forall|a: int, b: int| 0 <= a < height && 0 <= b < width implies touched(
                    k as int + 1,
                    r as int,
                    c as int,
                    a,
                    b,
                ) == touched(k as int, r as int, c as int, a, b) by {}
            }
        }
        k += 1;
    }
    proof {
        assert forall|x: int, y: int|
            0 <= x < height && 0 <= y < width && cur[x][y] == 1 implies #[trigger] counts[x][y]
            == neighbors(cur, x, y) by {
            assert(before[x][y] == 1);
            lemma_neighbors_without(before, r as int, c as int, x, y);
        }
    }
}

/// Fewer rolls lie around a place when rolls are taken away.
proof fn lemma_neighbors_monotone(s: Seq<Seq<u8>>, g: Seq<Seq<u8>>, r: int, c: int)
    requires
        within(s, g),
    ensures
        neighbors(s, r, c) <= neighbors(g, r, c),
{
    assert forall|a: int, b: int| cell(s, a, b) <= cell(g, a, b) by {
        if 0 <= a < s.len() && 0 <= b < s[a].len() {
            assert(s[a].len() == g[a].len());
            assert(s[a][b] <= g[a][b]);
        }
    }
}

/// Takes away rolls that can be reached until none is left that can.
/// Gives what is left, and how many rolls were taken.
pub fn peel(cells: Vec<Vec<u8>>) -> (r: (Vec<Vec<u8>>, usize))
    requires
        is_grid(grid_view(cells@)),
    ensures
        is_core(grid_view(r.0@), grid_view(cells@)),
        r.1 == rolls(grid_view(cells@)) - rolls(grid_view(r.0@)),
{
    let ghost given = grid_view(cells@);
    let mut grid = cells;
    let counts_at_start = neighbor_counts(&grid);
    let mut counts = counts_at_start;
    let height: usize = grid.len();
    let width: usize = grid[0].len();
    let mut queue: Vec<(usize, usize)> = Vec::new();
    let mut r: usize = 0;
    while r < height
        invariant
            r <= height,
            height == grid.len(),
            width == grid[0].len(),
            given == grid_view(grid@),
            is_grid(given),
            counts.len() == height,
            forall|x: int| 0 <= x < height ==> (#[trigger] counts[x]).len() == width,
            forall|q: int|
                0 <= q < queue.len() ==> (#[trigger] queue[q]).0 < height && queue[q].1 < width,
            forall|x: int, y: int|
                0 <= x < r && 0 <= y < width && given[x][y] == 1 && #[trigger] counts[x][y] < 4
                    ==> exists|q: int| 0 <= q < queue.len() && queue[q] == (x as usize, y as usize),
        decreases height - r,
    {
        let mut c: usize = 0;
        proof {
            assert(given[r as int].len() == width);
            assert(given[r as int] == grid[r as int]@);
        }
        while c < width
            invariant
                c <= width,
                r < height,
                height == grid.len(),
                width == grid[0].len(),
                grid[r as int].len() == width,
                given == grid_view(grid@),
                is_grid(given),
                counts.len() == height,
                forall|x: int| 0 <= x < height ==> (#[trigger] counts[x]).len() == width,
                forall|q: int|
                    0 <= q < queue.len() ==> (#[trigger] queue[q]).0 < height && queue[q].1
                        < width,
                forall|x: int, y: int|
                    0 <= x < r && 0 <= y < width && given[x][y] == 1 && #[trigger] counts[x][y] < 4
                        ==> exists|q: int|
                        0 <= q < queue.len() && queue[q] == (x as usize, y as usize),
                forall|y: int|
                    0 <= y < c && given[r as int][y] == 1 && #[trigger] counts[r as int][y] < 4
                        ==> exists|q: int|
                        0 <= q < queue.len() && queue[q] == (r, y as usize),
            decreases width - c,
        {
            let ghost queued = queue@;
            if grid[r][c] == 1 && counts[r][c] < 4 {
                queue.push((r, c));
            }
            proof {
                assert forall|x: int, y: int|
                    0 <= x < r && 0 <= y < width && given[x][y] == 1 && #[trigger] counts[x][y]
                        < 4 implies exists|q: int|
                    0 <= q < queue.len() && queue[q] == (x as usize, y as usize) by {
                    let q = choose|q: int|
                        0 <= q < queued.len() && queued[q] == (x as usize, y as usize);
                    assert(queue[q] == (x as usize, y as usize));
                }
                assert forall|y: int|
                    0 <= y < c + 1 && given[r as int][y] == 1 && #[trigger] counts[r as int][y]
                        < 4 implies exists|q: int|
                    0 <= q < queue.len() && queue[q] == (r, y as usize) by {
                    if y < c {
                        let q = choose|q: int| 0 <= q < queued.len() && queued[q] == (r, y as usize);
                        assert(queue[q] == (r, y as usize));
                    } else {
                        assert(queue[queue.len() - 1] == (r, c));
                    }
                }
            }
            c += 1;
        }
        r += 1;
    }
    let mut head: usize = 0;
    let mut removed: usize = 0;
    while head < queue.len()
        invariant
            head <= queue.len(),
            removed <= head,
            height == grid.len(),
            width == grid[0].len(),
            is_grid(given),
            is_grid(grid_view(grid@)),
            within(grid_view(grid@), given),
            height == given.len(),
            width == given[0].len(),
            counts.len() == height,
            forall|x: int| 0 <= x < height ==> (#[trigger] counts[x]).len() == width,
            forall|x: int, y: int|
                0 <= x < height && 0 <= y < width && grid_view(grid@)[x][y] == 1
                    ==> #[trigger] counts[x][y] == neighbors(grid_view(grid@), x, y),
            forall|s: Seq<Seq<u8>>|
                #[trigger] within(s, given) && stable(s) ==> within(s, grid_view(grid@)),
            forall|q: int|
                0 <= q < queue.len() ==> (#[trigger] queue[q]).0 < height && queue[q].1 < width,
            forall|x: int, y: int|
                0 <= x < height && 0 <= y < width && grid_view(grid@)[x][y] == 1
                    && #[trigger] counts[x][y] < 4 ==> exists|q: int|
                    head <= q < queue.len() && queue[q] == (x as usize, y as usize),
            removed == rolls(given) - rolls(grid_view(grid@)),
        decreases 9 * rolls(grid_view(grid@)) + queue.len() - head,
    {
        let (r, c) = queue[head];
        let ghost before = grid_view(grid@);
        let ghost queued = queue@;
        let ghost counted = counts@;
        let ghost at = head;
        head += 1;
        proof {
            assert(before[r as int] == grid[r as int]@);
            assert(before[r as int].len() == before[0].len());
            assert(before[r as int][c as int] <= 1);
            lemma_sums_nonnegative(before, height as int);
        }
        if grid[r][c] == 1 && counts[r][c] < 4 {
            grid[r][c] = 0;
            removed += 1;
            proof {
                let cur = grid_view(grid@);
                assert(cur =~= without_roll(before, r as int, c as int)) by {
                    assert forall|x: int| 0 <= x < cur.len() implies cur[x] == without_roll(
                        before,
                        r as int,
                        c as int,
                    )[x] by {}
                }
                lemma_grid_sum_update(before, r as int, c as int, height as int);
                lemma_neighbors_without(before, r as int, c as int, r as int + 2, c as int);
                assert forall|s: Seq<Seq<u8>>|
                    #[trigger] within(s, given) && stable(s) implies within(s, cur) by {
                    assert(within(s, before));
                    lemma_neighbors_monotone(s, before, r as int, c as int);
                    assert(s[r as int].len() == before[r as int].len());
                    assert(s[r as int][c as int] <= before[r as int][c as int]);
                    if s[r as int][c as int] == 1 {
                        assert(neighbors(s, r as int, c as int) >= 4);
                    }
                    assert forall|x: int, y: int|
                        0 <= x < s.len() && 0 <= y < s[x].len() implies #[trigger] s[x][y]
                        <= cur[x][y] by {
                        assert(s[x][y] <= before[x][y]);
                    }
                }
                assert(within(cur, given)) by {
                    assert forall|x: int, y: int|
                        0 <= x < cur.len() && 0 <= y < cur[x].len() implies #[trigger] cur[x][y]
                        <= given[x][y] by {
                        assert(before[x][y] <= given[x][y]);
                    }
                }
                assert forall|x: int, y: int|
                    0 <= x < height && 0 <= y < width && before[x][y] == 1 implies #[trigger] counts[x][y]
                    == neighbors(before, x, y) by {}
            }
            update_neighbors(r, c, &grid, &mut counts, &mut queue, Ghost(before));
            proof {
                let cur = grid_view(grid@);
                assert(cur.len() == height);
                assert(rolls(cur) == rolls(before) - 1);
                lemma_sums_nonnegative(cur, height as int);
                assert forall|x: int, y: int|
                    0 <= x < height && 0 <= y < width && cur[x][y] == 1 && #[trigger] counts[x][y]
                        < 4 implies exists|q: int|
                    head <= q < queue.len() && queue[q] == (x as usize, y as usize) by {
                    assert(before[x][y] == 1);
                    if counted[x][y] >= 4 {
                    } else {
                        let q = choose|q: int|
                            at <= q < queued.len() && queued[q] == (x as usize, y as usize);
                        assert(queue[q] == queued[q]);
                    }
                }
            }
        } else {
            proof {
                assert forall|x: int, y: int|
                    0 <= x < height && 0 <= y < width && before[x][y] == 1 && #[trigger] counts[x][y]
                        < 4 implies exists|q: int|
                    head <= q < queue.len() && queue[q] == (x as usize, y as usize) by {
                    let q = choose|q: int|
                        at <= q < queued.len() && queued[q] == (x as usize, y as usize);
                    assert(q != at);
                }
            }
        }
    }
    proof {
        let cur = grid_view(grid@);
        assert(stable(cur)) by {
            assert forall|x: int, y: int|
                0 <= x < cur.len() && 0 <= y < cur[x].len() && #[trigger] cur[x][y]
                    == 1 implies neighbors(cur, x, y) >= 4 by {
                assert(cur[x].len() == cur[0].len());
                assert(counts[x][y] == neighbors(cur, x, y));
            }
        }
    }
    (grid, removed)
}

/// What holds of the second answer for a text.
pub open spec fn part2_holds(input: &str, r: Result<usize, Error>) -> bool {
    match (r, spec_parse_grid(input.spec_bytes())) {
        (Ok(taken), Ok(g)) => exists|left: Seq<Seq<u8>>|
            #[trigger] is_core(left, g) && taken == rolls(g) - rolls(left),
        (Err(e), Err(f)) => e == f,
        _ => false,
    }
}

/// Counts the rolls that are taken when rolls that can be reached are
/// taken away until none is left that can.
pub fn part2(input: &str) -> (r: Result<usize, Error>)
    ensures
        part2_holds(input, r),
{
    let cells = match parse_grid(input.as_bytes()) {
        Ok(cells) => cells,
        Err(e) => {
            return Err(e);
        },
    };
    let (left, taken) = peel(cells);
    proof {
        assert(is_core(grid_view(left@), spec_parse_grid(input.spec_bytes()).unwrap()));
    }
    Ok(taken)
}

/// What holds of both answers for a text.
pub open spec fn both_holds(input: &str, r: Result<(usize, usize), Error>) -> bool {
    match (r, spec_parse_grid(input.spec_bytes())) {
        (Ok((reached, taken)), Ok(g)) => reached == count_accessible(g, g.len() as int)
            && exists|left: Seq<Seq<u8>>|
            #[trigger] is_core(left, g) && taken == rolls(g) - rolls(left),
        (Err(Error::CountTooLarge), Ok(g)) => count_accessible(g, g.len() as int) > usize::MAX,
        (Err(e), Err(f)) => e == f,
        _ => false,
    }
}

/// Both answers.
pub fn both(input: &str) -> (r: Result<(usize, usize), Error>)
    ensures
        both_holds(input, r),
{
    let cells = match parse_grid(input.as_bytes()) {
        Ok(cells) => cells,
        Err(e) => {
            return Err(e);
        },
    };
    let reached = solve_part1(&cells);
    if reached > usize::MAX as u128 {
        return Err(Error::CountTooLarge);
    }
    let (left, taken) = peel(cells);
    proof {
        assert(is_core(grid_view(left@), spec_parse_grid(input.spec_bytes()).unwrap()));
    }
    Ok((reached as usize, taken))
}

} // verus!
