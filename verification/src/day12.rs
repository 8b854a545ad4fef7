//! Shapes that are to be laid out on boards.
//!
//! The text lists shapes, each under a header `N:` as rows of `#` and
//! `.`, and then boards, each as `WxH:` and how many of each shape are to
//! lie on it. Shapes may be turned and flipped and must not overlap. The
//! answer counts the boards on which all their shapes find room.

use vstd::prelude::*;
use vstd::string::StringSliceAdditionalSpecFns;
use vstd::arithmetic::div_mod::{
    lemma_div_pos_is_pos, lemma_fundamental_div_mod, lemma_mod_pos_bound, lemma_multiply_divide_lt,
};
use vstd::seq_lib::seq_to_set_is_finite;
use vstd::set_lib::{lemma_int_range, lemma_len_subset, lemma_set_disjoint_lens, set_int_range};
use crate::ascii::{digit, is_digit, COLON, DOT, HASH, PLUS, ZERO};
use crate::values::lemma_all_present;
use crate::lines::{
    find_byte, first_index, line_views, spec_lines, split_lines, split_words, trim, trim_slice,
    word_views, words_from,
};

verus! {

/// The byte `x`.
pub const LETTER_X: u8 = 120;

/// Why a text has no answer.
#[derive(Copy, Clone, Debug, PartialEq, Eq, Structural)]
pub enum Error {
    /// A line where a shape should start does not end in `:`.
    ExpectedHeader,
    /// What stands before the `:` of a header is no number.
    InvalidIndex,
    /// A header is followed by no row.
    NoGrid,
    /// The text holds no shape.
    NoShapes,
    /// Two shapes have the same number.
    DuplicateShape,
    /// A number below the largest has no shape.
    MissingShape,
    /// The rows of a shape are not of one width.
    InconsistentWidths,
    /// This byte in a row of a shape is neither `#` nor `.`.
    InvalidCharacter(u8),
    /// A shape has no `#`.
    NoCells,
    /// A board gives not as many counts as there are shapes.
    CountMismatch,
    /// A board or its shapes are too large to count.
    TooLarge,
}

/// The number that the digits from `i` on spell after those that gave
/// `acc`, if they are digits only and the number fits.
pub open spec fn digits_number(text: Seq<u8>, i: int, acc: int) -> Option<int>
    decreases text.len() - i,
{
    if i < 0 || i >= text.len() {
        Some(acc)
    } else if !is_digit(text[i]) || acc * 10 + (text[i] - ZERO) > usize::MAX {
        None
    } else {
        digits_number(text, i + 1, acc * 10 + (text[i] - ZERO))
    }
}

/// The number that a text spells: digits, with or without `+` before
/// them.
pub open spec fn spec_usize(text: Seq<u8>) -> Option<int> {
    let start = if text.len() > 0 && text[0] == PLUS { 1int } else { 0int };
    if start >= text.len() {
        None
    } else {
        digits_number(text, start, 0)
    }
}

/// Reads a number.
pub fn parse_usize(text: &[u8]) -> (r: Option<usize>)
    ensures
        match (r, spec_usize(text@)) {
            (Some(value), Some(v)) => value == v,
            (None, None) => true,
            _ => false,
        },
{
    let start: usize = if text.len() > 0 && text[0] == PLUS { 1 } else { 0 };
    if start >= text.len() {
        return None;
    }
    let mut value: usize = 0;
    let mut i: usize = start;
    while i < text.len()
        invariant
            start <= i <= text.len(),
            start == if text@.len() > 0 && text@[0] == PLUS { 1int } else { 0int },
            start < text.len(),
            digits_number(text@, start as int, 0) == digits_number(text@, i as int, value as int),
        decreases text.len() - i,
    {
        let b = text[i];
        if !digit(b) {
            return None;
        }
        let d: usize = (b - ZERO) as usize;
        if value > (usize::MAX - d) / 10 {
            return None;
        }
        value = value * 10 + d;
        i += 1;
    }
    Some(value)
}

/// The numbers that the words from the `k`-th on spell, after those in
/// `acc`, if each is a number.
pub open spec fn spec_counts(words: Seq<Seq<u8>>, k: int, acc: Seq<int>) -> Option<Seq<int>>
    decreases words.len() - k,
{
    if k < 0 || k >= words.len() {
        Some(acc)
    } else {
        match spec_usize(words[k]) {
            None => None,
            Some(v) => spec_counts(words, k + 1, acc.push(v)),
        }
    }
}

/// What a line says of a board, if it is the line of a board: width and
/// height with an `x` between them, a colon, and the counts.
pub open spec fn spec_region(line: Seq<u8>) -> Option<(int, int, Seq<int>)> {
    match first_index(line, COLON) {
        None => None,
        Some(colon) => {
            let dims = line.subrange(0, colon);
            let rest = line.subrange(colon + 1, line.len() as int);
            if first_index(rest, COLON) is Some {
                None
            } else {
                match first_index(dims, LETTER_X) {
                    None => None,
                    Some(at) => {
                        let left = dims.subrange(0, at);
                        let right = dims.subrange(at + 1, dims.len() as int);
                        if first_index(right, LETTER_X) is Some {
                            None
                        } else {
                            match (spec_usize(left), spec_usize(right)) {
                                (Some(width), Some(height)) => match spec_counts(
                                    words_from(rest, 0, Seq::empty()),
                                    0,
                                    Seq::empty(),
                                ) {
                                    None => None,
                                    Some(counts) => Some((width, height, counts)),
                                },
                                _ => None,
                            }
                        }
                    },
                }
            }
        },
    }
}

/// A board and how many of each shape are to lie on it.
pub struct Region {
    pub width: usize,
    pub height: usize,
    pub counts: Vec<usize>,
}

/// The numbers as mathematical integers.
pub open spec fn count_ints(counts: Seq<usize>) -> Seq<int> {
    Seq::new(counts.len(), |i: int| counts[i] as int)
}

/// Reads the counts of a board.
fn parse_counts(words: &Vec<&[u8]>) -> (r: Option<Vec<usize>>)
    ensures
        match (r, spec_counts(word_views(words@), 0, Seq::empty())) {
            (Some(counts), Some(c)) => count_ints(counts@) == c,
            (None, None) => true,
            _ => false,
        },
{
    let mut counts: Vec<usize> = Vec::new();
    let mut k: usize = 0;
    proof {
        assert(count_ints(counts@) =~= Seq::<int>::empty());
    }
    while k < words.len()
        invariant
            k <= words.len(),
            spec_counts(word_views(words@), 0, Seq::empty()) == spec_counts(
                word_views(words@),
                k as int,
                count_ints(counts@),
            ),
        decreases words.len() - k,
    {
        proof {
            assert(word_views(words@)[k as int] == words[k as int]@);
        }
        let value = match parse_usize(words[k]) {
            Some(v) => v,
            None => {
                return None;
            },
        };
        let ghost before = count_ints(counts@);
        counts.push(value);
        proof {
            assert(count_ints(counts@) =~= before.push(value as int));
        }
        k += 1;
    }
    Some(counts)
}

/// Reads the line of a board.
pub fn parse_region_line(line: &[u8]) -> (r: Option<Region>)
    ensures
        match (r, spec_region(line@)) {
            (Some(region), Some((w, h, c))) => region.width == w && region.height == h
                && count_ints(region.counts@) == c,
            (None, None) => true,
            _ => false,
        },
{
    let colon = match find_byte(line, COLON) {
        Some(colon) => colon,
        None => {
            return None;
        },
    };
    let dims = &line[0..colon];
    let rest = &line[colon + 1..line.len()];
    if find_byte(rest, COLON).is_some() {
        return None;
    }
    let at = match find_byte(dims, LETTER_X) {
        Some(at) => at,
        None => {
            return None;
        },
    };
    let left = &dims[0..at];
    let right = &dims[at + 1..dims.len()];
    if find_byte(right, LETTER_X).is_some() {
        return None;
    }
    let width = match parse_usize(left) {
        Some(v) => v,
        None => {
            return None;
        },
    };
    let height = match parse_usize(right) {
        Some(v) => v,
        None => {
            return None;
        },
    };
    let words = split_words(rest, 0);
    let counts = match parse_counts(&words) {
        Some(counts) => counts,
        None => {
            return None;
        },
    };
    Some(Region { width, height, counts })
}

/// The line ends in a colon, and only digits stand before it.
pub open spec fn is_header_like(line: Seq<u8>) -> bool {
    line.len() > 0 && line.last() == COLON && forall|i: int|
        0 <= i < line.len() - 1 ==> is_digit(#[trigger] line[i])
}

/// Whether a line ends in a colon with only digits before it.
fn header_like(line: &[u8]) -> (r: bool)
    ensures
        r == is_header_like(line@),
{
    let len = line.len();
    if len == 0 || line[len - 1] != COLON {
        return false;
    }
    let mut i: usize = 0;
    while i < len - 1
        invariant
            i <= len - 1,
            len == line.len(),
            len > 0,
            line@.last() == COLON,
            forall|j: int| 0 <= j < i ==> is_digit(#[trigger] line@[j]),
        decreases len - 1 - i,
    {
        if !digit(line[i]) {
            return false;
        }
        i += 1;
    }
    true
}

/// What the vectors of a grid hold.
pub open spec fn grid_view(grid: Seq<Vec<bool>>) -> Seq<Seq<bool>> {
    Seq::new(grid.len(), |r: int| grid[r]@)
}

/// The rows of the grid are of one width.
pub open spec fn is_rect(g: Seq<Seq<bool>>, width: int) -> bool {
    forall|r: int| 0 <= r < g.len() ==> (#[trigger] g[r]).len() == width
}

/// The grid turned by a quarter: what was the first column, read from
/// the bottom, is the first row.
pub open spec fn rotated(g: Seq<Seq<bool>>, width: int) -> Seq<Seq<bool>> {
    Seq::new(width as nat, |c: int| Seq::new(g.len(), |k: int| g[g.len() - 1 - k][c]))
}

/// The grid with each row read from the right.
pub open spec fn flipped(g: Seq<Seq<bool>>, width: int) -> Seq<Seq<bool>> {
    Seq::new(g.len(), |r: int| Seq::new(width as nat, |c: int| g[r][width - 1 - c]))
}

/// Turns a grid by a quarter.
pub fn rotate(grid: &Vec<Vec<bool>>, width: usize) -> (out: Vec<Vec<bool>>)
    requires
        is_rect(grid_view(grid@), width as int),
    ensures
        grid_view(out@) == rotated(grid_view(grid@), width as int),
        is_rect(grid_view(out@), grid.len() as int),
        out.len() == width,
{
    let height: usize = grid.len();
    let ghost g = grid_view(grid@);
    let mut out: Vec<Vec<bool>> = Vec::new();
    let mut c: usize = 0;
    while c < width
        invariant
            c <= width,
            height == grid.len(),
            g == grid_view(grid@),
            is_rect(g, width as int),
            out.len() == c,
            forall|q: int|
                0 <= q < c ==> (#[trigger] out[q])@ == Seq::new(
                    height as nat,
                    |k: int| g[height - 1 - k][q],
                ),
        decreases width - c,
    {
        let mut row: Vec<bool> = Vec::new();
        let mut k: usize = 0;
        while k < height
            invariant
                k <= height,
                c < width,
                height == grid.len(),
                g == grid_view(grid@),
                is_rect(g, width as int),
                row.len() == k,
                forall|q: int| 0 <= q < k ==> #[trigger] row[q] == g[height - 1 - q][c as int],
            decreases height - k,
        {
            proof {
                assert(g[height - 1 - k].len() == width);
                assert(g[height - 1 - k] == grid[height - 1 - k]@);
            }
            row.push(grid[height - 1 - k][c]);
            k += 1;
        }
        proof {
            assert(row@ =~= Seq::new(height as nat, |q: int| g[height - 1 - q][c as int]));
        }
        out.push(row);
        c += 1;
    }
    proof {
        assert(grid_view(out@) =~= rotated(g, width as int));
    }
    out
}

/// Reads each row of a grid from the right.
pub fn flip_horizontal(grid: &Vec<Vec<bool>>, width: usize) -> (out: Vec<Vec<bool>>)
    requires
        is_rect(grid_view(grid@), width as int),
    ensures
        grid_view(out@) == flipped(grid_view(grid@), width as int),
        is_rect(grid_view(out@), width as int),
        out.len() == grid.len(),
{
    let height: usize = grid.len();
    let ghost g = grid_view(grid@);
    let mut out: Vec<Vec<bool>> = Vec::new();
    let mut r: usize = 0;
    while r < height
        invariant
            r <= height,
            height == grid.len(),
            g == grid_view(grid@),
            is_rect(g, width as int),
            out.len() == r,
            forall|q: int|
                0 <= q < r ==> (#[trigger] out[q])@ == Seq::new(
                    width as nat,
                    |c: int| g[q][width - 1 - c],
                ),
        decreases height - r,
    {
        let mut row: Vec<bool> = Vec::new();
        let mut c: usize = 0;
        proof {
            assert(g[r as int].len() == width);
            assert(g[r as int] == grid[r as int]@);
        }
        while c < width
            invariant
                c <= width,
                r < height,
                height == grid.len(),
                grid[r as int]@.len() == width,
                g == grid_view(grid@),
                row.len() == c,
                forall|q: int| 0 <= q < c ==> #[trigger] row[q] == g[r as int][width - 1 - q],
            decreases width - c,
        {
            row.push(grid[r][width - 1 - c]);
            c += 1;
        }
        proof {
            assert(row@ =~= Seq::new(width as nat, |q: int| g[r as int][width - 1 - q]));
        }
        out.push(row);
        r += 1;
    }
    proof {
        assert(grid_view(out@) =~= flipped(g, width as int));
    }
    out
}

/// Row `r` of the grid holds a cell between the columns `from` and `to`.
pub open spec fn row_has(g: Seq<Seq<bool>>, r: int, from: int, to: int) -> bool {
    exists|c: int| from <= c < to && #[trigger] g[r][c]
}

/// Column `c` of the grid holds a cell between the rows `from` and `to`.
pub open spec fn col_has(g: Seq<Seq<bool>>, c: int, from: int, to: int) -> bool {
    exists|r: int| from <= r < to && #[trigger] g[r][c]
}

/// The part of the grid between its first and last rows and columns
/// that hold a cell: `top`, `bottom`, `left` and `right` bound it.
pub open spec fn is_trim(
    g: Seq<Seq<bool>>,
    width: int,
    top: int,
    bottom: int,
    left: int,
    right: int,
) -> bool {
    &&& 0 <= top <= bottom <= g.len()
    &&& 0 <= left <= right <= width
    &&& forall|r: int| 0 <= r < top ==> !#[trigger] row_has(g, r, 0, width)
    &&& forall|r: int| bottom <= r < g.len() ==> !#[trigger] row_has(g, r, 0, width)
    &&& top < bottom ==> row_has(g, top, 0, width) && row_has(g, bottom - 1, 0, width)
    &&& forall|c: int| 0 <= c < left ==> !#[trigger] col_has(g, c, top, bottom)
    &&& forall|c: int| right <= c < width ==> !#[trigger] col_has(g, c, top, bottom)
    &&& left < right ==> col_has(g, left, top, bottom) && col_has(g, right - 1, top, bottom)
}

/// The part of a grid between the given bounds.
pub open spec fn cut(g: Seq<Seq<bool>>, top: int, bottom: int, left: int, right: int) -> Seq<
    Seq<bool>,
> {
    Seq::new((bottom - top) as nat, |r: int| g[top + r].subrange(left, right))
}

/// Whether row `r` holds a cell.
fn row_has_cell(grid: &Vec<Vec<bool>>, r: usize, width: usize) -> (found: bool)
    requires
        is_rect(grid_view(grid@), width as int),
        r < grid.len(),
    ensures
        found == row_has(grid_view(grid@), r as int, 0, width as int),
{
    let ghost g = grid_view(grid@);
    proof {
        assert(g[r as int].len() == width);
        assert(g[r as int] == grid[r as int]@);
    }
    let mut c: usize = 0;
    while c < width
        invariant
            c <= width,
            r < grid.len(),
            g == grid_view(grid@),
            grid[r as int]@.len() == width,
            forall|q: int| 0 <= q < c ==> !#[trigger] g[r as int][q],
        decreases width - c,
    {
        if grid[r][c] {
            proof {
                assert(g[r as int][c as int]);
            }
            return true;
        }
        c += 1;
    }
    false
}

/// Whether column `c` holds a cell in the rows from `top` to `bottom`.
fn col_has_cell(grid: &Vec<Vec<bool>>, c: usize, top: usize, bottom: usize, width: usize) -> (found:
    bool)
    requires
        is_rect(grid_view(grid@), width as int),
        c < width,
        top <= bottom <= grid.len(),
    ensures
        found == col_has(grid_view(grid@), c as int, top as int, bottom as int),
{
    let ghost g = grid_view(grid@);
    let mut r: usize = top;
    while r < bottom
        invariant
            top <= r <= bottom <= grid.len(),
            c < width,
            g == grid_view(grid@),
            is_rect(g, width as int),
            forall|q: int| top <= q < r ==> !#[trigger] g[q][c as int],
        decreases bottom - r,
    {
        proof {
            assert(g[r as int].len() == width);
            assert(g[r as int] == grid[r as int]@);
        }
        if grid[r][c] {
            proof {
                assert(g[r as int][c as int]);
            }
            return true;
        }
        r += 1;
    }
    false
}

/// Cuts the empty rows and columns off the sides of a grid.
pub fn trim_grid(grid: &Vec<Vec<bool>>, width: usize) -> (r: (Vec<Vec<bool>>, usize))
    requires
        is_rect(grid_view(grid@), width as int),
    ensures
        is_rect(grid_view(r.0@), r.1 as int),
        exists|top: int, bottom: int, left: int, right: int|
            #[trigger] is_trim(grid_view(grid@), width as int, top, bottom, left, right) && r.1
                == right - left && grid_view(r.0@) == cut(
                grid_view(grid@),
                top,
                bottom,
                left,
                right,
            ),
{
    let height: usize = grid.len();
    let ghost g = grid_view(grid@);
    let mut top: usize = 0;
    while top < height && !row_has_cell(grid, top, width)
        invariant
            top <= height,
            height == grid.len(),
            g == grid_view(grid@),
            is_rect(g, width as int),
            forall|r: int| 0 <= r < top ==> !#[trigger] row_has(g, r, 0, width as int),
        decreases height - top,
    {
        top += 1;
    }
    let mut bottom: usize = height;
    while bottom > top && !row_has_cell(grid, bottom - 1, width)
        invariant
            top <= bottom <= height,
            height == grid.len(),
            g == grid_view(grid@),
            is_rect(g, width as int),
            forall|r: int| bottom <= r < height ==> !#[trigger] row_has(g, r, 0, width as int),
        decreases bottom,
    {
        bottom -= 1;
    }
    let mut left: usize = 0;
    while left < width && !col_has_cell(grid, left, top, bottom, width)
        invariant
            left <= width,
            top <= bottom <= height,
            height == grid.len(),
            g == grid_view(grid@),
            is_rect(g, width as int),
            forall|c: int|
                0 <= c < left ==> !#[trigger] col_has(g, c, top as int, bottom as int),
        decreases width - left,
    {
        left += 1;
    }
    let mut right: usize = width;
    while right > left && !col_has_cell(grid, right - 1, top, bottom, width)
        invariant
            left <= right <= width,
            top <= bottom <= height,
            height == grid.len(),
            g == grid_view(grid@),
            is_rect(g, width as int),
            forall|c: int|
                right <= c < width ==> !#[trigger] col_has(g, c, top as int, bottom as int),
        decreases right,
    {
        right -= 1;
    }
    let mut out: Vec<Vec<bool>> = Vec::new();
    let mut r: usize = top;
    while r < bottom
        invariant
            top <= r <= bottom <= height,
            left <= right <= width,
            height == grid.len(),
            g == grid_view(grid@),
            is_rect(g, width as int),
            out.len() == r - top,
            forall|q: int|
                0 <= q < out.len() ==> (#[trigger] out[q])@ == g[top + q].subrange(
                    left as int,
                    right as int,
                ),
        decreases bottom - r,
    {
        let mut row: Vec<bool> = Vec::new();
        let mut c: usize = left;
        proof {
            assert(g[r as int].len() == width);
            assert(g[r as int] == grid[r as int]@);
        }
        while c < right
            invariant
                left <= c <= right <= width,
                r < height,
                height == grid.len(),
                grid[r as int]@.len() == width,
                g == grid_view(grid@),
                row.len() == c - left,
                forall|q: int| 0 <= q < row.len() ==> #[trigger] row[q] == g[r as int][left + q],
            decreases right - c,
        {
            row.push(grid[r][c]);
            c += 1;
        }
        proof {
            assert(row@ =~= g[r as int].subrange(left as int, right as int));
        }
        out.push(row);
        r += 1;
    }
    proof {
        assert(grid_view(out@) =~= cut(g, top as int, bottom as int, left as int, right as int));
        assert(is_trim(g, width as int, top as int, bottom as int, left as int, right as int));
    }
    (out, right - left)
}

/// The cells of a row: the places that are set, each with the number of
/// the row, among the first `k` places.
pub open spec fn row_cells(row: Seq<bool>, r: int, k: int) -> Seq<(int, int)>
    decreases k,
{
    if k <= 0 {
        Seq::empty()
    } else if row[k - 1] {
        row_cells(row, r, k - 1).push((r, k - 1))
    } else {
        row_cells(row, r, k - 1)
    }
}

/// The cells of the first `n` rows of a grid, row by row.
pub open spec fn grid_cells(g: Seq<Seq<bool>>, n: int) -> Seq<(int, int)>
    decreases n,
{
    if n <= 0 {
        Seq::empty()
    } else {
        grid_cells(g, n - 1) + row_cells(g[n - 1], n - 1, g[n - 1].len() as int)
    }
}

/// The cells of a row are the places that are set, each once.
pub proof fn lemma_row_cells(row: Seq<bool>, r: int, k: int)
    requires
        0 <= k <= row.len(),
    ensures
        row_cells(row, r, k).no_duplicates(),
        forall|p: (int, int)|
            #[trigger] row_cells(row, r, k).contains(p) <==> p.0 == r && 0 <= p.1 < k && row[p.1],
    decreases k,
{
    if k > 0 {
        lemma_row_cells(row, r, k - 1);
        let before = row_cells(row, r, k - 1);
        let now = row_cells(row, r, k);
        if row[k - 1] {
            assert forall|p: (int, int)| #[trigger] now.contains(p) <==> p.0 == r && 0 <= p.1 < k
                && row[p.1] by {
                if now.contains(p) {
                    let i = choose|i: int| 0 <= i < now.len() && now[i] == p;
                    if i < before.len() {
                        assert(before[i] == p);
                        assert(before.contains(p));
                    }
                }
                if p.0 == r && 0 <= p.1 < k && row[p.1] {
                    if p.1 == k - 1 {
                        assert(now[before.len() as int] == p);
                    } else {
                        assert(before.contains(p));
                        let i = choose|i: int| 0 <= i < before.len() && before[i] == p;
                        assert(now[i] == p);
                    }
                }
            }
            assert forall|i: int, j: int|
                0 <= i < now.len() && 0 <= j < now.len() && i != j implies now[i] != now[j] by {
                if i < before.len() {
                    assert(before.contains(before[i]));
                }
                if j < before.len() {
                    assert(before.contains(before[j]));
                }
            }
        }
    }
}

/// Two lists of cells, one after the other, hold what either holds, and
/// no cell twice if neither does and they share none.
proof fn lemma_joined_cells(a: Seq<(int, int)>, b: Seq<(int, int)>)
    ensures
        forall|p: (int, int)| #[trigger] (a + b).contains(p) <==> a.contains(p) || b.contains(p),
        a.no_duplicates() && b.no_duplicates() && (forall|p: (int, int)|
            !(a.contains(p) && b.contains(p))) ==> (a + b).no_duplicates(),
{
    let all = a + b;
    assert forall|p: (int, int)| #[trigger] all.contains(p) <==> a.contains(p) || b.contains(
        p,
    ) by {
        if all.contains(p) {
            let i = choose|i: int| 0 <= i < all.len() && all[i] == p;
            if i < a.len() {
                assert(a[i] == p);
            } else {
                assert(b[i - a.len()] == p);
            }
        }
        if a.contains(p) {
            let i = choose|i: int| 0 <= i < a.len() && a[i] == p;
            assert(all[i] == p);
        }
        if b.contains(p) {
            let i = choose|i: int| 0 <= i < b.len() && b[i] == p;
            assert(all[a.len() + i] == p);
        }
    }
    if a.no_duplicates() && b.no_duplicates() && (forall|p: (int, int)|
        !(a.contains(p) && b.contains(p))) {
        assert forall|i: int, j: int|
            0 <= i < all.len() && 0 <= j < all.len() && i != j implies all[i] != all[j] by {
            if i < a.len() {
                assert(a.contains(a[i]));
            } else {
                assert(b.contains(b[i - a.len()]));
            }
            if j < a.len() {
                assert(a.contains(a[j]));
            } else {
                assert(b.contains(b[j - a.len()]));
            }
        }
    }
}

/// The cells of a grid are its places that are set, each once.
pub proof fn lemma_grid_cells(g: Seq<Seq<bool>>, n: int)
    requires
        0 <= n <= g.len(),
    ensures
        grid_cells(g, n).no_duplicates(),
        forall|p: (int, int)|
            #[trigger] grid_cells(g, n).contains(p) <==> 0 <= p.0 < n && 0 <= p.1 < g[p.0].len()
                && g[p.0][p.1],
    decreases n,
{
    if n > 0 {
        lemma_grid_cells(g, n - 1);
        let row = g[n - 1];
        lemma_row_cells(row, n - 1, row.len() as int);
        let before = grid_cells(g, n - 1);
        let last = row_cells(row, n - 1, row.len() as int);
        lemma_joined_cells(before, last);
        assert(grid_cells(g, n) == before + last);
    }
}

/// One way in which a shape can lie: its cells by row and column, and
/// the width and height of the rectangle that they fill.
pub struct Orientation {
    pub grid: Vec<Vec<bool>>,
    pub cells: Vec<(usize, usize)>,
    pub width: usize,
    pub height: usize,
}

/// The cells as pairs of mathematical integers.
pub open spec fn cell_ints(cells: Seq<(usize, usize)>) -> Seq<(int, int)> {
    Seq::new(cells.len(), |i: int| (cells[i].0 as int, cells[i].1 as int))
}

impl Orientation {
    /// The grid of the orientation.
    pub open spec fn view(&self) -> Seq<Seq<bool>> {
        grid_view(self.grid@)
    }

    /// The cells are those of the grid, and the sizes are its sizes.
    pub open spec fn shows(&self, g: Seq<Seq<bool>>, width: int) -> bool {
        &&& self@ == g
        &&& cell_ints(self.cells@) == grid_cells(g, g.len() as int)
        &&& self.width == width
        &&& self.height == g.len()
    }

    /// The cells are those of the grid. They lie in the rectangle, each
    /// once.
    pub open spec fn wf(&self) -> bool {
        &&& self.shows(self@, self.width as int)
        &&& is_rect(self@, self.width as int)
        &&& self.width >= 1
        &&& self.height >= 1
        &&& cell_ints(self.cells@).no_duplicates()
        &&& forall|i: int|
            0 <= i < self.cells@.len() ==> (#[trigger] self.cells@[i]).0 < self.height
                && self.cells@[i].1 < self.width
    }
}

/// Lists the cells of a grid.
pub fn orientation_of(grid: Vec<Vec<bool>>, width: usize) -> (o: Orientation)
    requires
        is_rect(grid_view(grid@), width as int),
        grid.len() >= 1,
        width >= 1,
    ensures
        o.shows(grid_view(grid@), width as int),
        o.wf(),
{
    let ghost g = grid_view(grid@);
    let mut cells: Vec<(usize, usize)> = Vec::new();
    let mut r: usize = 0;
    proof {
        assert(cell_ints(cells@) =~= grid_cells(g, 0));
    }
    while r < grid.len()
        invariant
            r <= grid.len(),
            g == grid_view(grid@),
            is_rect(g, width as int),
            cell_ints(cells@) == grid_cells(g, r as int),
        decreases grid.len() - r,
    {
        let ghost before = cell_ints(cells@);
        let mut c: usize = 0;
        proof {
            assert(g[r as int].len() == width);
            assert(g[r as int] == grid[r as int]@);
            assert(before + row_cells(g[r as int], r as int, 0) =~= before);
        }
        while c < width
            invariant
                c <= width,
                r < grid.len(),
                g == grid_view(grid@),
                grid[r as int]@.len() == width,
                g[r as int] == grid[r as int]@,
                cell_ints(cells@) == before + row_cells(g[r as int], r as int, c as int),
            decreases width - c,
        {
            let ghost so_far = cell_ints(cells@);
            if grid[r][c] {
                cells.push((r, c));
                proof {
                    assert(cell_ints(cells@) =~= so_far.push((r as int, c as int)));
                    assert(before + row_cells(g[r as int], r as int, c + 1) =~= (before
                        + row_cells(g[r as int], r as int, c as int)).push((r as int, c as int)));
                }
            }
            c += 1;
        }
        r += 1;
    }
    let height: usize = grid.len();
    let o = Orientation { grid, cells, width, height };
    proof {
        lemma_grid_cells(g, g.len() as int);
        let ints = cell_ints(o.cells@);
        assert forall|i: int| 0 <= i < o.cells@.len() implies (#[trigger] o.cells@[i]).0 < o.height
            && o.cells@[i].1 < o.width by {
            assert(ints[i] == (o.cells@[i].0 as int, o.cells@[i].1 as int));
            assert(ints.contains(ints[i]));
            assert(g[ints[i].0].len() == width);
        }
    }
    o
}

/// Whether two grids are the same.
fn same_grid(a: &Vec<Vec<bool>>, b: &Vec<Vec<bool>>) -> (r: bool)
    ensures
        r == (grid_view(a@) == grid_view(b@)),
{
    if a.len() != b.len() {
        proof {
            assert(grid_view(a@).len() == a.len());
            assert(grid_view(b@).len() == b.len());
        }
        return false;
    }
    let mut i: usize = 0;
    while i < a.len()
        invariant
            i <= a.len(),
            a.len() == b.len(),
            forall|q: int| 0 <= q < i ==> (#[trigger] a[q])@ == b[q]@,
        decreases a.len() - i,
    {
        if a[i].len() != b[i].len() {
            proof {
                assert(grid_view(a@)[i as int] == a[i as int]@);
                assert(grid_view(b@)[i as int] == b[i as int]@);
            }
            return false;
        }
        let mut j: usize = 0;
        while j < a[i].len()
            invariant
                j <= a[i as int].len(),
                i < a.len(),
                a.len() == b.len(),
                a[i as int].len() == b[i as int].len(),
                forall|q: int| 0 <= q < j ==> a[i as int]@[q] == b[i as int]@[q],
            decreases a[i as int].len() - j,
        {
            if a[i][j] != b[i][j] {
                proof {
                    assert(grid_view(a@)[i as int] == a[i as int]@);
                    assert(grid_view(b@)[i as int] == b[i as int]@);
                }
                return false;
            }
            j += 1;
        }
        proof {
            assert(a[i as int]@ =~= b[i as int]@);
        }
        i += 1;
    }
    proof {
        assert(grid_view(a@) =~= grid_view(b@));
    }
    true
}

/// The grid after `k` quarter turns, with its width.
pub open spec fn turned(g: Seq<Seq<bool>>, width: int, k: nat) -> (Seq<Seq<bool>>, int)
    decreases k,
{
    if k == 0 {
        (g, width)
    } else {
        let before = turned(g, width, (k - 1) as nat);
        (rotated(before.0, before.1), before.0.len() as int)
    }
}

/// The grid after `k` quarter turns, flipped or not, with its width.
pub open spec fn image(g: Seq<Seq<bool>>, width: int, k: nat, flip: bool) -> (Seq<Seq<bool>>, int) {
    let before = turned(g, width, k);
    if flip {
        (flipped(before.0, before.1), before.1)
    } else {
        before
    }
}

/// `v` is the grid `g` without the empty rows and columns at its sides.
pub open spec fn is_trimmed(g: Seq<Seq<bool>>, width: int, v: Seq<Seq<bool>>, v_width: int) -> bool {
    exists|top: int, bottom: int, left: int, right: int|
        #[trigger] is_trim(g, width, top, bottom, left, right) && v_width == right - left && v
            == cut(g, top, bottom, left, right)
}

/// `v` is the shape `g` turned and flipped in one of the eight ways, as
/// tight as it goes.
pub open spec fn is_variant(g: Seq<Seq<bool>>, width: int, v: Seq<Seq<bool>>, v_width: int) -> bool {
    exists|k: nat, flip: bool|
        k < 4 && #[trigger] is_trimmed(
            image(g, width, k, flip).0,
            image(g, width, k, flip).1,
            v,
            v_width,
        )
}

/// A shape: the ways in which it can lie, the largest width and height
/// among them, and the smallest number of cells.
pub struct Shape {
    pub area: usize,
    pub orientations: Vec<Orientation>,
    pub max_width: usize,
    pub max_height: usize,
}

/// The orientations are sound, and no two are the same.
pub open spec fn distinct_orientations(list: Seq<Orientation>) -> bool {
    &&& forall|i: int| 0 <= i < list.len() ==> (#[trigger] list[i]).wf()
    &&& forall|i: int, j: int|
        0 <= i < j < list.len() ==> (#[trigger] list[i])@ != (#[trigger] list[j])@
}

impl Shape {
    /// The shape can lie in at least one way, and the sizes that it
    /// states bound those of every way.
    pub open spec fn wf(&self) -> bool {
        &&& self.orientations.len() >= 1
        &&& distinct_orientations(self.orientations@)
        &&& forall|i: int|
            0 <= i < self.orientations.len() ==> {
                &&& (#[trigger] self.orientations[i]).width <= self.max_width
                &&& self.orientations[i].height <= self.max_height
                &&& self.orientations[i].cells.len() >= self.area
            }
    }

    /// The ways in which the shape can lie are the eight ways of turning
    /// and flipping the grid, each once.
    pub open spec fn lays_out(&self, g: Seq<Seq<bool>>, width: int) -> bool {
        &&& forall|i: int|
            0 <= i < self.orientations.len() ==> is_variant(
                g,
                width,
                (#[trigger] self.orientations[i])@,
                self.orientations[i].width as int,
            )
        &&& forall|k: nat, flip: bool|
            k < 4 ==> #[trigger] holds_image(self.orientations@, g, width, k, flip)
    }
}

/// The orientations hold the tight form of the grid after `k` quarter
/// turns, flipped or not.
pub open spec fn holds_image(
    list: Seq<Orientation>,
    g: Seq<Seq<bool>>,
    width: int,
    k: nat,
    flip: bool,
) -> bool {
    exists|i: int|
        0 <= i < list.len() && #[trigger] is_trimmed(
            image(g, width, k, flip).0,
            image(g, width, k, flip).1,
            list[i]@,
            list[i].width as int,
        )
}

/// The grid holds a cell.
pub open spec fn has_cell(g: Seq<Seq<bool>>) -> bool {
    exists|r: int, c: int| 0 <= r < g.len() && 0 <= c < g[r].len() && #[trigger] g[r][c]
}

/// Adds the tight form of a grid to the orientations, unless it is among
/// them.
fn add_variant(list: &mut Vec<Orientation>, grid: &Vec<Vec<bool>>, width: usize)
    requires
        is_rect(grid_view(grid@), width as int),
        has_cell(grid_view(grid@)),
        distinct_orientations(old(list)@),
    ensures
        distinct_orientations(final(list)@),
        old(list).len() <= final(list).len() <= old(list).len() + 1,
        forall|i: int| 0 <= i < old(list).len() ==> final(list)[i] == old(list)[i],
        final(list).len() > old(list).len() ==> is_trimmed(
            grid_view(grid@),
            width as int,
            final(list)[old(list).len() as int]@,
            final(list)[old(list).len() as int].width as int,
        ),
        exists|i: int|
            0 <= i < final(list).len() && #[trigger] is_trimmed(
                grid_view(grid@),
                width as int,
                final(list)[i]@,
                final(list)[i].width as int,
            ),
{
    let (tight, tight_width) = trim_grid(grid, width);
    proof {
        let g = grid_view(grid@);
        let (top, bottom, left, right) = choose|top: int, bottom: int, left: int, right: int|
            #[trigger] is_trim(g, width as int, top, bottom, left, right) && tight_width == right
                - left && grid_view(tight@) == cut(g, top, bottom, left, right);
        let (r, c) = choose|r: int, c: int|
            0 <= r < g.len() && 0 <= c < g[r].len() && #[trigger] g[r][c];
        assert(g[r].len() == width);
        assert(row_has(g, r, 0, width as int));
        assert(top < bottom);
        assert(grid_view(tight@).len() > 0);
        assert(col_has(g, c, top, bottom)) by {
            if r < top {
                assert(!row_has(g, r, 0, width as int));
            }
            if r >= bottom {
                assert(!row_has(g, r, 0, width as int));
            }
        }
        assert(left < right);
    }
    let mut i: usize = 0;
    while i < list.len()
        invariant
            i <= list.len(),
            *list == *old(list),
            grid_view(tight@).len() > 0,
            tight_width >= 1,
            distinct_orientations(list@),
            is_rect(grid_view(tight@), tight_width as int),
            is_trimmed(grid_view(grid@), width as int, grid_view(tight@), tight_width as int),
            forall|q: int| 0 <= q < i ==> (#[trigger] list[q])@ != grid_view(tight@),
        decreases list.len() - i,
    {
        if same_grid(&list[i].grid, &tight) {
            proof {
                lemma_same_width(list[i as int]@, list[i as int].width as int, tight_width as int);
                assert(is_trimmed(
                    grid_view(grid@),
                    width as int,
                    list[i as int]@,
                    list[i as int].width as int,
                ));
            }
            return ;
        }
        i += 1;
    }
    let made = orientation_of(tight, tight_width);
    list.push(made);
    proof {
        let last = old(list).len() as int;
        assert(is_trimmed(
            grid_view(grid@),
            width as int,
            list[last]@,
            list[last].width as int,
        ));
    }
}

/// A grid with a row has one width only.
proof fn lemma_same_width(g: Seq<Seq<bool>>, a: int, b: int)
    requires
        is_rect(g, a),
        is_rect(g, b),
    ensures
        g.len() > 0 ==> a == b,
{
    if g.len() > 0 {
        assert(g[0].len() == a);
    }
}

/// A grid that holds a cell holds one after it is turned or flipped.
proof fn lemma_has_cell(g: Seq<Seq<bool>>, width: int)
    requires
        is_rect(g, width),
        has_cell(g),
    ensures
        has_cell(rotated(g, width)),
        has_cell(flipped(g, width)),
{
    let (r, c) = choose|r: int, c: int|
        0 <= r < g.len() && 0 <= c < g[r].len() && #[trigger] g[r][c];
    assert(g[r].len() == width);
    assert(rotated(g, width)[c][g.len() - 1 - r]);
    assert(flipped(g, width)[r][width - 1 - c]);
}

/// Orientations that held the image of a grid hold it when more are
/// added.
proof fn lemma_holds_image(
    before: Seq<Orientation>,
    after: Seq<Orientation>,
    g: Seq<Seq<bool>>,
    width: int,
    k: nat,
    flip: bool,
)
    requires
        holds_image(before, g, width, k, flip),
        before.len() <= after.len(),
        forall|i: int| 0 <= i < before.len() ==> after[i] == before[i],
    ensures
        holds_image(after, g, width, k, flip),
{
    let i = choose|i: int|
        0 <= i < before.len() && #[trigger] is_trimmed(
            image(g, width, k, flip).0,
            image(g, width, k, flip).1,
            before[i]@,
            before[i].width as int,
        );
    assert(is_trimmed(
        image(g, width, k, flip).0,
        image(g, width, k, flip).1,
        after[i]@,
        after[i].width as int,
    ));
}

/// Every orientation is the tight form of one of the images of the grid
/// up to the `k`-th quarter turn, and every such image is held.
spec fn holds_upto(list: Seq<Orientation>, g: Seq<Seq<bool>>, width: int, k: nat) -> bool {
    &&& forall|i: int|
        0 <= i < list.len() ==> is_variant(g, width, (#[trigger] list[i])@, list[i].width as int)
    &&& forall|j: nat, flip: bool| j < k ==> #[trigger] holds_image(list, g, width, j, flip)
}

/// Adds the tight forms of the grid after `k` quarter turns, as it is and
/// flipped.
fn add_turn(
    list: &mut Vec<Orientation>,
    cur: &Vec<Vec<bool>>,
    cur_width: usize,
    Ghost(g): Ghost<Seq<Seq<bool>>>,
    Ghost(width): Ghost<int>,
    Ghost(k): Ghost<nat>,
)
    requires
        k < 4,
        is_rect(grid_view(cur@), cur_width as int),
        has_cell(grid_view(cur@)),
        turned(g, width, k) == (grid_view(cur@), cur_width as int),
        distinct_orientations(old(list)@),
        holds_upto(old(list)@, g, width, k),
    ensures
        distinct_orientations(final(list)@),
        holds_upto(final(list)@, g, width, k + 1),
        final(list).len() >= 1,
{
    let ghost start = list@;
    add_variant(list, cur, cur_width);
    let ghost mid = list@;
    let other = flip_horizontal(cur, cur_width);
    proof {
        lemma_has_cell(grid_view(cur@), cur_width as int);
        assert(image(g, width, k, false) == (grid_view(cur@), cur_width as int));
        assert(image(g, width, k, true) == (grid_view(other@), cur_width as int));
        let first = choose|i: int|
            0 <= i < mid.len() && #[trigger] is_trimmed(
                grid_view(cur@),
                cur_width as int,
                mid[i]@,
                mid[i].width as int,
            );
        assert(is_trimmed(
            image(g, width, k, false).0,
            image(g, width, k, false).1,
            mid[first]@,
            mid[first].width as int,
        ));
        assert(holds_image(mid, g, width, k, false));
    }
    add_variant(list, &other, cur_width);
    proof {
        let end = list@;
        lemma_holds_image(mid, end, g, width, k, false);
        let at = choose|i: int|
            0 <= i < end.len() && #[trigger] is_trimmed(
                grid_view(other@),
                cur_width as int,
                end[i]@,
                end[i].width as int,
            );
        assert(is_trimmed(
            image(g, width, k, true).0,
            image(g, width, k, true).1,
            end[at]@,
            end[at].width as int,
        ));
        assert(holds_image(end, g, width, k, true));
        assert forall|j: nat, flip: bool| j < k + 1 implies #[trigger] holds_image(
            end,
            g,
            width,
            j,
            flip,
        ) by {
            if j < k {
                lemma_holds_image(start, mid, g, width, j, flip);
                lemma_holds_image(mid, end, g, width, j, flip);
            }
        }
        assert forall|i: int| 0 <= i < end.len() implies is_variant(
            g,
            width,
            (#[trigger] end[i])@,
            end[i].width as int,
        ) by {
            if i < start.len() {
                assert(end[i] == mid[i]);
                assert(mid[i] == start[i]);
            } else if i < mid.len() {
                assert(end[i] == mid[i]);
                assert(is_trimmed(
                    image(g, width, k, false).0,
                    image(g, width, k, false).1,
                    end[i]@,
                    end[i].width as int,
                ));
            } else {
                assert(is_trimmed(
                    image(g, width, k, true).0,
                    image(g, width, k, true).1,
                    end[i]@,
                    end[i].width as int,
                ));
            }
        }
    }
}

/// Finds the ways in which a shape can lie.
pub fn build_shape(grid: Vec<Vec<bool>>, width: usize) -> (shape: Shape)
    requires
        is_rect(grid_view(grid@), width as int),
        has_cell(grid_view(grid@)),
    ensures
        shape.wf(),
        shape.lays_out(grid_view(grid@), width as int),
{
    let ghost g = grid_view(grid@);
    let mut list: Vec<Orientation> = Vec::new();
    let mut cur = grid;
    let mut cur_width: usize = width;
    let mut k: usize = 0;
    while k < 4
        invariant
            k <= 4,
            is_rect(grid_view(cur@), cur_width as int),
            has_cell(grid_view(cur@)),
            turned(g, width as int, k as nat) == (grid_view(cur@), cur_width as int),
            distinct_orientations(list@),
            holds_upto(list@, g, width as int, k as nat),
            k > 0 ==> list.len() >= 1,
        decreases 4 - k,
    {
        add_turn(&mut list, &cur, cur_width, Ghost(g), Ghost(width as int), Ghost(k as nat));
        let next = rotate(&cur, cur_width);
        proof {
            lemma_has_cell(grid_view(cur@), cur_width as int);
        }
        cur_width = cur.len();
        cur = next;
        k += 1;
    }
    let mut max_width: usize = 0;
    let mut max_height: usize = 0;
    let mut area: usize = list[0].cells.len();
    let mut i: usize = 0;
    while i < list.len()
        invariant
            i <= list.len(),
            forall|q: int|
                0 <= q < i ==> (#[trigger] list[q]).width <= max_width && list[q].height
                    <= max_height && list[q].cells.len() >= area,
        decreases list.len() - i,
    {
        if list[i].width > max_width {
            max_width = list[i].width;
        }
        if list[i].height > max_height {
            max_height = list[i].height;
        }
        if list[i].cells.len() < area {
            area = list[i].cells.len();
        }
        i += 1;
    }
    Shape { area, orientations: list, max_width, max_height }
}

/// The number of a place of the board: the places are counted row by
/// row.
pub open spec fn cell_index(width: int, row: int, col: int) -> int {
    row * width + col
}

/// Different places of the board have different numbers, all below the
/// number of places.
pub proof fn lemma_cell_index(width: int, height: int, row: int, col: int, row2: int, col2: int)
    requires
        0 <= row < height,
        0 <= col < width,
        0 <= row2,
        0 <= col2 < width,
    ensures
        0 <= cell_index(width, row, col) < width * height,
        cell_index(width, row, col) == cell_index(width, row2, col2) ==> row == row2 && col == col2,
{
    assert(0 <= row * width && row * width + width <= height * width && height * width == width
        * height) by (nonlinear_arith)
        requires
            0 <= row < height,
            0 < width,
    ;
    if row < row2 {
        assert(row * width + width <= row2 * width) by (nonlinear_arith)
            requires
                row + 1 <= row2,
                0 < width,
        ;
    } else if row2 < row {
        assert(row2 * width + width <= row * width) by (nonlinear_arith)
            requires
                row2 + 1 <= row,
                0 < width,
        ;
    }
}

/// A shape laid on the board: which shape, in which of its ways, and
/// where the rectangle of that way starts.
pub struct Piece {
    pub shape: int,
    pub way: int,
    pub x: int,
    pub y: int,
}

/// The way in which a piece lies.
pub open spec fn way_of(shapes: Seq<Shape>, p: Piece) -> Orientation {
    shapes[p.shape].orientations[p.way]
}

/// The piece is one of the shapes in one of its ways, and lies on the
/// board.
pub open spec fn piece_fits(shapes: Seq<Shape>, width: int, height: int, p: Piece) -> bool {
    &&& 0 <= p.shape < shapes.len()
    &&& 0 <= p.way < shapes[p.shape].orientations.len()
    &&& 0 <= p.x
    &&& 0 <= p.y
    &&& p.x + way_of(shapes, p).width <= width
    &&& p.y + way_of(shapes, p).height <= height
}

/// The number of the place that the `k`-th cell of a piece takes.
pub open spec fn piece_cell(shapes: Seq<Shape>, width: int, p: Piece, k: int) -> int {
    cell_index(
        width,
        p.y + way_of(shapes, p).cells[k].0,
        p.x + way_of(shapes, p).cells[k].1,
    )
}

/// The places that a piece takes.
pub open spec fn piece_cells(shapes: Seq<Shape>, width: int, p: Piece) -> Set<int> {
    Set::new(
        |i: int|
            exists|k: int|
                0 <= k < way_of(shapes, p).cells.len() && i == #[trigger] piece_cell(
                    shapes,
                    width,
                    p,
                    k,
                ),
    )
}

/// How many of the first `k` pieces are of shape `s`.
pub open spec fn count_of(pieces: Seq<Piece>, s: int, k: int) -> int
    decreases k,
{
    if k <= 0 {
        0
    } else {
        count_of(pieces, s, k - 1) + if pieces[k - 1].shape == s { 1int } else { 0int }
    }
}

/// The pieces lie on the board without overlap and leave the places in
/// `taken` free, and there are as many of each shape as `counts` says.
pub open spec fn is_packing(
    shapes: Seq<Shape>,
    width: int,
    height: int,
    counts: Seq<int>,
    taken: Set<int>,
    pieces: Seq<Piece>,
) -> bool {
    &&& forall|i: int|
        0 <= i < pieces.len() ==> piece_fits(shapes, width, height, #[trigger] pieces[i])
            && piece_cells(shapes, width, pieces[i]).disjoint(taken)
    &&& forall|i: int, j: int|
        0 <= i < j < pieces.len() ==> piece_cells(shapes, width, #[trigger] pieces[i]).disjoint(
            piece_cells(shapes, width, #[trigger] pieces[j]),
        )
    &&& forall|s: int|
        0 <= s < shapes.len() ==> #[trigger] count_of(pieces, s, pieces.len() as int) == counts[s]
}

/// The shapes find room on the board beside the places in `taken`.
pub open spec fn packable(
    shapes: Seq<Shape>,
    width: int,
    height: int,
    counts: Seq<int>,
    taken: Set<int>,
) -> bool {
    exists|pieces: Seq<Piece>| is_packing(shapes, width, height, counts, taken, pieces)
}

/// A piece as the places that it takes.
pub struct Placement {
    pub cells: Vec<usize>,
    pub piece: Ghost<Piece>,
}

impl Placement {
    /// The cells are the places of the piece, which lies on the board.
    pub open spec fn wf(&self, shapes: Seq<Shape>, width: int, height: int, s: int) -> bool {
        &&& self.piece@.shape == s
        &&& piece_fits(shapes, width, height, self.piece@)
        &&& self.cells@.len() == way_of(shapes, self.piece@).cells.len()
        &&& self.cells@.no_duplicates()
        &&& forall|k: int|
            0 <= k < self.cells@.len() ==> (#[trigger] self.cells@[k]) == piece_cell(
                shapes,
                width,
                self.piece@,
                k,
            ) && self.cells@[k] < width * height
    }
}

/// The list holds every piece of shape `s` on the board.
pub open spec fn lists_pieces(
    list: Seq<Placement>,
    shapes: Seq<Shape>,
    width: int,
    height: int,
    s: int,
) -> bool {
    &&& forall|j: int| 0 <= j < list.len() ==> (#[trigger] list[j]).wf(shapes, width, height, s)
    &&& forall|p: Piece|
        p.shape == s && #[trigger] piece_fits(shapes, width, height, p) ==> exists|j: int|
            0 <= j < list.len() && (#[trigger] list[j]).piece@ == p
}

/// The places of one way of a shape laid at `x`, `y`.
fn place(
    shapes: &Vec<Shape>,
    s: usize,
    way: usize,
    x: usize,
    y: usize,
    width: usize,
    height: usize,
) -> (r: Placement)
    requires
        s < shapes.len(),
        way < shapes[s as int].orientations.len(),
        shapes[s as int].orientations[way as int].wf(),
        x + shapes[s as int].orientations[way as int].width <= width,
        y + shapes[s as int].orientations[way as int].height <= height,
        width * height <= usize::MAX,
    ensures
        r.wf(shapes@, width as int, height as int, s as int),
        r.piece@ == (Piece { shape: s as int, way: way as int, x: x as int, y: y as int }),
{
    let o = &shapes[s].orientations[way];
    let ghost piece = Piece { shape: s as int, way: way as int, x: x as int, y: y as int };
    let mut cells: Vec<usize> = Vec::new();
    let mut k: usize = 0;
    while k < o.cells.len()
        invariant
            k <= o.cells.len(),
            s < shapes.len(),
            way < shapes[s as int].orientations.len(),
            *o == shapes[s as int].orientations[way as int],
            o.wf(),
            x + o.width <= width,
            y + o.height <= height,
            width * height <= usize::MAX,
            piece == (Piece { shape: s as int, way: way as int, x: x as int, y: y as int }),
            cells.len() == k,
            forall|q: int|
                0 <= q < k ==> (#[trigger] cells@[q]) == piece_cell(
                    shapes@,
                    width as int,
                    piece,
                    q,
                ) && cells@[q] < width * height,
        decreases o.cells.len() - k,
    {
        let (r, c) = o.cells[k];
        proof {
            assert(o.cells@[k as int].0 < o.height && o.cells@[k as int].1 < o.width);
            lemma_cell_index(width as int, height as int, y + r, x + c, 0, 0);
        }
        cells.push((y + r) * width + (x + c));
        k += 1;
    }
    proof {
        assert forall|a: int, b: int|
            0 <= a < cells@.len() && 0 <= b < cells@.len() && a != b implies cells@[a]
            != cells@[b] by {
            let ints = cell_ints(o.cells@);
            assert(ints[a] != ints[b]);
            assert(ints[a] == (o.cells@[a].0 as int, o.cells@[a].1 as int));
            assert(ints[b] == (o.cells@[b].0 as int, o.cells@[b].1 as int));
            assert(o.cells@[a].0 < o.height && o.cells@[a].1 < o.width);
            assert(o.cells@[b].0 < o.height && o.cells@[b].1 < o.width);
            lemma_cell_index(
                width as int,
                height as int,
                y + o.cells@[a].0,
                x + o.cells@[a].1,
                y + o.cells@[b].0,
                x + o.cells@[b].1,
            );
            assert(cells@[a] == piece_cell(shapes@, width as int, piece, a));
            assert(cells@[b] == piece_cell(shapes@, width as int, piece, b));
        }
    }
    Placement { cells, piece: Ghost(piece) }
}

/// The piece comes before the way `way`, or lies in that way before the
/// row `y`, or in that row before the column `x`.
pub open spec fn piece_before(p: Piece, way: int, y: int, x: int) -> bool {
    p.way < way || (p.way == way && (p.y < y || (p.y == y && p.x < x)))
}

/// The list holds sound pieces of shape `s`, and among them every piece
/// on the board that comes before the given way, row and column.
pub open spec fn lists_before(
    list: Seq<Placement>,
    shapes: Seq<Shape>,
    width: int,
    height: int,
    s: int,
    way: int,
    y: int,
    x: int,
) -> bool {
    &&& forall|j: int| 0 <= j < list.len() ==> (#[trigger] list[j]).wf(shapes, width, height, s)
    &&& forall|p: Piece|
        p.shape == s && #[trigger] piece_fits(shapes, width, height, p) && piece_before(
            p,
            way,
            y,
            x,
        ) ==> exists|j: int| 0 <= j < list.len() && (#[trigger] list[j]).piece@ == p
}

/// A list that holds the pieces before some place holds them when it
/// grows.
proof fn lemma_lists_grow(
    before: Seq<Placement>,
    after: Seq<Placement>,
    shapes: Seq<Shape>,
    width: int,
    height: int,
    s: int,
    way: int,
    y: int,
    x: int,
    way2: int,
    y2: int,
    x2: int,
)
    requires
        lists_before(before, shapes, width, height, s, way, y, x),
        before.len() <= after.len(),
        forall|j: int| 0 <= j < before.len() ==> after[j] == before[j],
        forall|j: int|
            before.len() <= j < after.len() ==> (#[trigger] after[j]).wf(shapes, width, height, s),
        forall|p: Piece|
            p.shape == s && #[trigger] piece_fits(shapes, width, height, p) && piece_before(
                p,
                way2,
                y2,
                x2,
            ) && !piece_before(p, way, y, x) ==> exists|j: int|
                0 <= j < after.len() && (#[trigger] after[j]).piece@ == p,
    ensures
        lists_before(after, shapes, width, height, s, way2, y2, x2),
{
    assert forall|j: int| 0 <= j < after.len() implies (#[trigger] after[j]).wf(
        shapes,
        width,
        height,
        s,
    ) by {
        if j < before.len() {
            assert(after[j] == before[j]);
        }
    }
    assert forall|p: Piece|
        p.shape == s && #[trigger] piece_fits(shapes, width, height, p) && piece_before(
            p,
            way2,
            y2,
            x2,
        ) implies exists|j: int| 0 <= j < after.len() && (#[trigger] after[j]).piece@ == p by {
        if piece_before(p, way, y, x) {
            let j = choose|j: int| 0 <= j < before.len() && (#[trigger] before[j]).piece@ == p;
            assert(after[j].piece@ == p);
        }
    }
}

/// Every piece of one shape on the board.
pub fn build_placements(shapes: &Vec<Shape>, s: usize, width: usize, height: usize) -> (list: Vec<
    Placement,
>)
    requires
        s < shapes.len(),
        shapes[s as int].wf(),
        width * height <= usize::MAX,
    ensures
        lists_pieces(list@, shapes@, width as int, height as int, s as int),
{
    let shape = &shapes[s];
    let mut list: Vec<Placement> = Vec::new();
    let mut way: usize = 0;
    while way < shape.orientations.len()
        invariant
            way <= shape.orientations.len(),
            s < shapes.len(),
            *shape == shapes[s as int],
            shape.wf(),
            width * height <= usize::MAX,
            lists_before(list@, shapes@, width as int, height as int, s as int, way as int, 0, 0),
        decreases shape.orientations.len() - way,
    {
        let o = &shape.orientations[way];
        proof {
            assert(shape.orientations[way as int].wf());
        }
        if o.width <= width && o.height <= height {
            let last_y: usize = height - o.height;
            let last_x: usize = width - o.width;
            let mut y: usize = 0;
            while y <= last_y
                invariant
                    y <= last_y + 1,
                    way < shape.orientations.len(),
                    s < shapes.len(),
                    *shape == shapes[s as int],
                    *o == shape.orientations[way as int],
                    o.wf(),
                    o.width <= width,
                    o.height <= height,
                    last_y == height - o.height,
                    last_x == width - o.width,
                    width * height <= usize::MAX,
                    lists_before(
                        list@,
                        shapes@,
                        width as int,
                        height as int,
                        s as int,
                        way as int,
                        y as int,
                        0,
                    ),
                decreases last_y + 1 - y,
            {
                let mut x: usize = 0;
                while x <= last_x
                    invariant
                        x <= last_x + 1,
                        y <= last_y,
                        way < shape.orientations.len(),
                        s < shapes.len(),
                        *shape == shapes[s as int],
                        *o == shape.orientations[way as int],
                        o.wf(),
                        last_y == height - o.height,
                        last_x == width - o.width,
                        o.width <= width,
                        o.height <= height,
                        width * height <= usize::MAX,
                        lists_before(
                            list@,
                            shapes@,
                            width as int,
                            height as int,
                            s as int,
                            way as int,
                            y as int,
                            x as int,
                        ),
                    decreases last_x + 1 - x,
                {
                    let ghost before = list@;
                    let made = place(shapes, s, way, x, y, width, height);
                    list.push(made);
                    proof {
                        assert(list@[before.len() as int].piece@ == (Piece {
                            shape: s as int,
                            way: way as int,
                            x: x as int,
                            y: y as int,
                        }));
                        lemma_lists_grow(
                            before,
                            list@,
                            shapes@,
                            width as int,
                            height as int,
                            s as int,
                            way as int,
                            y as int,
                            x as int,
                            way as int,
                            y as int,
                            x + 1,
                        );
                    }
                    x += 1;
                }
                proof {
                    lemma_lists_grow(
                        list@,
                        list@,
                        shapes@,
                        width as int,
                        height as int,
                        s as int,
                        way as int,
                        y as int,
                        x as int,
                        way as int,
                        y + 1,
                        0,
                    );
                }
                y += 1;
            }
            proof {
                lemma_lists_grow(
                    list@,
                    list@,
                    shapes@,
                    width as int,
                    height as int,
                    s as int,
                    way as int,
                    y as int,
                    0,
                    way + 1,
                    0,
                    0,
                );
            }
        } else {
            proof {
                lemma_lists_grow(
                    list@,
                    list@,
                    shapes@,
                    width as int,
                    height as int,
                    s as int,
                    way as int,
                    0,
                    0,
                    way + 1,
                    0,
                    0,
                );
            }
        }
        way += 1;
    }
    proof {
        assert forall|p: Piece|
            p.shape == s && #[trigger] piece_fits(
                shapes@,
                width as int,
                height as int,
                p,
            ) implies exists|j: int| 0 <= j < list.len() && (#[trigger] list@[j]).piece@ == p by {
            assert(piece_before(p, way as int, 0, 0));
        }
    }
    list
}

/// The places of the board that are taken.
pub open spec fn taken_set(occupied: Seq<bool>) -> Set<int> {
    Set::new(|i: int| 0 <= i < occupied.len() && occupied[i])
}

/// The first `k` counts, added up.
pub open spec fn sum_counts(counts: Seq<int>, k: int) -> int
    decreases k,
{
    if k <= 0 {
        0
    } else {
        sum_counts(counts, k - 1) + counts[k - 1]
    }
}

proof fn lemma_sum_update(counts: Seq<int>, at: int, value: int, k: int)
    requires
        0 <= at < counts.len(),
        0 <= k <= counts.len(),
    ensures
        sum_counts(counts.update(at, value), k) == sum_counts(counts, k) + if at < k {
            value - counts[at]
        } else {
            0
        },
    decreases k,
{
    if k > 0 {
        lemma_sum_update(counts, at, value, k - 1);
    }
}

proof fn lemma_sum_nonnegative(counts: Seq<int>, k: int)
    requires
        0 <= k <= counts.len(),
        forall|i: int| 0 <= i < counts.len() ==> #[trigger] counts[i] >= 0,
    ensures
        sum_counts(counts, k) >= 0,
    decreases k,
{
    if k > 0 {
        lemma_sum_nonnegative(counts, k - 1);
    }
}

/// Where pieces of a shape are counted, there is a piece of that shape.
proof fn lemma_count_positive(pieces: Seq<Piece>, s: int, k: int) -> (at: int)
    requires
        0 <= k <= pieces.len(),
        count_of(pieces, s, k) > 0,
    ensures
        0 <= at < k,
        pieces[at].shape == s,
    decreases k,
{
    if pieces[k - 1].shape == s {
        k - 1
    } else {
        lemma_count_positive(pieces, s, k - 1)
    }
}

/// Without one piece there is one piece fewer of its shape.
proof fn lemma_count_remove(pieces: Seq<Piece>, at: int, s: int, k: int)
    requires
        0 <= at < pieces.len(),
        0 <= k <= pieces.len() - 1,
    ensures
        count_of(pieces.remove(at), s, k) == count_of(pieces, s, if k <= at { k } else { k + 1 })
            - if at < k && pieces[at].shape == s { 1int } else { 0int },
    decreases k,
{
    if k > 0 {
        lemma_count_remove(pieces, at, s, k - 1);
        let without = pieces.remove(at);
        assert(count_of(without, s, k) == count_of(without, s, k - 1) + if without[k - 1].shape
            == s { 1int } else { 0int });
        if k - 1 < at {
            assert(without[k - 1] == pieces[k - 1]);
            assert(count_of(pieces, s, k) == count_of(pieces, s, k - 1) + if pieces[k - 1].shape
                == s { 1int } else { 0int });
        } else {
            assert(without[k - 1] == pieces[k]);
            assert(count_of(pieces, s, k + 1) == count_of(pieces, s, k) + if pieces[k].shape
                == s { 1int } else { 0int });
            if k - 1 == at {
                assert(count_of(pieces, s, k) == count_of(pieces, s, k - 1) + if pieces[k
                    - 1].shape == s { 1int } else { 0int });
            }
        }
    }
}

/// With one more piece at the front there is one piece more of its
/// shape.
proof fn lemma_count_prepend(p: Piece, pieces: Seq<Piece>, s: int, k: int)
    requires
        0 <= k <= pieces.len(),
    ensures
        count_of(seq![p] + pieces, s, k + 1) == count_of(pieces, s, k) + if p.shape == s {
            1int
        } else {
            0int
        },
    decreases k,
{
    let longer = seq![p] + pieces;
    assert(count_of(longer, s, k + 1) == count_of(longer, s, k) + if longer[k].shape == s {
        1int
    } else {
        0int
    });
    if k > 0 {
        lemma_count_prepend(p, pieces, s, k - 1);
        assert(longer[k] == pieces[k - 1]);
        assert(count_of(pieces, s, k) == count_of(pieces, s, k - 1) + if pieces[k - 1].shape
            == s { 1int } else { 0int });
    } else {
        assert(longer[0] == p);
        assert(count_of(longer, s, 0) == 0);
    }
}

/// A packing without one of its pieces packs the other pieces beside
/// the places of that piece.
proof fn lemma_remove_piece(
    shapes: Seq<Shape>,
    width: int,
    height: int,
    counts: Seq<int>,
    taken: Set<int>,
    pieces: Seq<Piece>,
    at: int,
)
    requires
        is_packing(shapes, width, height, counts, taken, pieces),
        0 <= at < pieces.len(),
        counts.len() == shapes.len(),
    ensures
        is_packing(
            shapes,
            width,
            height,
            counts.update(pieces[at].shape, counts[pieces[at].shape] - 1),
            taken.union(piece_cells(shapes, width, pieces[at])),
            pieces.remove(at),
        ),
{
    let p = pieces[at];
    let rest = pieces.remove(at);
    let more = taken.union(piece_cells(shapes, width, p));
    assert(piece_fits(shapes, width, height, p));
    assert forall|i: int| 0 <= i < rest.len() implies piece_fits(
        shapes,
        width,
        height,
        #[trigger] rest[i],
    ) && piece_cells(shapes, width, rest[i]).disjoint(more) by {
        let j = if i < at { i } else { i + 1 };
        assert(rest[i] == pieces[j]);
        assert(piece_fits(shapes, width, height, pieces[j]));
        if j < at {
            assert(piece_cells(shapes, width, pieces[j]).disjoint(
                piece_cells(shapes, width, pieces[at]),
            ));
        } else {
            assert(piece_cells(shapes, width, pieces[at]).disjoint(
                piece_cells(shapes, width, pieces[j]),
            ));
        }
    }
    assert forall|i: int, j: int| 0 <= i < j < rest.len() implies piece_cells(
        shapes,
        width,
        #[trigger] rest[i],
    ).disjoint(piece_cells(shapes, width, #[trigger] rest[j])) by {
        let a = if i < at { i } else { i + 1 };
        let b = if j < at { j } else { j + 1 };
        assert(rest[i] == pieces[a]);
        assert(rest[j] == pieces[b]);
        assert(piece_cells(shapes, width, pieces[a]).disjoint(
            piece_cells(shapes, width, pieces[b]),
        ));
    }
    assert forall|s: int| 0 <= s < shapes.len() implies #[trigger] count_of(
        rest,
        s,
        rest.len() as int,
    ) == counts.update(p.shape, counts[p.shape] - 1)[s] by {
        lemma_count_remove(pieces, at, s, rest.len() as int);
        assert(count_of(pieces, s, pieces.len() as int) == counts[s]);
    }
}

/// A piece beside a packing that leaves its places free makes a packing
/// with one piece more of its shape.
proof fn lemma_prepend_piece(
    shapes: Seq<Shape>,
    width: int,
    height: int,
    counts: Seq<int>,
    taken: Set<int>,
    p: Piece,
    rest: Seq<Piece>,
)
    requires
        piece_fits(shapes, width, height, p),
        piece_cells(shapes, width, p).disjoint(taken),
        counts.len() == shapes.len(),
        counts[p.shape] >= 1,
        is_packing(
            shapes,
            width,
            height,
            counts.update(p.shape, counts[p.shape] - 1),
            taken.union(piece_cells(shapes, width, p)),
            rest,
        ),
    ensures
        is_packing(shapes, width, height, counts, taken, seq![p] + rest),
{
    let all = seq![p] + rest;
    let more = taken.union(piece_cells(shapes, width, p));
    assert forall|i: int| 0 <= i < all.len() implies piece_fits(
        shapes,
        width,
        height,
        #[trigger] all[i],
    ) && piece_cells(shapes, width, all[i]).disjoint(taken) by {
        if i > 0 {
            assert(all[i] == rest[i - 1]);
            assert(piece_cells(shapes, width, rest[i - 1]).disjoint(more));
        }
    }
    assert forall|i: int, j: int| 0 <= i < j < all.len() implies piece_cells(
        shapes,
        width,
        #[trigger] all[i],
    ).disjoint(piece_cells(shapes, width, #[trigger] all[j])) by {
        assert(all[j] == rest[j - 1]);
        if i == 0 {
            assert(piece_cells(shapes, width, rest[j - 1]).disjoint(more));
        } else {
            assert(all[i] == rest[i - 1]);
            assert(piece_cells(shapes, width, rest[i - 1]).disjoint(
                piece_cells(shapes, width, rest[j - 1]),
            ));
        }
    }
    assert forall|s: int| 0 <= s < shapes.len() implies #[trigger] count_of(
        all,
        s,
        all.len() as int,
    ) == counts[s] by {
        lemma_count_prepend(p, rest, s, rest.len() as int);
        assert(count_of(rest, s, rest.len() as int) == counts.update(
            p.shape,
            counts[p.shape] - 1,
        )[s]);
    }
}

/// The places of a piece are the numbers in the list of its placement.
proof fn lemma_placement_cells(
    pl: Placement,
    shapes: Seq<Shape>,
    width: int,
    height: int,
    s: int,
)
    requires
        pl.wf(shapes, width, height, s),
    ensures
        forall|i: int|
            piece_cells(shapes, width, pl.piece@).contains(i) <==> exists|k: int|
                0 <= k < pl.cells@.len() && #[trigger] pl.cells@[k] == i,
{
    let cells = piece_cells(shapes, width, pl.piece@);
    assert forall|i: int|
        cells.contains(i) <==> exists|k: int| 0 <= k < pl.cells@.len() && #[trigger] pl.cells@[k]
            == i by {
        if cells.contains(i) {
            let k = choose|k: int|
                0 <= k < way_of(shapes, pl.piece@).cells.len() && i == #[trigger] piece_cell(
                    shapes,
                    width,
                    pl.piece@,
                    k,
                );
            assert(pl.cells@[k] == i);
        }
        if exists|k: int| 0 <= k < pl.cells@.len() && #[trigger] pl.cells@[k] == i {
            let k = choose|k: int| 0 <= k < pl.cells@.len() && #[trigger] pl.cells@[k] == i;
            assert(i == piece_cell(shapes, width, pl.piece@, k));
        }
    }
}

/// Whether a piece lies on a place that is taken.
pub fn overlaps(
    pl: &Placement,
    occupied: &Vec<bool>,
    Ghost(shapes): Ghost<Seq<Shape>>,
    Ghost(width): Ghost<int>,
    Ghost(height): Ghost<int>,
    Ghost(s): Ghost<int>,
) -> (r: bool)
    requires
        pl.wf(shapes, width, height, s),
        occupied.len() == width * height,
    ensures
        r == !piece_cells(shapes, width, pl.piece@).disjoint(taken_set(occupied@)),
{
    proof {
        lemma_placement_cells(*pl, shapes, width, height, s);
    }
    let mut k: usize = 0;
    while k < pl.cells.len()
        invariant
            k <= pl.cells.len(),
            pl.wf(shapes, width, height, s),
            occupied.len() == width * height,
            forall|q: int| 0 <= q < k ==> !occupied@[#[trigger] pl.cells@[q] as int],
        decreases pl.cells.len() - k,
    {
        if occupied[pl.cells[k]] {
            proof {
                let i = pl.cells@[k as int] as int;
                assert(piece_cells(shapes, width, pl.piece@).contains(i));
                assert(taken_set(occupied@).contains(i));
            }
            return true;
        }
        k += 1;
    }
    proof {
        let cells = piece_cells(shapes, width, pl.piece@);
        assert forall|i: int| !(cells.contains(i) && taken_set(occupied@).contains(i)) by {
            if cells.contains(i) {
                let q = choose|q: int| 0 <= q < pl.cells@.len() && #[trigger] pl.cells@[q] == i;
                assert(!occupied@[pl.cells@[q] as int]);
            }
        }
    }
    false
}

/// Takes the places of a piece.
pub fn apply_mask(
    occupied: &mut Vec<bool>,
    pl: &Placement,
    Ghost(shapes): Ghost<Seq<Shape>>,
    Ghost(width): Ghost<int>,
    Ghost(height): Ghost<int>,
    Ghost(s): Ghost<int>,
)
    requires
        pl.wf(shapes, width, height, s),
        old(occupied).len() == width * height,
    ensures
        final(occupied).len() == old(occupied).len(),
        forall|i: int|
            0 <= i < old(occupied).len() ==> #[trigger] final(occupied)@[i] == (old(occupied)@[i]
                || piece_cells(shapes, width, pl.piece@).contains(i)),
        taken_set(final(occupied)@) == taken_set(old(occupied)@).union(
            piece_cells(shapes, width, pl.piece@),
        ),
{
    proof {
        lemma_placement_cells(*pl, shapes, width, height, s);
    }
    let mut k: usize = 0;
    while k < pl.cells.len()
        invariant
            k <= pl.cells.len(),
            pl.wf(shapes, width, height, s),
            occupied.len() == old(occupied).len(),
            occupied.len() == width * height,
            forall|i: int|
                0 <= i < occupied.len() ==> #[trigger] occupied@[i] == (old(occupied)@[i]
                    || exists|q: int| 0 <= q < k && #[trigger] pl.cells@[q] == i),
        decreases pl.cells.len() - k,
    {
        let ghost before = occupied@;
        let at: usize = pl.cells[k];
        occupied[at] = true;
        proof {
            assert forall|i: int| 0 <= i < occupied.len() implies #[trigger] occupied@[i] == (old(
                occupied,
            )@[i] || exists|q: int| 0 <= q < k + 1 && #[trigger] pl.cells@[q] == i) by {
                if i == at {
                    assert(pl.cells@[k as int] == i);
                } else {
                    assert(occupied@[i] == before[i]);
                    if exists|q: int| 0 <= q < k + 1 && #[trigger] pl.cells@[q] == i {
                        let q = choose|q: int| 0 <= q < k + 1 && #[trigger] pl.cells@[q] == i;
                        assert(q < k);
                    }
                }
            }
        }
        k += 1;
    }
    proof {
        let cells = piece_cells(shapes, width, pl.piece@);
        assert forall|i: int| 0 <= i < old(occupied).len() implies #[trigger] occupied@[i] == (old(
            occupied,
        )@[i] || cells.contains(i)) by {
            if cells.contains(i) {
                let q = choose|q: int| 0 <= q < pl.cells@.len() && #[trigger] pl.cells@[q] == i;
            }
        }
        assert forall|i: int| cells.contains(i) implies 0 <= i < occupied.len() by {
            let q = choose|q: int| 0 <= q < pl.cells@.len() && #[trigger] pl.cells@[q] == i;
        }
        assert(taken_set(occupied@) =~= taken_set(old(occupied)@).union(cells));
    }
}

/// Gives the places of a piece free again.
pub fn remove_mask(
    occupied: &mut Vec<bool>,
    pl: &Placement,
    Ghost(shapes): Ghost<Seq<Shape>>,
    Ghost(width): Ghost<int>,
    Ghost(height): Ghost<int>,
    Ghost(s): Ghost<int>,
    Ghost(free): Ghost<Seq<bool>>,
)
    requires
        pl.wf(shapes, width, height, s),
        old(occupied).len() == width * height,
        free.len() == old(occupied).len(),
        piece_cells(shapes, width, pl.piece@).disjoint(taken_set(free)),
        forall|i: int|
            0 <= i < free.len() ==> #[trigger] old(occupied)@[i] == (free[i] || piece_cells(
                shapes,
                width,
                pl.piece@,
            ).contains(i)),
    ensures
        final(occupied)@ == free,
{
    proof {
        lemma_placement_cells(*pl, shapes, width, height, s);
    }
    let ghost cells = piece_cells(shapes, width, pl.piece@);
    let mut k: usize = 0;
    while k < pl.cells.len()
        invariant
            k <= pl.cells.len(),
            pl.wf(shapes, width, height, s),
            occupied.len() == free.len(),
            occupied.len() == width * height,
            cells == piece_cells(shapes, width, pl.piece@),
            cells.disjoint(taken_set(free)),
            forall|i: int|
                cells.contains(i) <==> exists|q: int|
                    0 <= q < pl.cells@.len() && #[trigger] pl.cells@[q] == i,
            forall|i: int|
                0 <= i < occupied.len() ==> #[trigger] occupied@[i] == (free[i] || exists|q: int|
                    k <= q < pl.cells@.len() && #[trigger] pl.cells@[q] == i),
        decreases pl.cells.len() - k,
    {
        let ghost before = occupied@;
        let at: usize = pl.cells[k];
        occupied[at] = false;
        proof {
            assert forall|i: int| 0 <= i < occupied.len() implies #[trigger] occupied@[i] == (
            free[i] || exists|q: int| k + 1 <= q < pl.cells@.len() && #[trigger] pl.cells@[q]
                == i) by {
                if i == at {
                    assert(cells.contains(i));
                    assert(!taken_set(free).contains(i));
                    if exists|q: int| k + 1 <= q < pl.cells@.len() && #[trigger] pl.cells@[q] == i {
                        let q = choose|q: int|
                            k + 1 <= q < pl.cells@.len() && #[trigger] pl.cells@[q] == i;
                        assert(pl.cells@[q] != pl.cells@[k as int]);
                    }
                } else {
                    assert(occupied@[i] == before[i]);
                    if exists|q: int| k <= q < pl.cells@.len() && #[trigger] pl.cells@[q] == i {
                        let q = choose|q: int|
                            k <= q < pl.cells@.len() && #[trigger] pl.cells@[q] == i;
                        assert(q != k);
                    }
                }
            }
        }
        k += 1;
    }
    proof {
        assert(occupied@ =~= free);
    }
}

/// For each shape the list of all its pieces on the board.
pub open spec fn lists_all(
    placements: Seq<Vec<Placement>>,
    shapes: Seq<Shape>,
    width: int,
    height: int,
) -> bool {
    &&& placements.len() == shapes.len()
    &&& forall|s: int|
        0 <= s < shapes.len() ==> lists_pieces(
            (#[trigger] placements[s])@,
            shapes,
            width,
            height,
            s,
        )
}

/// With the `j`-th piece of shape `s` laid first, the other shapes find
/// room as well.
pub open spec fn packable_with(
    placements: Seq<Vec<Placement>>,
    shapes: Seq<Shape>,
    width: int,
    height: int,
    counts: Seq<int>,
    taken: Set<int>,
    s: int,
    j: int,
) -> bool {
    let cells = piece_cells(shapes, width, placements[s]@[j].piece@);
    cells.disjoint(taken) && packable(
        shapes,
        width,
        height,
        counts.update(s, counts[s] - 1),
        taken.union(cells),
    )
}

/// If the shapes find room, they find room with one of the pieces of
/// any shape that is to be laid as the first.
proof fn lemma_some_first(
    placements: Seq<Vec<Placement>>,
    shapes: Seq<Shape>,
    width: int,
    height: int,
    counts: Seq<int>,
    taken: Set<int>,
    s: int,
) -> (j: int)
    requires
        lists_all(placements, shapes, width, height),
        counts.len() == shapes.len(),
        0 <= s < shapes.len(),
        counts[s] > 0,
        packable(shapes, width, height, counts, taken),
    ensures
        0 <= j < placements[s]@.len(),
        packable_with(placements, shapes, width, height, counts, taken, s, j),
{
    let pieces = choose|pieces: Seq<Piece>|
        is_packing(shapes, width, height, counts, taken, pieces);
    assert(count_of(pieces, s, pieces.len() as int) == counts[s]);
    let at = lemma_count_positive(pieces, s, pieces.len() as int);
    let p = pieces[at];
    assert(piece_fits(shapes, width, height, p));
    assert(lists_pieces(placements[s]@, shapes, width, height, s));
    let j = choose|j: int| 0 <= j < placements[s]@.len() && (#[trigger] placements[s]@[j]).piece@
        == p;
    lemma_remove_piece(shapes, width, height, counts, taken, pieces, at);
    assert(piece_cells(shapes, width, p).disjoint(taken));
    j
}

/// Lays the shapes that are left on the board, if they find room
/// beside the places that are taken.
pub fn dfs_pack(
    counts: &mut Vec<usize>,
    placements: &Vec<Vec<Placement>>,
    occupied: &mut Vec<bool>,
    Ghost(shapes): Ghost<Seq<Shape>>,
    Ghost(width): Ghost<int>,
    Ghost(height): Ghost<int>,
) -> (r: bool)
    requires
        lists_all(placements@, shapes, width, height),
        old(counts).len() == shapes.len(),
        old(occupied).len() == width * height,
    ensures
        r == packable(
            shapes,
            width,
            height,
            count_ints(old(counts)@),
            taken_set(old(occupied)@),
        ),
        final(counts).len() == old(counts).len(),
        final(occupied).len() == old(occupied).len(),
        !r ==> final(counts)@ == old(counts)@ && final(occupied)@ == old(occupied)@,
    decreases sum_counts(count_ints(old(counts)@), old(counts).len() as int),
{
    let ghost wanted = count_ints(counts@);
    let ghost taken = taken_set(occupied@);
    let ghost free = occupied@;
    let n: usize = counts.len();
    let mut s: usize = 0;
    while s < n && counts[s] == 0
        invariant
            s <= n,
            n == counts.len(),
            forall|q: int| 0 <= q < s ==> counts@[q] == 0,
        decreases n - s,
    {
        s += 1;
    }
    if s == n {
        proof {
            let none = Seq::<Piece>::empty();
            assert(is_packing(shapes, width, height, wanted, taken, none)) by {
                assert forall|q: int| 0 <= q < shapes.len() implies #[trigger] count_of(
                    none,
                    q,
                    0,
                ) == wanted[q] by {
                    assert(counts@[q] == 0);
                }
            }
        }
        return true;
    }
    proof {
        lemma_sum_update(wanted, s as int, wanted[s as int] - 1, n as int);
        lemma_sum_nonnegative(wanted.update(s as int, wanted[s as int] - 1), n as int);
    }
    let list = &placements[s];
    let mut j: usize = 0;
    while j < list.len()
        invariant
            j <= list.len(),
            s < n,
            n == counts.len(),
            n == shapes.len(),
            *list == placements[s as int],
            lists_all(placements@, shapes, width, height),
            counts@ == old(counts)@,
            occupied@ == old(occupied)@,
            occupied.len() == width * height,
            wanted == count_ints(counts@),
            taken == taken_set(occupied@),
            free == occupied@,
            wanted[s as int] > 0,
            wanted == count_ints(old(counts)@),
            n == old(counts).len(),
            0 <= sum_counts(wanted.update(s as int, wanted[s as int] - 1), n as int) < sum_counts(
                wanted,
                n as int,
            ),
            forall|q: int|
                0 <= q < j ==> !#[trigger] packable_with(
                    placements@,
                    shapes,
                    width,
                    height,
                    wanted,
                    taken,
                    s as int,
                    q,
                ),
        decreases list.len() - j,
    {
        let pl = &list[j];
        proof {
            assert(lists_pieces(placements@[s as int]@, shapes, width, height, s as int));
            assert(pl.wf(shapes, width, height, s as int));
        }
        if !overlaps(pl, occupied, Ghost(shapes), Ghost(width), Ghost(height), Ghost(s as int)) {
            apply_mask(occupied, pl, Ghost(shapes), Ghost(width), Ghost(height), Ghost(s as int));
            let ghost saved = counts@;
            counts[s] = counts[s] - 1;
            proof {
                assert(count_ints(counts@) =~= wanted.update(s as int, wanted[s as int] - 1));
            }
            let ghost laid = occupied@;
            if dfs_pack(counts, placements, occupied, Ghost(shapes), Ghost(width), Ghost(height)) {
                proof {
                    let p = pl.piece@;
                    let fewer = wanted.update(s as int, wanted[s as int] - 1);
                    let more = taken.union(piece_cells(shapes, width, p));
                    assert(packable(shapes, width, height, fewer, more));
                    let rest = choose|rest: Seq<Piece>|
                        is_packing(shapes, width, height, fewer, more, rest);
                    lemma_prepend_piece(shapes, width, height, wanted, taken, p, rest);
                }
                return true;
            }
            counts[s] = counts[s] + 1;
            proof {
                assert(counts@ =~= saved);
            }
            remove_mask(
                occupied,
                pl,
                Ghost(shapes),
                Ghost(width),
                Ghost(height),
                Ghost(s as int),
                Ghost(free),
            );
        }
        j += 1;
    }
    proof {
        if packable(shapes, width, height, wanted, taken) {
            let q = lemma_some_first(placements@, shapes, width, height, wanted, taken, s as int);
            assert(!packable_with(placements@, shapes, width, height, wanted, taken, s as int, q));
        }
    }
    false
}

/// The places of a piece on the board are as many as its cells, and
/// are places of the board.
proof fn lemma_piece_size(shapes: Seq<Shape>, width: int, height: int, p: Piece)
    requires
        piece_fits(shapes, width, height, p),
        way_of(shapes, p).wf(),
    ensures
        piece_cells(shapes, width, p).finite(),
        piece_cells(shapes, width, p).len() == way_of(shapes, p).cells.len(),
        piece_cells(shapes, width, p).subset_of(set_int_range(0, width * height)),
{
    let o = way_of(shapes, p);
    let list = Seq::new(o.cells.len() as nat, |k: int| piece_cell(shapes, width, p, k));
    let cells = piece_cells(shapes, width, p);
    assert forall|a: int, b: int|
        0 <= a < list.len() && 0 <= b < list.len() && a != b implies list[a] != list[b] by {
        let ints = cell_ints(o.cells@);
        assert(ints[a] != ints[b]);
        assert(ints[a] == (o.cells@[a].0 as int, o.cells@[a].1 as int));
        assert(ints[b] == (o.cells@[b].0 as int, o.cells@[b].1 as int));
        assert(o.cells@[a].0 < o.height && o.cells@[a].1 < o.width);
        assert(o.cells@[b].0 < o.height && o.cells@[b].1 < o.width);
        lemma_cell_index(
            width,
            height,
            p.y + o.cells@[a].0,
            p.x + o.cells@[a].1,
            p.y + o.cells@[b].0,
            p.x + o.cells@[b].1,
        );
    }
    assert(list.to_set() =~= cells) by {
        assert forall|i: int| list.to_set().contains(i) == cells.contains(i) by {
            if list.contains(i) {
                let k = choose|k: int| 0 <= k < list.len() && list[k] == i;
                assert(i == piece_cell(shapes, width, p, k));
            }
            if cells.contains(i) {
                let k = choose|k: int|
                    0 <= k < o.cells.len() && i == #[trigger] piece_cell(shapes, width, p, k);
                assert(list[k] == i);
            }
        }
    }
    seq_to_set_is_finite(list);
    list.unique_seq_to_set();
    assert forall|i: int| cells.contains(i) implies set_int_range(0, width * height).contains(
        i,
    ) by {
        let k = choose|k: int|
            0 <= k < o.cells.len() && i == #[trigger] piece_cell(shapes, width, p, k);
        assert(o.cells@[k].0 < o.height && o.cells@[k].1 < o.width);
        lemma_cell_index(width, height, p.y + o.cells@[k].0, p.x + o.cells@[k].1, 0, 0);
    }
}

/// The places that the first `k` pieces take together.
pub open spec fn places_of(shapes: Seq<Shape>, width: int, pieces: Seq<Piece>, k: int) -> Set<int>
    decreases k,
{
    if k <= 0 {
        Set::empty()
    } else {
        places_of(shapes, width, pieces, k - 1).union(piece_cells(shapes, width, pieces[k - 1]))
    }
}

/// The smallest numbers of cells of the shapes of the first `k` pieces,
/// added up.
pub open spec fn areas_of(shapes: Seq<Shape>, pieces: Seq<Piece>, k: int) -> int
    decreases k,
{
    if k <= 0 {
        0
    } else {
        areas_of(shapes, pieces, k - 1) + shapes[pieces[k - 1].shape].area
    }
}

/// The smallest number of cells of each of the first `n` shapes, times
/// its count, added up.
pub open spec fn weighted(shapes: Seq<Shape>, counts: Seq<int>, n: int) -> int
    decreases n,
{
    if n <= 0 {
        0
    } else {
        weighted(shapes, counts, n - 1) + counts[n - 1] * shapes[n - 1].area
    }
}

/// The counts of the shapes among the first `k` pieces.
pub open spec fn counts_at(shapes: Seq<Shape>, pieces: Seq<Piece>, k: int) -> Seq<int> {
    Seq::new(shapes.len(), |s: int| count_of(pieces, s, k))
}

proof fn lemma_weighted_step(shapes: Seq<Shape>, a: Seq<int>, b: Seq<int>, at: int, n: int)
    requires
        a.len() == shapes.len(),
        b.len() == shapes.len(),
        0 <= n <= shapes.len(),
        forall|s: int| 0 <= s < shapes.len() ==> b[s] == a[s] + if s == at { 1int } else { 0int },
    ensures
        weighted(shapes, b, n) == weighted(shapes, a, n) + if 0 <= at < n {
            shapes[at].area as int
        } else {
            0
        },
    decreases n,
{
    if n > 0 {
        lemma_weighted_step(shapes, a, b, at, n - 1);
        let area = shapes[n - 1].area as int;
        assert(b[n - 1] == a[n - 1] + if n - 1 == at { 1int } else { 0int });
        assert((a[n - 1] + 1) * area == a[n - 1] * area + area) by (nonlinear_arith);
    }
}

proof fn lemma_weighted_zero(shapes: Seq<Shape>, a: Seq<int>, n: int)
    requires
        a.len() == shapes.len(),
        0 <= n <= shapes.len(),
        forall|s: int| 0 <= s < shapes.len() ==> a[s] == 0,
    ensures
        weighted(shapes, a, n) == 0,
    decreases n,
{
    if n > 0 {
        lemma_weighted_zero(shapes, a, n - 1);
        assert(a[n - 1] == 0);
        assert(0 * (shapes[n - 1].area as int) == 0);
    }
}

/// Pieces that do not overlap take at least as many places of the board
/// as their shapes have cells.
proof fn lemma_places(
    shapes: Seq<Shape>,
    width: int,
    height: int,
    counts: Seq<int>,
    pieces: Seq<Piece>,
    k: int,
)
    requires
        is_packing(shapes, width, height, counts, Set::<int>::empty(), pieces),
        forall|s: int| 0 <= s < shapes.len() ==> (#[trigger] shapes[s]).wf(),
        0 <= k <= pieces.len(),
    ensures
        places_of(shapes, width, pieces, k).finite(),
        places_of(shapes, width, pieces, k).subset_of(set_int_range(0, width * height)),
        places_of(shapes, width, pieces, k).len() >= areas_of(shapes, pieces, k),
        areas_of(shapes, pieces, k) == weighted(
            shapes,
            counts_at(shapes, pieces, k),
            shapes.len() as int,
        ),
        forall|i: int, x: int|
            k <= i < pieces.len() && #[trigger] piece_cells(shapes, width, pieces[i]).contains(x)
                ==> !places_of(shapes, width, pieces, k).contains(x),
    decreases k,
{
    if k == 0 {
        lemma_weighted_zero(shapes, counts_at(shapes, pieces, 0), shapes.len() as int);
    } else {
        lemma_places(shapes, width, height, counts, pieces, k - 1);
        let p = pieces[k - 1];
        let before = places_of(shapes, width, pieces, k - 1);
        let cells = piece_cells(shapes, width, p);
        assert(piece_fits(shapes, width, height, p));
        assert(shapes[p.shape].wf());
        assert(way_of(shapes, p).wf());
        lemma_piece_size(shapes, width, height, p);
        assert(before.disjoint(cells)) by {
            assert forall|x: int| !(before.contains(x) && cells.contains(x)) by {
                if cells.contains(x) {
                    assert(piece_cells(shapes, width, pieces[k - 1]).contains(x));
                }
            }
        }
        lemma_set_disjoint_lens(before, cells);
        assert(way_of(shapes, p).cells.len() >= shapes[p.shape].area);
        lemma_weighted_step(
            shapes,
            counts_at(shapes, pieces, k - 1),
            counts_at(shapes, pieces, k),
            p.shape,
            shapes.len() as int,
        );
        assert forall|i: int, x: int|
            k <= i < pieces.len() && #[trigger] piece_cells(shapes, width, pieces[i]).contains(
                x,
            ) implies !places_of(shapes, width, pieces, k).contains(x) by {
            assert(piece_cells(shapes, width, pieces[k - 1]).disjoint(
                piece_cells(shapes, width, pieces[i]),
            ));
        }
    }
}

/// Shapes that find room on a board have together no more cells than the
/// board has places.
pub proof fn lemma_area_bound(shapes: Seq<Shape>, width: int, height: int, counts: Seq<int>)
    requires
        forall|s: int| 0 <= s < shapes.len() ==> (#[trigger] shapes[s]).wf(),
        counts.len() == shapes.len(),
        0 <= width,
        0 <= height,
        packable(shapes, width, height, counts, Set::<int>::empty()),
    ensures
        weighted(shapes, counts, shapes.len() as int) <= width * height,
{
    let pieces = choose|pieces: Seq<Piece>|
        is_packing(shapes, width, height, counts, Set::<int>::empty(), pieces);
    lemma_places(shapes, width, height, counts, pieces, pieces.len() as int);
    assert(0 <= width * height) by (nonlinear_arith)
        requires
            0 <= width,
            0 <= height,
    ;
    lemma_int_range(0, width * height);
    lemma_len_subset(
        places_of(shapes, width, pieces, pieces.len() as int),
        set_int_range(0, width * height),
    );
    assert(counts_at(shapes, pieces, pieces.len() as int) =~= counts) by {
        assert forall|s: int| 0 <= s < shapes.len() implies counts_at(
            shapes,
            pieces,
            pieces.len() as int,
        )[s] == counts[s] by {
            assert(count_of(pieces, s, pieces.len() as int) == counts[s]);
        }
    }
}

proof fn lemma_weighted_grows(shapes: Seq<Shape>, counts: Seq<int>, k: int, n: int)
    requires
        0 <= k <= n <= shapes.len(),
        counts.len() == shapes.len(),
        forall|s: int| 0 <= s < counts.len() ==> #[trigger] counts[s] >= 0,
    ensures
        0 <= weighted(shapes, counts, k) <= weighted(shapes, counts, n),
    decreases n,
{
    if n > 0 {
        if k < n {
            lemma_weighted_grows(shapes, counts, k, n - 1);
        } else {
            lemma_weighted_grows(shapes, counts, k - 1, n - 1);
        }
        assert(counts[n - 1] * (shapes[n - 1].area as int) >= 0) by (nonlinear_arith)
            requires
                counts[n - 1] >= 0,
                shapes[n - 1].area >= 0,
        ;
    }
}

/// The cells of the shapes that are to lie on a board, added up, if the
/// sum fits.
fn total_area(shapes: &Vec<Shape>, counts: &Vec<usize>) -> (r: Option<usize>)
    requires
        counts.len() == shapes.len(),
    ensures
        match r {
            Some(sum) => sum == weighted(shapes@, count_ints(counts@), shapes.len() as int),
            None => weighted(shapes@, count_ints(counts@), shapes.len() as int) > usize::MAX,
        },
{
    let ghost ints = count_ints(counts@);
    let mut sum: usize = 0;
    let mut s: usize = 0;
    while s < shapes.len()
        invariant
            s <= shapes.len(),
            counts.len() == shapes.len(),
            ints == count_ints(counts@),
            sum == weighted(shapes@, ints, s as int),
        decreases shapes.len() - s,
    {
        proof {
            lemma_weighted_grows(shapes@, ints, s + 1, shapes.len() as int);
            assert(ints[s as int] == counts@[s as int]);
        }
        let part = match counts[s].checked_mul(shapes[s].area) {
            Some(part) => part,
            None => {
                proof {
                    lemma_weighted_grows(shapes@, ints, s as int, s + 1);
                }
                return None;
            },
        };
        sum = match sum.checked_add(part) {
            Some(more) => more,
            None => {
                return None;
            },
        };
        s += 1;
    }
    Some(sum)
}

/// The largest width of the first `n` shapes in all their ways, or zero
/// where there is no shape.
pub open spec fn widest(shapes: Seq<Shape>, n: int) -> int
    decreases n,
{
    if n <= 0 {
        0
    } else if shapes[n - 1].max_width > widest(shapes, n - 1) {
        shapes[n - 1].max_width as int
    } else {
        widest(shapes, n - 1)
    }
}

/// The largest height of the first `n` shapes in all their ways, or zero
/// where there is no shape.
pub open spec fn highest(shapes: Seq<Shape>, n: int) -> int
    decreases n,
{
    if n <= 0 {
        0
    } else if shapes[n - 1].max_height > highest(shapes, n - 1) {
        shapes[n - 1].max_height as int
    } else {
        highest(shapes, n - 1)
    }
}

/// The shapes are no more than the slots of the board: the board is cut
/// into slots as wide as the widest shape and as high as the highest,
/// and every shape that `counts` asks for gets a slot of its own.
pub open spec fn in_slots(shapes: Seq<Shape>, width: int, height: int, counts: Seq<int>) -> bool {
    let slot_w = widest(shapes, shapes.len() as int);
    let slot_h = highest(shapes, shapes.len() as int);
    slot_w >= 1 && slot_h >= 1 && sum_counts(counts, counts.len() as int) <= (width / slot_w) * (
    height / slot_h)
}

/// The largest width and height of all shapes in all their ways.
pub fn max_shape_dims(shapes: &Vec<Shape>) -> (r: (usize, usize))
    ensures
        r.0 == widest(shapes@, shapes.len() as int),
        r.1 == highest(shapes@, shapes.len() as int),
        forall|s: int|
            0 <= s < shapes.len() ==> (#[trigger] shapes[s]).max_width <= r.0
                && shapes[s].max_height <= r.1,
        r.0 == 0 || exists|s: int| 0 <= s < shapes.len() && (#[trigger] shapes[s]).max_width == r.0,
        r.1 == 0 || exists|s: int|
            0 <= s < shapes.len() && (#[trigger] shapes[s]).max_height == r.1,
{
    let mut max_w: usize = 0;
    let mut max_h: usize = 0;
    let mut s: usize = 0;
    while s < shapes.len()
        invariant
            s <= shapes.len(),
            forall|q: int|
                0 <= q < s ==> (#[trigger] shapes[q]).max_width <= max_w && shapes[q].max_height
                    <= max_h,
            max_w == 0 || exists|q: int| 0 <= q < s && (#[trigger] shapes[q]).max_width == max_w,
            max_h == 0 || exists|q: int| 0 <= q < s && (#[trigger] shapes[q]).max_height == max_h,
            max_w == widest(shapes@, s as int),
            max_h == highest(shapes@, s as int),
        decreases shapes.len() - s,
    {
        if shapes[s].max_width > max_w {
            max_w = shapes[s].max_width;
        }
        if shapes[s].max_height > max_h {
            max_h = shapes[s].max_height;
        }
        s += 1;
    }
    (max_w, max_h)
}

/// Whether the shapes find room on the board, found by laying them out.
pub fn can_fit_exact(width: usize, height: usize, shapes: &Vec<Shape>, counts: &Vec<usize>) -> (r:
    bool)
    requires
        forall|s: int| 0 <= s < shapes.len() ==> (#[trigger] shapes[s]).wf(),
        counts.len() == shapes.len(),
        width * height <= usize::MAX,
    ensures
        r == packable(
            shapes@,
            width as int,
            height as int,
            count_ints(counts@),
            Set::<int>::empty(),
        ),
{
    let mut placements: Vec<Vec<Placement>> = Vec::new();
    let mut s: usize = 0;
    while s < shapes.len()
        invariant
            s <= shapes.len(),
            placements.len() == s,
            width * height <= usize::MAX,
            forall|q: int| 0 <= q < shapes.len() ==> (#[trigger] shapes[q]).wf(),
            forall|q: int|
                0 <= q < s ==> lists_pieces(
                    (#[trigger] placements[q])@,
                    shapes@,
                    width as int,
                    height as int,
                    q,
                ),
        decreases shapes.len() - s,
    {
        let list = build_placements(shapes, s, width, height);
        placements.push(list);
        s += 1;
    }
    let mut left: Vec<usize> = Vec::new();
    let mut k: usize = 0;
    while k < counts.len()
        invariant
            k <= counts.len(),
            left.len() == k,
            forall|q: int| 0 <= q < k ==> left@[q] == counts@[q],
        decreases counts.len() - k,
    {
        left.push(counts[k]);
        k += 1;
    }
    let area: usize = width * height;
    let mut occupied: Vec<bool> = Vec::new();
    let mut i: usize = 0;
    while i < area
        invariant
            i <= area,
            occupied.len() == i,
            forall|q: int| 0 <= q < i ==> !occupied@[q],
        decreases area - i,
    {
        occupied.push(false);
        i += 1;
    }
    proof {
        assert(left@ =~= counts@);
        assert(taken_set(occupied@) =~= Set::<int>::empty());
    }
    dfs_pack(
        &mut left,
        &placements,
        &mut occupied,
        Ghost(shapes@),
        Ghost(width as int),
        Ghost(height as int),
    )
}

/// The piece of shape `s` in the `t`-th slot, where the board is cut
/// into slots of `slot_w` by `slot_h` places, `cols` of them side by
/// side. The shape lies in its first way in the corner of the slot.
pub open spec fn slot_piece(s: int, t: int, cols: int, slot_w: int, slot_h: int) -> Piece {
    Piece { shape: s, way: 0, x: (t % cols) * slot_w, y: (t / cols) * slot_h }
}

/// As many pieces of each of the first `n` shapes as `counts` says, each
/// in a slot of its own.
pub open spec fn slot_pieces(counts: Seq<int>, n: int, cols: int, slot_w: int, slot_h: int) -> Seq<
    Piece,
>
    decreases n,
{
    if n <= 0 {
        Seq::empty()
    } else {
        let before = slot_pieces(counts, n - 1, cols, slot_w, slot_h);
        before + Seq::new(
            counts[n - 1] as nat,
            |i: int| slot_piece(n - 1, before.len() + i, cols, slot_w, slot_h),
        )
    }
}

/// Lists that agree on the first `k` pieces have as many of a shape
/// there.
proof fn lemma_count_prefix(a: Seq<Piece>, b: Seq<Piece>, s: int, k: int)
    requires
        0 <= k <= a.len(),
        k <= b.len(),
        forall|i: int| 0 <= i < k ==> a[i] == b[i],
    ensures
        count_of(a, s, k) == count_of(b, s, k),
    decreases k,
{
    if k > 0 {
        lemma_count_prefix(a, b, s, k - 1);
    }
}

/// The pieces of a shape in two lists, one after the other, are those of
/// both.
proof fn lemma_count_joined(a: Seq<Piece>, b: Seq<Piece>, s: int, j: int)
    requires
        0 <= j <= b.len(),
    ensures
        count_of(a + b, s, a.len() + j) == count_of(a, s, a.len() as int) + count_of(b, s, j),
    decreases j,
{
    if j == 0 {
        lemma_count_prefix(a + b, a, s, a.len() as int);
    } else {
        lemma_count_joined(a, b, s, j - 1);
        assert((a + b)[a.len() + j - 1] == b[j - 1]);
    }
}

/// Pieces of one shape count for that shape only.
proof fn lemma_count_run(run: Seq<Piece>, s: int, q: int, j: int)
    requires
        0 <= j <= run.len(),
        forall|i: int| 0 <= i < run.len() ==> (#[trigger] run[i]).shape == s,
    ensures
        count_of(run, q, j) == if q == s { j } else { 0 },
    decreases j,
{
    if j > 0 {
        lemma_count_run(run, s, q, j - 1);
        assert(run[j - 1].shape == s);
    }
}

/// The pieces in their slots are as many of each shape as the counts
/// say, and the `t`-th of them lies in the `t`-th slot.
proof fn lemma_slot_pieces(counts: Seq<int>, n: int, cols: int, slot_w: int, slot_h: int)
    requires
        0 <= n <= counts.len(),
        forall|s: int| 0 <= s < counts.len() ==> #[trigger] counts[s] >= 0,
    ensures
        slot_pieces(counts, n, cols, slot_w, slot_h).len() == sum_counts(counts, n),
        forall|t: int|
            0 <= t < slot_pieces(counts, n, cols, slot_w, slot_h).len() ==> 0 <= (
            #[trigger] slot_pieces(counts, n, cols, slot_w, slot_h)[t]).shape < n && slot_pieces(
                counts,
                n,
                cols,
                slot_w,
                slot_h,
            )[t] == slot_piece(
                slot_pieces(counts, n, cols, slot_w, slot_h)[t].shape,
                t,
                cols,
                slot_w,
                slot_h,
            ),
        forall|q: int|
            #[trigger] count_of(
                slot_pieces(counts, n, cols, slot_w, slot_h),
                q,
                slot_pieces(counts, n, cols, slot_w, slot_h).len() as int,
            ) == if 0 <= q < n {
                counts[q]
            } else {
                0
            },
    decreases n,
{
    if n > 0 {
        lemma_slot_pieces(counts, n - 1, cols, slot_w, slot_h);
        let before = slot_pieces(counts, n - 1, cols, slot_w, slot_h);
        assert(counts[n - 1] >= 0);
        let run = Seq::new(
            counts[n - 1] as nat,
            |i: int| slot_piece(n - 1, before.len() + i, cols, slot_w, slot_h),
        );
        let all = slot_pieces(counts, n, cols, slot_w, slot_h);
        assert(all == before + run);
        assert forall|t: int| 0 <= t < all.len() implies 0 <= (#[trigger] all[t]).shape < n
            && all[t] == slot_piece(all[t].shape, t, cols, slot_w, slot_h) by {
            if t < before.len() {
                assert(all[t] == before[t]);
            } else {
                assert(all[t] == run[t - before.len()]);
            }
        }
        assert forall|q: int| #[trigger] count_of(all, q, all.len() as int) == if 0 <= q < n {
            counts[q]
        } else {
            0
        } by {
            lemma_count_joined(before, run, q, run.len() as int);
            lemma_count_run(run, n - 1, q, run.len() as int);
            assert(count_of(before, q, before.len() as int) == if 0 <= q < n - 1 {
                counts[q]
            } else {
                0
            });
        }
    }
}

/// The `t`-th slot lies on the board.
proof fn lemma_slot_bounds(
    width: int,
    height: int,
    cols: int,
    rows: int,
    slot_w: int,
    slot_h: int,
    t: int,
)
    requires
        cols >= 1,
        slot_w >= 1,
        slot_h >= 1,
        cols * slot_w <= width,
        rows * slot_h <= height,
        0 <= t < cols * rows,
    ensures
        0 <= t % cols < cols,
        0 <= t / cols < rows,
        0 <= (t % cols) * slot_w,
        (t % cols) * slot_w + slot_w <= width,
        0 <= (t / cols) * slot_h,
        (t / cols) * slot_h + slot_h <= height,
{
    lemma_mod_pos_bound(t, cols);
    lemma_div_pos_is_pos(t, cols);
    lemma_multiply_divide_lt(t, cols, rows);
    let col = t % cols;
    let row = t / cols;
    assert(0 <= col * slot_w && col * slot_w + slot_w <= cols * slot_w) by (nonlinear_arith)
        requires
            0 <= col < cols,
            slot_w >= 1,
    ;
    assert(0 <= row * slot_h && row * slot_h + slot_h <= rows * slot_h) by (nonlinear_arith)
        requires
            0 <= row < rows,
            slot_h >= 1,
    ;
}

/// Slots that start at the same place are the same slot.
proof fn lemma_same_start(a: int, b: int, size: int, r: int, r2: int)
    requires
        size >= 1,
        0 <= r < size,
        0 <= r2 < size,
        a * size + r == b * size + r2,
    ensures
        a == b,
{
    if a < b {
        assert(a * size + size <= b * size) by (nonlinear_arith)
            requires
                a + 1 <= b,
                size >= 1,
        ;
    } else if b < a {
        assert(b * size + size <= a * size) by (nonlinear_arith)
            requires
                b + 1 <= a,
                size >= 1,
        ;
    }
}

/// Places in different slots are different places.
proof fn lemma_slots_apart(
    width: int,
    height: int,
    cols: int,
    rows: int,
    slot_w: int,
    slot_h: int,
    t: int,
    u: int,
    at: (int, int),
    other: (int, int),
)
    requires
        cols >= 1,
        slot_w >= 1,
        slot_h >= 1,
        cols * slot_w <= width,
        rows * slot_h <= height,
        0 <= t < cols * rows,
        0 <= u < cols * rows,
        t != u,
        0 <= at.0 < slot_h,
        0 <= at.1 < slot_w,
        0 <= other.0 < slot_h,
        0 <= other.1 < slot_w,
    ensures
        cell_index(width, (t / cols) * slot_h + at.0, (t % cols) * slot_w + at.1) != cell_index(
            width,
            (u / cols) * slot_h + other.0,
            (u % cols) * slot_w + other.1,
        ),
{
    lemma_slot_bounds(width, height, cols, rows, slot_w, slot_h, t);
    lemma_slot_bounds(width, height, cols, rows, slot_w, slot_h, u);
    let row = (t / cols) * slot_h + at.0;
    let col = (t % cols) * slot_w + at.1;
    let row2 = (u / cols) * slot_h + other.0;
    let col2 = (u % cols) * slot_w + other.1;
    lemma_cell_index(width, height, row, col, row2, col2);
    if cell_index(width, row, col) == cell_index(width, row2, col2) {
        lemma_same_start(t / cols, u / cols, slot_h, at.0, other.0);
        lemma_same_start(t % cols, u % cols, slot_w, at.1, other.1);
        lemma_fundamental_div_mod(t, cols);
        lemma_fundamental_div_mod(u, cols);
    }
}

/// Shapes that are no more than the slots of the board find room on it:
/// each in a slot of its own. A slot is as wide and as high as the
/// widest and the highest of the shapes.
pub proof fn lemma_slots_pack(
    shapes: Seq<Shape>,
    width: int,
    height: int,
    counts: Seq<int>,
    slot_w: int,
    slot_h: int,
)
    requires
        forall|s: int| 0 <= s < shapes.len() ==> (#[trigger] shapes[s]).wf(),
        counts.len() == shapes.len(),
        forall|s: int| 0 <= s < counts.len() ==> #[trigger] counts[s] >= 0,
        forall|s: int|
            0 <= s < shapes.len() ==> (#[trigger] shapes[s]).max_width <= slot_w
                && shapes[s].max_height <= slot_h,
        0 <= width,
        0 <= height,
        slot_w >= 1,
        slot_h >= 1,
        sum_counts(counts, counts.len() as int) <= (width / slot_w) * (height / slot_h),
    ensures
        packable(shapes, width, height, counts, Set::<int>::empty()),
{
    let cols = width / slot_w;
    let rows = height / slot_h;
    let n = shapes.len() as int;
    let pieces = slot_pieces(counts, n, cols, slot_w, slot_h);
    lemma_slot_pieces(counts, n, cols, slot_w, slot_h);
    lemma_fundamental_div_mod(width, slot_w);
    lemma_fundamental_div_mod(height, slot_h);
    lemma_mod_pos_bound(width, slot_w);
    lemma_mod_pos_bound(height, slot_h);
    lemma_div_pos_is_pos(width, slot_w);
    lemma_div_pos_is_pos(height, slot_h);
    assert(cols * slot_w == slot_w * cols && rows * slot_h == slot_h * rows) by (nonlinear_arith);
    if pieces.len() > 0 {
        assert(cols >= 1) by (nonlinear_arith)
            requires
                0 < cols * rows,
                cols >= 0,
                rows >= 0,
        ;
    }
    assert forall|i: int| 0 <= i < pieces.len() implies piece_fits(
        shapes,
        width,
        height,
        #[trigger] pieces[i],
    ) && piece_cells(shapes, width, pieces[i]).disjoint(Set::<int>::empty()) by {
        let p = pieces[i];
        assert(p == slot_piece(p.shape, i, cols, slot_w, slot_h));
        assert(shapes[p.shape].wf());
        let o = shapes[p.shape].orientations[0];
        assert(o.width <= shapes[p.shape].max_width && o.height <= shapes[p.shape].max_height);
        lemma_slot_bounds(width, height, cols, rows, slot_w, slot_h, i);
    }
    assert forall|i: int, j: int| 0 <= i < j < pieces.len() implies piece_cells(
        shapes,
        width,
        #[trigger] pieces[i],
    ).disjoint(piece_cells(shapes, width, #[trigger] pieces[j])) by {
        let p = pieces[i];
        let q = pieces[j];
        assert(p == slot_piece(p.shape, i, cols, slot_w, slot_h));
        assert(q == slot_piece(q.shape, j, cols, slot_w, slot_h));
        assert(shapes[p.shape].wf());
        assert(shapes[q.shape].wf());
        let o = shapes[p.shape].orientations[0];
        let o2 = shapes[q.shape].orientations[0];
        assert(o.wf() && o2.wf());
        assert(o.width <= shapes[p.shape].max_width && o.height <= shapes[p.shape].max_height);
        assert(o2.width <= shapes[q.shape].max_width && o2.height <= shapes[q.shape].max_height);
        assert forall|c: int|
            !(piece_cells(shapes, width, p).contains(c) && piece_cells(shapes, width, q).contains(
                c,
            )) by {
            if piece_cells(shapes, width, p).contains(c) && piece_cells(shapes, width, q).contains(
                c,
            ) {
                let k = choose|k: int|
                    0 <= k < o.cells.len() && c == #[trigger] piece_cell(shapes, width, p, k);
                let k2 = choose|k2: int|
                    0 <= k2 < o2.cells.len() && c == #[trigger] piece_cell(shapes, width, q, k2);
                assert(o.cells@[k].0 < o.height && o.cells@[k].1 < o.width);
                assert(o2.cells@[k2].0 < o2.height && o2.cells@[k2].1 < o2.width);
                lemma_slots_apart(
                    width,
                    height,
                    cols,
                    rows,
                    slot_w,
                    slot_h,
                    i,
                    j,
                    (o.cells@[k].0 as int, o.cells@[k].1 as int),
                    (o2.cells@[k2].0 as int, o2.cells@[k2].1 as int),
                );
            }
        }
    }
    assert forall|s: int| 0 <= s < shapes.len() implies #[trigger] count_of(
        pieces,
        s,
        pieces.len() as int,
    ) == counts[s] by {}
    assert(is_packing(shapes, width, height, counts, Set::<int>::empty(), pieces));
}

/// The counts added up, if the sum fits.
fn total_count(counts: &Vec<usize>) -> (r: Option<usize>)
    ensures
        match r {
            Some(sum) => sum == sum_counts(count_ints(counts@), counts.len() as int),
            None => sum_counts(count_ints(counts@), counts.len() as int) > usize::MAX,
        },
{
    let ghost ints = count_ints(counts@);
    let mut sum: usize = 0;
    let mut s: usize = 0;
    while s < counts.len()
        invariant
            s <= counts.len(),
            ints == count_ints(counts@),
            sum == sum_counts(ints, s as int),
        decreases counts.len() - s,
    {
        proof {
            assert(ints[s as int] == counts@[s as int]);
            lemma_sum_grows(ints, s + 1, counts.len() as int);
        }
        sum = match sum.checked_add(counts[s]) {
            Some(more) => more,
            None => {
                return None;
            },
        };
        s += 1;
    }
    Some(sum)
}

/// No count is below zero, so the sums of more counts are no smaller.
proof fn lemma_sum_grows(counts: Seq<int>, k: int, n: int)
    requires
        0 <= k <= n <= counts.len(),
        forall|s: int| 0 <= s < counts.len() ==> #[trigger] counts[s] >= 0,
    ensures
        0 <= sum_counts(counts, k) <= sum_counts(counts, n),
    decreases n,
{
    if n > 0 {
        if k < n {
            lemma_sum_grows(counts, k, n - 1);
        } else {
            lemma_sum_grows(counts, k - 1, n - 1);
        }
        assert(counts[n - 1] >= 0);
    }
}

/// Whether the shapes are no more than the slots of the board, each slot
/// as wide and as high as the widest and the highest of the shapes.
/// Shapes that are no more than the slots find room on the board.
fn fits_in_slots(region: &Region, shapes: &Vec<Shape>) -> (r: bool)
    requires
        forall|s: int| 0 <= s < shapes.len() ==> (#[trigger] shapes[s]).wf(),
        region.counts.len() == shapes.len(),
        region.width * region.height <= usize::MAX,
    ensures
        r == in_slots(
            shapes@,
            region.width as int,
            region.height as int,
            count_ints(region.counts@),
        ),
        r ==> packable(
            shapes@,
            region.width as int,
            region.height as int,
            count_ints(region.counts@),
            Set::<int>::empty(),
        ),
{
    let (slot_w, slot_h) = max_shape_dims(shapes);
    if slot_w == 0 || slot_h == 0 {
        return false;
    }
    let cols: usize = region.width / slot_w;
    let rows: usize = region.height / slot_h;
    proof {
        lemma_fundamental_div_mod(region.width as int, slot_w as int);
        lemma_fundamental_div_mod(region.height as int, slot_h as int);
        lemma_mod_pos_bound(region.width as int, slot_w as int);
        lemma_mod_pos_bound(region.height as int, slot_h as int);
        assert(cols * rows <= region.width * region.height) by (nonlinear_arith)
            requires
                0 <= cols <= region.width,
                0 <= rows <= region.height,
        ;
    }
    let total = match total_count(&region.counts) {
        Some(total) => total,
        None => {
            return false;
        },
    };
    if total <= cols * rows {
        proof {
            lemma_slots_pack(
                shapes@,
                region.width as int,
                region.height as int,
                count_ints(region.counts@),
                slot_w as int,
                slot_h as int,
            );
        }
        true
    } else {
        false
    }
}

/// Whether the shapes find room on the board.
pub fn can_fit(region: &Region, shapes: &Vec<Shape>) -> (r: Result<bool, Error>)
    requires
        forall|s: int| 0 <= s < shapes.len() ==> (#[trigger] shapes[s]).wf(),
        region.counts.len() == shapes.len(),
    ensures
        match r {
            Ok(fits) => region.width * region.height <= usize::MAX && fits == packable(
                shapes@,
                region.width as int,
                region.height as int,
                count_ints(region.counts@),
                Set::<int>::empty(),
            ),
            Err(e) => e == Error::TooLarge && region.width * region.height > usize::MAX,
        },
{
    let board = match region.width.checked_mul(region.height) {
        Some(board) => board,
        None => {
            return Err(Error::TooLarge);
        },
    };
    let fits_by_area = match total_area(shapes, &region.counts) {
        Some(cells) => cells <= board,
        None => false,
    };
    if !fits_by_area {
        proof {
            if packable(
                shapes@,
                region.width as int,
                region.height as int,
                count_ints(region.counts@),
                Set::<int>::empty(),
            ) {
                lemma_area_bound(
                    shapes@,
                    region.width as int,
                    region.height as int,
                    count_ints(region.counts@),
                );
            }
        }
        return Ok(false);
    }
    if fits_in_slots(region, shapes) {
        return Ok(true);
    }
    Ok(can_fit_exact(region.width, region.height, shapes, &region.counts))
}

/// The places of a row of a shape from the `c`-th byte on, after those
/// in `acc`.
pub open spec fn spec_shape_row(row: Seq<u8>, c: int, acc: Seq<bool>) -> Result<Seq<bool>, Error>
    decreases row.len() - c,
{
    if c < 0 || c >= row.len() {
        Ok(acc)
    } else if row[c] == HASH {
        spec_shape_row(row, c + 1, acc.push(true))
    } else if row[c] == DOT {
        spec_shape_row(row, c + 1, acc.push(false))
    } else {
        Err(Error::InvalidCharacter(row[c]))
    }
}

/// The grid of a shape from its `r`-th row on, after the rows in `acc`.
pub open spec fn spec_shape_grid(rows: Seq<Seq<u8>>, r: int, acc: Seq<Seq<bool>>) -> Result<
    Seq<Seq<bool>>,
    Error,
>
    decreases rows.len() - r,
{
    if r < 0 || r >= rows.len() {
        if has_cell(acc) {
            Ok(acc)
        } else {
            Err(Error::NoCells)
        }
    } else if rows[r].len() != rows[0].len() {
        Err(Error::InconsistentWidths)
    } else {
        match spec_shape_row(rows[r], 0, Seq::empty()) {
            Err(e) => Err(e),
            Ok(row) => spec_shape_grid(rows, r + 1, acc.push(row)),
        }
    }
}

proof fn lemma_shape_row(row: Seq<u8>, c: int, acc: Seq<bool>)
    requires
        0 <= c <= row.len(),
        spec_shape_row(row, c, acc) is Ok,
    ensures
        spec_shape_row(row, c, acc).unwrap().len() == acc.len() + row.len() - c,
    decreases row.len() - c,
{
    if c < row.len() {
        lemma_shape_row(row, c + 1, acc.push(row[c] == HASH));
    }
}

/// Reads a row of a shape.
fn parse_shape_row(row: &[u8]) -> (r: Result<Vec<bool>, Error>)
    ensures
        match (r, spec_shape_row(row@, 0, Seq::empty())) {
            (Ok(cells), Ok(s)) => cells@ == s && cells.len() == row.len(),
            (Err(e), Err(f)) => e == f,
            _ => false,
        },
{
    let mut cells: Vec<bool> = Vec::new();
    let mut c: usize = 0;
    while c < row.len()
        invariant
            c <= row.len(),
            cells.len() == c,
            spec_shape_row(row@, 0, Seq::empty()) == spec_shape_row(row@, c as int, cells@),
        decreases row.len() - c,
    {
        let b = row[c];
        if b == HASH {
            cells.push(true);
        } else if b == DOT {
            cells.push(false);
        } else {
            return Err(Error::InvalidCharacter(b));
        }
        c += 1;
    }
    Ok(cells)
}

/// Reads the grid of a shape from its rows.
pub fn parse_shape(rows: &Vec<&[u8]>) -> (r: Result<(Vec<Vec<bool>>, usize), Error>)
    requires
        rows.len() >= 1,
    ensures
        match (r, spec_shape_grid(line_views(rows@), 0, Seq::empty())) {
            (Ok((grid, width)), Ok(g)) => grid_view(grid@) == g && is_rect(g, width as int)
                && has_cell(g) && width == rows[0]@.len(),
            (Err(e), Err(f)) => e == f,
            _ => false,
        },
{
    let ghost texts = line_views(rows@);
    let width: usize = rows[0].len();
    let mut grid: Vec<Vec<bool>> = Vec::new();
    let mut found = false;
    let mut r: usize = 0;
    proof {
        assert(texts[0] == rows[0]@);
        assert(grid_view(grid@) =~= Seq::<Seq<bool>>::empty());
    }
    while r < rows.len()
        invariant
            r <= rows.len(),
            rows.len() >= 1,
            texts == line_views(rows@),
            width == texts[0].len(),
            is_rect(grid_view(grid@), width as int),
            found == has_cell(grid_view(grid@)),
            spec_shape_grid(texts, 0, Seq::empty()) == spec_shape_grid(
                texts,
                r as int,
                grid_view(grid@),
            ),
        decreases rows.len() - r,
    {
        proof {
            assert(texts[r as int] == rows[r as int]@);
        }
        if rows[r].len() != width {
            return Err(Error::InconsistentWidths);
        }
        let row = match parse_shape_row(rows[r]) {
            Ok(row) => row,
            Err(e) => {
                return Err(e);
            },
        };
        let mut c: usize = 0;
        let mut in_row = false;
        while c < row.len()
            invariant
                c <= row.len(),
                in_row == exists|q: int| 0 <= q < c && #[trigger] row@[q],
            decreases row.len() - c,
        {
            if row[c] {
                in_row = true;
            }
            c += 1;
        }
        let ghost before = grid_view(grid@);
        let ghost added = row@;
        grid.push(row);
        proof {
            let after = grid_view(grid@);
            assert(after =~= before.push(added));
            if has_cell(before) {
                let (a, b) = choose|a: int, b: int|
                    0 <= a < before.len() && 0 <= b < before[a].len() && #[trigger] before[a][b];
                assert(after[a][b]);
            }
            if in_row {
                let q = choose|q: int| 0 <= q < added.len() && #[trigger] added[q];
                assert(after[before.len() as int][q]);
            }
            if has_cell(after) {
                let (a, b) = choose|a: int, b: int|
                    0 <= a < after.len() && 0 <= b < after[a].len() && #[trigger] after[a][b];
                if a < before.len() {
                    assert(before[a][b]);
                } else {
                    assert(added[b]);
                }
            }
        }
        if in_row {
            found = true;
        }
        r += 1;
    }
    if !found {
        return Err(Error::NoCells);
    }
    Ok((grid, width))
}

/// The rows of a shape from line `i` on, after those in `acc`, and the
/// line at which to go on: the rows end at an empty line, which is
/// passed over, at the line of a board, at a header, and with the
/// text.
pub open spec fn spec_grid_rows(lines: Seq<Seq<u8>>, i: int, acc: Seq<Seq<u8>>) -> (
    Seq<Seq<u8>>,
    int,
)
    decreases lines.len() - i,
{
    if i < 0 || i >= lines.len() {
        (acc, i)
    } else {
        let line = trim(lines[i]);
        if line.len() == 0 {
            (acc, i + 1)
        } else if spec_region(line) is Some || is_header_like(line) {
            (acc, i)
        } else {
            spec_grid_rows(lines, i + 1, acc.push(line))
        }
    }
}

pub proof fn lemma_grid_rows(lines: Seq<Seq<u8>>, i: int, acc: Seq<Seq<u8>>)
    requires
        0 <= i <= lines.len(),
    ensures
        i <= spec_grid_rows(lines, i, acc).1 <= lines.len(),
        spec_grid_rows(lines, i, acc).0.len() >= acc.len(),
    decreases lines.len() - i,
{
    if i < lines.len() {
        let line = trim(lines[i]);
        if line.len() != 0 && !(spec_region(line) is Some || is_header_like(line)) {
            lemma_grid_rows(lines, i + 1, acc.push(line));
        }
    }
}

/// What a text says of a shape: its number and its rows.
pub struct RawEntry<'a> {
    pub index: usize,
    pub rows: Vec<&'a [u8]>,
}

/// What a text says of a shape.
pub struct RawModel {
    pub index: int,
    pub rows: Seq<Seq<u8>>,
}

impl<'a> RawEntry<'a> {
    pub open spec fn view(&self) -> RawModel {
        RawModel { index: self.index as int, rows: line_views(self.rows@) }
    }
}

/// What the entries are.
pub open spec fn raw_views(entries: Seq<RawEntry>) -> Seq<RawModel> {
    Seq::new(entries.len(), |i: int| entries[i]@)
}

/// The shapes from line `i` on as the text gives them, after those in
/// `acc`, and the line at which the boards start.
pub open spec fn spec_entries(lines: Seq<Seq<u8>>, i: int, acc: Seq<RawModel>) -> Result<
    (Seq<RawModel>, int),
    Error,
>
    decreases lines.len() - i,
{
    if i < 0 || i >= lines.len() {
        Ok((acc, i))
    } else {
        let line = trim(lines[i]);
        if line.len() == 0 {
            spec_entries(lines, i + 1, acc)
        } else if spec_region(line) is Some {
            Ok((acc, i))
        } else if line.last() != COLON {
            Err(Error::ExpectedHeader)
        } else {
            match spec_usize(line.drop_last()) {
                None => Err(Error::InvalidIndex),
                Some(index) => {
                    let (rows, next) = spec_grid_rows(lines, i + 1, Seq::empty());
                    proof {
                        lemma_grid_rows(lines, i + 1, Seq::empty());
                    }
                    if rows.len() == 0 {
                        Err(Error::NoGrid)
                    } else {
                        spec_entries(lines, next, acc.push(RawModel { index, rows }))
                    }
                },
            }
        }
    }
}

/// Reads the rows of a shape.
fn read_grid_rows<'a>(lines: &Vec<&'a [u8]>, from: usize) -> (r: (Vec<&'a [u8]>, usize))
    requires
        from <= lines.len(),
    ensures
        line_views(r.0@) == spec_grid_rows(line_views(lines@), from as int, Seq::empty()).0,
        r.1 == spec_grid_rows(line_views(lines@), from as int, Seq::empty()).1,
        from <= r.1 <= lines.len(),
{
    let ghost texts = line_views(lines@);
    let mut rows: Vec<&'a [u8]> = Vec::new();
    let mut i: usize = from;
    proof {
        assert(line_views(rows@) =~= Seq::<Seq<u8>>::empty());
    }
    while i < lines.len()
        invariant
            from <= i <= lines.len(),
            texts == line_views(lines@),
            spec_grid_rows(texts, from as int, Seq::empty()) == spec_grid_rows(
                texts,
                i as int,
                line_views(rows@),
            ),
        decreases lines.len() - i,
    {
        proof {
            assert(texts[i as int] == lines[i as int]@);
        }
        let line = trim_slice(lines[i]);
        if line.len() == 0 {
            return (rows, i + 1);
        }
        if parse_region_line(line).is_some() || header_like(line) {
            return (rows, i);
        }
        let ghost before = line_views(rows@);
        rows.push(line);
        proof {
            assert(line_views(rows@) =~= before.push(line@));
        }
        i += 1;
    }
    (rows, i)
}

/// Reads the shapes as the text gives them, up to the first board.
fn read_entries<'a>(lines: &Vec<&'a [u8]>) -> (r: Result<(Vec<RawEntry<'a>>, usize), Error>)
    ensures
        match (r, spec_entries(line_views(lines@), 0, Seq::empty())) {
            (Ok((entries, next)), Ok((e, n))) => raw_views(entries@) == e && next == n && next
                <= lines.len() && forall|k: int|
                0 <= k < entries.len() ==> (#[trigger] entries[k]).rows.len() >= 1,
            (Err(e), Err(f)) => e == f,
            _ => false,
        },
{
    let ghost texts = line_views(lines@);
    let mut entries: Vec<RawEntry<'a>> = Vec::new();
    let mut i: usize = 0;
    proof {
        assert(raw_views(entries@) =~= Seq::<RawModel>::empty());
    }
    while i < lines.len()
        invariant
            i <= lines.len(),
            texts == line_views(lines@),
            forall|k: int| 0 <= k < entries.len() ==> (#[trigger] entries[k]).rows.len() >= 1,
            spec_entries(texts, 0, Seq::empty()) == spec_entries(
                texts,
                i as int,
                raw_views(entries@),
            ),
        decreases lines.len() - i,
    {
        proof {
            assert(texts[i as int] == lines[i as int]@);
        }
        let line = trim_slice(lines[i]);
        if line.len() == 0 {
            i += 1;
        } else if parse_region_line(line).is_some() {
            return Ok((entries, i));
        } else if line[line.len() - 1] != COLON {
            return Err(Error::ExpectedHeader);
        } else {
            let text = &line[0..line.len() - 1];
            proof {
                assert(text@ =~= line@.drop_last());
            }
            let index = match parse_usize(text) {
                Some(index) => index,
                None => {
                    return Err(Error::InvalidIndex);
                },
            };
            let (rows, next) = read_grid_rows(lines, i + 1);
            if rows.len() == 0 {
                return Err(Error::NoGrid);
            }
            let ghost before = raw_views(entries@);
            let ghost added = RawModel { index: index as int, rows: line_views(rows@) };
            entries.push(RawEntry { index, rows });
            proof {
                assert(raw_views(entries@) =~= before.push(added));
            }
            i = next;
        }
    }
    Ok((entries, i))
}

/// The grid of a shape with its number and its width.
pub struct Entry {
    pub index: usize,
    pub grid: Vec<Vec<bool>>,
    pub width: usize,
}

/// A shape as a text gives it: its number and its grid.
pub struct EntryModel {
    pub index: int,
    pub grid: Seq<Seq<bool>>,
    pub width: int,
}

impl Entry {
    pub open spec fn view(&self) -> EntryModel {
        EntryModel {
            index: self.index as int,
            grid: grid_view(self.grid@),
            width: self.width as int,
        }
    }

    /// The grid is a rectangle with a cell.
    pub open spec fn wf(&self) -> bool {
        is_rect(grid_view(self.grid@), self.width as int) && has_cell(grid_view(self.grid@))
    }
}

/// What the entries are.
pub open spec fn entry_views(entries: Seq<Entry>) -> Seq<EntryModel> {
    Seq::new(entries.len(), |i: int| entries[i]@)
}

/// One of the first `k` shapes has the number.
pub open spec fn has_index(entries: Seq<RawModel>, k: int, index: int) -> bool {
    exists|j: int| 0 <= j < k && (#[trigger] entries[j]).index == index
}

/// The grids of the shapes from the `k`-th on, after those in `acc`.
pub open spec fn spec_grids(entries: Seq<RawModel>, k: int, acc: Seq<EntryModel>) -> Result<
    Seq<EntryModel>,
    Error,
>
    decreases entries.len() - k,
{
    if k < 0 || k >= entries.len() {
        Ok(acc)
    } else if has_index(entries, k, entries[k].index) {
        Err(Error::DuplicateShape)
    } else {
        match spec_shape_grid(entries[k].rows, 0, Seq::empty()) {
            Err(e) => Err(e),
            Ok(grid) => spec_grids(
                entries,
                k + 1,
                acc.push(
                    EntryModel {
                        index: entries[k].index,
                        grid,
                        width: entries[k].rows[0].len() as int,
                    },
                ),
            ),
        }
    }
}

/// The shapes are numbered from zero on without a gap.
pub open spec fn is_numbered(entries: Seq<EntryModel>) -> bool {
    &&& forall|k: int| 0 <= k < entries.len() ==> 0 <= (#[trigger] entries[k]).index < entries.len()
    &&& forall|s: int| 0 <= s < entries.len() ==> #[trigger] is_shape_number(entries, s)
}

/// Some shape has the number.
pub open spec fn is_shape_number(entries: Seq<EntryModel>, s: int) -> bool {
    exists|k: int| 0 <= k < entries.len() && (#[trigger] entries[k]).index == s
}

/// A board as a text gives it.
pub struct RegionModel {
    pub width: int,
    pub height: int,
    pub counts: Seq<int>,
}

impl Region {
    pub open spec fn view(&self) -> RegionModel {
        RegionModel {
            width: self.width as int,
            height: self.height as int,
            counts: count_ints(self.counts@),
        }
    }
}

/// What the boards are.
pub open spec fn region_views(regions: Seq<Region>) -> Seq<RegionModel> {
    Seq::new(regions.len(), |i: int| regions[i]@)
}

/// The boards of the lines from the `i`-th on, after those in `acc`.
/// Lines that are no boards are passed over.
pub open spec fn spec_regions(lines: Seq<Seq<u8>>, i: int, shapes: int, acc: Seq<RegionModel>) -> Result<
    Seq<RegionModel>,
    Error,
>
    decreases lines.len() - i,
{
    if i < 0 || i >= lines.len() {
        Ok(acc)
    } else {
        match spec_region(trim(lines[i])) {
            None => spec_regions(lines, i + 1, shapes, acc),
            Some((width, height, counts)) => if counts.len() != shapes {
                Err(Error::CountMismatch)
            } else {
                spec_regions(lines, i + 1, shapes, acc.push(RegionModel { width, height, counts }))
            },
        }
    }
}

/// What a text holds: its shapes in the order of the text, and its
/// boards.
pub open spec fn spec_parse(s: Seq<u8>) -> Result<(Seq<EntryModel>, Seq<RegionModel>), Error> {
    let lines = spec_lines(s);
    match spec_entries(lines, 0, Seq::empty()) {
        Err(e) => Err(e),
        Ok((raw, next)) => if raw.len() == 0 {
            Err(Error::NoShapes)
        } else {
            match spec_grids(raw, 0, Seq::empty()) {
                Err(e) => Err(e),
                Ok(entries) => if !is_numbered(entries) {
                    Err(Error::MissingShape)
                } else {
                    match spec_regions(lines, next, entries.len() as int, Seq::empty()) {
                        Err(e) => Err(e),
                        Ok(regions) => Ok((entries, regions)),
                    }
                },
            }
        },
    }
}

/// Whether one of the shapes before the `k`-th has its number.
fn seen_before(raw: &Vec<RawEntry>, k: usize) -> (r: bool)
    requires
        k < raw.len(),
    ensures
        r == has_index(raw_views(raw@), k as int, raw_views(raw@)[k as int].index),
{
    let ghost models = raw_views(raw@);
    let index: usize = raw[k].index;
    proof {
        assert(models[k as int] == raw[k as int]@);
    }
    let mut j: usize = 0;
    while j < k
        invariant
            j <= k,
            k < raw.len(),
            index == raw[k as int].index,
            models == raw_views(raw@),
            forall|q: int| 0 <= q < j ==> (#[trigger] models[q]).index != index,
        decreases k - j,
    {
        proof {
            assert(models[j as int] == raw[j as int]@);
        }
        if raw[j].index == index {
            return true;
        }
        j += 1;
    }
    false
}

/// Reads the grids of the shapes.
fn read_grids(raw: &Vec<RawEntry>) -> (r: Result<Vec<Entry>, Error>)
    requires
        forall|k: int| 0 <= k < raw.len() ==> (#[trigger] raw[k]).rows.len() >= 1,
    ensures
        match (r, spec_grids(raw_views(raw@), 0, Seq::empty())) {
            (Ok(entries), Ok(e)) => entry_views(entries@) == e && entries.len() == raw.len()
                && forall|k: int| 0 <= k < entries.len() ==> (#[trigger] entries[k]).wf(),
            (Err(e), Err(f)) => e == f,
            _ => false,
        },
{
    let ghost models = raw_views(raw@);
    let mut entries: Vec<Entry> = Vec::new();
    let mut k: usize = 0;
    proof {
        assert(entry_views(entries@) =~= Seq::<EntryModel>::empty());
    }
    while k < raw.len()
        invariant
            k <= raw.len(),
            entries.len() == k,
            models == raw_views(raw@),
            forall|j: int| 0 <= j < raw.len() ==> (#[trigger] raw[j]).rows.len() >= 1,
            forall|j: int| 0 <= j < entries.len() ==> (#[trigger] entries[j]).wf(),
            spec_grids(models, 0, Seq::empty()) == spec_grids(
                models,
                k as int,
                entry_views(entries@),
            ),
        decreases raw.len() - k,
    {
        proof {
            assert(models[k as int] == raw[k as int]@);
        }
        let index: usize = raw[k].index;
        if seen_before(raw, k) {
            return Err(Error::DuplicateShape);
        }
        let (grid, width) = match parse_shape(&raw[k].rows) {
            Ok(found) => found,
            Err(e) => {
                return Err(e);
            },
        };
        let ghost before = entry_views(entries@);
        let ghost added = EntryModel {
            index: index as int,
            grid: grid_view(grid@),
            width: width as int,
        };
        entries.push(Entry { index, grid, width });
        proof {
            assert(entry_views(entries@) =~= before.push(added));
            assert(line_views(raw[k as int].rows@)[0] == raw[k as int].rows[0]@);
        }
        k += 1;
    }
    Ok(entries)
}

/// Reads the boards.
fn read_regions(lines: &Vec<&[u8]>, from: usize, shapes: usize) -> (r: Result<Vec<Region>, Error>)
    requires
        from <= lines.len(),
    ensures
        match (r, spec_regions(line_views(lines@), from as int, shapes as int, Seq::empty())) {
            (Ok(regions), Ok(m)) => region_views(regions@) == m && forall|k: int|
                0 <= k < regions.len() ==> (#[trigger] regions[k]).counts.len() == shapes,
            (Err(e), Err(f)) => e == f,
            _ => false,
        },
{
    let ghost texts = line_views(lines@);
    let mut regions: Vec<Region> = Vec::new();
    let mut i: usize = from;
    proof {
        assert(region_views(regions@) =~= Seq::<RegionModel>::empty());
    }
    while i < lines.len()
        invariant
            from <= i <= lines.len(),
            texts == line_views(lines@),
            forall|k: int| 0 <= k < regions.len() ==> (#[trigger] regions[k]).counts.len() == shapes,
            spec_regions(texts, from as int, shapes as int, Seq::empty()) == spec_regions(
                texts,
                i as int,
                shapes as int,
                region_views(regions@),
            ),
        decreases lines.len() - i,
    {
        proof {
            assert(texts[i as int] == lines[i as int]@);
        }
        match parse_region_line(trim_slice(lines[i])) {
            None => {},
            Some(region) => {
                if region.counts.len() != shapes {
                    return Err(Error::CountMismatch);
                }
                let ghost before = region_views(regions@);
                let ghost added = region@;
                regions.push(region);
                proof {
                    assert(region_views(regions@) =~= before.push(added));
                }
            },
        }
        i += 1;
    }
    Ok(regions)
}

/// A copy of a grid.
fn copy_grid(grid: &Vec<Vec<bool>>) -> (r: Vec<Vec<bool>>)
    ensures
        grid_view(r@) == grid_view(grid@),
{
    let mut out: Vec<Vec<bool>> = Vec::new();
    let mut i: usize = 0;
    while i < grid.len()
        invariant
            i <= grid.len(),
            out.len() == i,
            forall|q: int| 0 <= q < i ==> (#[trigger] out[q])@ == grid[q]@,
        decreases grid.len() - i,
    {
        let mut row: Vec<bool> = Vec::new();
        let mut j: usize = 0;
        while j < grid[i].len()
            invariant
                j <= grid[i as int].len(),
                i < grid.len(),
                row.len() == j,
                forall|q: int| 0 <= q < j ==> row@[q] == grid[i as int]@[q],
            decreases grid[i as int].len() - j,
        {
            row.push(grid[i][j]);
            j += 1;
        }
        proof {
            assert(row@ =~= grid[i as int]@);
        }
        out.push(row);
        i += 1;
    }
    proof {
        assert(grid_view(out@) =~= grid_view(grid@));
    }
    out
}

/// The shape of each number is laid out from the grid of the entry with
/// that number.
pub open spec fn builds(shapes: Seq<Shape>, entries: Seq<EntryModel>) -> bool {
    &&& shapes.len() == entries.len()
    &&& forall|s: int| 0 <= s < shapes.len() ==> (#[trigger] shapes[s]).wf()
    &&& forall|k: int|
        0 <= k < entries.len() ==> 0 <= (#[trigger] entries[k]).index < shapes.len()
            && shapes[entries[k].index].lays_out(entries[k].grid, entries[k].width)
}

/// Lays out the shapes in the order of their numbers, if they are
/// numbered from zero on without a gap.
fn build_shapes(entries: &Vec<Entry>) -> (r: Option<Vec<Shape>>)
    requires
        forall|k: int| 0 <= k < entries.len() ==> (#[trigger] entries[k]).wf(),
    ensures
        match r {
            Some(shapes) => is_numbered(entry_views(entries@)) && builds(
                shapes@,
                entry_views(entries@),
            ),
            None => !is_numbered(entry_views(entries@)),
        },
{
    let ghost models = entry_views(entries@);
    let n: usize = entries.len();
    let mut k: usize = 0;
    while k < n
        invariant
            k <= n,
            n == entries.len(),
            models == entry_views(entries@),
            forall|q: int| 0 <= q < k ==> 0 <= (#[trigger] models[q]).index < n,
        decreases n - k,
    {
        proof {
            assert(models[k as int] == entries[k as int]@);
        }
        if entries[k].index >= n {
            return None;
        }
        k += 1;
    }
    let mut shapes: Vec<Shape> = Vec::new();
    let ghost mut from: Seq<int> = Seq::empty();
    let mut s: usize = 0;
    while s < n
        invariant
            s <= n,
            n == entries.len(),
            shapes.len() == s,
            from.len() == s,
            models == entry_views(entries@),
            forall|q: int| 0 <= q < n ==> (#[trigger] entries[q]).wf(),
            forall|q: int| 0 <= q < n ==> 0 <= (#[trigger] models[q]).index < n,
            forall|q: int| 0 <= q < s ==> (#[trigger] shapes[q]).wf(),
            forall|q: int|
                0 <= q < s ==> 0 <= #[trigger] from[q] < n && models[from[q]].index == q
                    && shapes[q].lays_out(models[from[q]].grid, models[from[q]].width),
        decreases n - s,
    {
        let mut at: usize = 0;
        while at < n && entries[at].index != s
            invariant
                at <= n,
                n == entries.len(),
                models == entry_views(entries@),
                forall|q: int| 0 <= q < at ==> (#[trigger] models[q]).index != s,
            decreases n - at,
        {
            proof {
                assert(models[at as int] == entries[at as int]@);
            }
            at += 1;
        }
        if at == n {
            proof {
                if is_numbered(models) {
                    assert(is_shape_number(models, s as int));
                    let q = choose|q: int| 0 <= q < models.len() && (#[trigger] models[q]).index == s;
                    assert(models[q].index != s);
                }
            }
            return None;
        }
        proof {
            assert(models[at as int] == entries[at as int]@);
            assert(entries[at as int].wf());
        }
        let grid = copy_grid(&entries[at].grid);
        let shape = build_shape(grid, entries[at].width);
        shapes.push(shape);
        proof {
            from = from.push(at as int);
        }
        s += 1;
    }
    proof {
        assert forall|q: int| 0 <= q < n implies #[trigger] is_shape_number(models, q) by {
            assert(models[from[q]].index == q);
        }
        assert forall|j: int| 0 <= j < models.len() implies 0 <= (#[trigger] models[j]).index
            < shapes.len() && shapes[models[j].index].lays_out(models[j].grid, models[j].width) by {
            let q = models[j].index;
            // the entry with the number `q` from which shape `q` was built is this entry,
            // unless two entries have one number
            assert(models[from[q]].index == q);
            lemma_one_entry(models, from, j);
        }
    }
    Some(shapes)
}

/// Where each number below the count of entries has an entry, no two
/// entries have one number.
proof fn lemma_one_entry(models: Seq<EntryModel>, from: Seq<int>, j: int)
    requires
        from.len() == models.len(),
        0 <= j < models.len(),
        forall|q: int| 0 <= q < models.len() ==> 0 <= (#[trigger] models[q]).index < models.len(),
        forall|q: int|
            0 <= q < from.len() ==> 0 <= #[trigger] from[q] < models.len() && models[from[q]].index
                == q,
    ensures
        from[models[j].index] == j,
{
    // `from` maps the numbers into the entries, and is one to one: so it reaches every entry
    assert(from.no_duplicates()) by {
        assert forall|a: int, b: int|
            0 <= a < from.len() && 0 <= b < from.len() && a != b implies from[a] != from[b] by {
            assert(models[from[a]].index == a);
            assert(models[from[b]].index == b);
        }
    }
    if !from.contains(j) {
        lemma_all_present(from, models.len() as int, j);
    }
    let q = choose|q: int| 0 <= q < from.len() && from[q] == j;
    assert(models[from[q]].index == q);
}

/// Reads the shapes and the boards of a text.
pub fn parse(bytes: &[u8]) -> (r: Result<(Vec<Shape>, Vec<Region>), Error>)
    ensures
        match (r, spec_parse(bytes@)) {
            (Ok((shapes, regions)), Ok((entries, boards))) => builds(shapes@, entries)
                && region_views(regions@) == boards && forall|k: int|
                0 <= k < regions.len() ==> (#[trigger] regions[k]).counts.len() == shapes.len(),
            (Err(e), Err(f)) => e == f,
            _ => false,
        },
{
    let lines = split_lines(bytes);
    let (raw, next) = match read_entries(&lines) {
        Ok(found) => found,
        Err(e) => {
            return Err(e);
        },
    };
    if raw.len() == 0 {
        return Err(Error::NoShapes);
    }
    let entries = match read_grids(&raw) {
        Ok(entries) => entries,
        Err(e) => {
            return Err(e);
        },
    };
    let shapes = match build_shapes(&entries) {
        Some(shapes) => shapes,
        None => {
            return Err(Error::MissingShape);
        },
    };
    let regions = match read_regions(&lines, next, shapes.len()) {
        Ok(regions) => regions,
        Err(e) => {
            return Err(e);
        },
    };
    Ok((shapes, regions))
}

/// How many of the first `k` boards have room for their shapes.
pub open spec fn count_fitting(shapes: Seq<Shape>, boards: Seq<RegionModel>, k: int) -> int
    decreases k,
{
    if k <= 0 {
        0
    } else {
        count_fitting(shapes, boards, k - 1) + if packable(
            shapes,
            boards[k - 1].width,
            boards[k - 1].height,
            boards[k - 1].counts,
            Set::<int>::empty(),
        ) { 1int } else { 0int }
    }
}

/// Some board has more places than can be counted.
pub open spec fn has_large_board(boards: Seq<RegionModel>) -> bool {
    exists|k: int|
        0 <= k < boards.len() && (#[trigger] boards[k]).width * boards[k].height > usize::MAX
}

/// Counts the boards that have room for their shapes.
pub fn count_boards(shapes: &Vec<Shape>, regions: &Vec<Region>) -> (r: Result<u64, Error>)
    requires
        forall|s: int| 0 <= s < shapes.len() ==> (#[trigger] shapes[s]).wf(),
        forall|k: int|
            0 <= k < regions.len() ==> (#[trigger] regions[k]).counts.len() == shapes.len(),
    ensures
        match r {
            Ok(count) => !has_large_board(region_views(regions@)) && count == count_fitting(
                shapes@,
                region_views(regions@),
                regions.len() as int,
            ),
            Err(e) => e == Error::TooLarge && has_large_board(region_views(regions@)),
        },
{
    let ghost boards = region_views(regions@);
    let mut count: u64 = 0;
    let mut k: usize = 0;
    while k < regions.len()
        invariant
            k <= regions.len(),
            boards == region_views(regions@),
            forall|s: int| 0 <= s < shapes.len() ==> (#[trigger] shapes[s]).wf(),
            forall|q: int|
                0 <= q < regions.len() ==> (#[trigger] regions[q]).counts.len() == shapes.len(),
            count == count_fitting(shapes@, boards, k as int),
            count <= k,
            forall|q: int|
                0 <= q < k ==> (#[trigger] boards[q]).width * boards[q].height <= usize::MAX,
        decreases regions.len() - k,
    {
        proof {
            assert(boards[k as int] == regions[k as int]@);
        }
        match can_fit(&regions[k], shapes) {
            Ok(fits) => {
                if fits {
                    count += 1;
                }
            },
            Err(e) => {
                proof {
                    assert(boards[k as int].width * boards[k as int].height > usize::MAX);
                }
                return Err(e);
            },
        }
        k += 1;
    }
    Ok(count)
}

/// What holds of the first answer for a text.
pub open spec fn part1_holds(input: &str, r: Result<u64, Error>) -> bool {
    match spec_parse(input.spec_bytes()) {
        Err(e) => r == Err::<u64, Error>(e),
        Ok((entries, boards)) => match r {
            Ok(count) => !has_large_board(boards) && exists|shapes: Seq<Shape>|
                #[trigger] builds(shapes, entries) && count == count_fitting(
                    shapes,
                    boards,
                    boards.len() as int,
                ),
            Err(e) => e == Error::TooLarge && has_large_board(boards),
        },
    }
}

/// Counts the boards on which all their shapes find room.
pub fn part1(input: &str) -> (r: Result<u64, Error>)
    ensures
        part1_holds(input, r),
{
    let (shapes, regions) = match parse(input.as_bytes()) {
        Ok(found) => found,
        Err(e) => {
            return Err(e);
        },
    };
    let r = count_boards(&shapes, &regions);
    proof {
        if r is Ok {
            assert(builds(shapes@, spec_parse(input.spec_bytes()).unwrap().0));
        }
    }
    r
}

} // verus!
