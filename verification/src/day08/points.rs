//! Points in space: their text form and the distance between two of them.

use vstd::prelude::*;
use crate::lines::{
    expect_char, lemma_int_advances, lemma_skip_eols, parse_int, skip_eols, spec_comma, spec_int,
};
pub use crate::lines::ParseError;
use crate::ascii::{ends_line, is_eol, COMMA};

verus! {

/// A point in space with integer coordinates.
#[derive(Copy, Clone, Debug, PartialEq, Eq, Structural)]
pub struct Point {
    pub x: i32,
    pub y: i32,
    pub z: i32,
}

/// A record at `pos`: three coordinates with a comma between them, up to
/// a line ending or the end of the text. Gives the point and the position
/// after the third coordinate.
pub open spec fn spec_record(s: Seq<u8>, pos: int) -> Result<(Point, int), ParseError> {
    match spec_int(s, pos) {
        Err(e) => Err(e),
        Ok((x, after_x)) => if !spec_comma(s, after_x) {
            Err(ParseError::MissingSeparator)
        } else {
            match spec_int(s, after_x + 1) {
                Err(e) => Err(e),
                Ok((y, after_y)) => if !spec_comma(s, after_y) {
                    Err(ParseError::MissingSeparator)
                } else {
                    match spec_int(s, after_y + 1) {
                        Err(e) => Err(e),
                        Ok((z, after_z)) => if after_z < s.len() && !is_eol(s[after_z]) {
                            Err(ParseError::TrailingCharacters)
                        } else {
                            Ok((Point { x: x as i32, y: y as i32, z: z as i32 }, after_z))
                        },
                    }
                },
            }
        },
    }
}

/// The records from `pos` to the end of the text, after those in `acc`.
/// Line endings before, between and after the records are passed over.
pub open spec fn spec_records(s: Seq<u8>, pos: int, acc: Seq<Point>) -> Result<
    Seq<Point>,
    ParseError,
>
    decreases s.len() - pos,
{
    let start = skip_eols(s, pos);
    if pos < 0 || start >= s.len() {
        Ok(acc)
    } else {
        match spec_record(s, start) {
            Err(e) => Err(e),
            Ok((p, next)) => {
                proof {
                    lemma_skip_eols(s, pos);
                    lemma_record_advances(s, start);
                }
                spec_records(s, next, acc.push(p))
            },
        }
    }
}

/// What a text holds: its points in order, or the first fault in it.
pub open spec fn spec_parse_points(s: Seq<u8>) -> Result<Seq<Point>, ParseError> {
    match spec_records(s, 0, Seq::empty()) {
        Err(e) => Err(e),
        Ok(points) => if points.len() == 0 {
            Err(ParseError::Empty)
        } else {
            Ok(points)
        },
    }
}

pub proof fn lemma_record_advances(s: Seq<u8>, pos: int)
    requires
        0 <= pos,
        spec_record(s, pos) is Ok,
    ensures
        pos < spec_record(s, pos).unwrap().1 <= s.len(),
{
    lemma_int_advances(s, pos);
    let after_x = spec_int(s, pos).unwrap().1;
    lemma_int_advances(s, after_x + 1);
    let after_y = spec_int(s, after_x + 1).unwrap().1;
    lemma_int_advances(s, after_y + 1);
}

/// Reads one record at `pos`.
fn parse_record(bytes: &[u8], pos: usize) -> (r: Result<(Point, usize), ParseError>)
    requires
        pos <= bytes.len(),
    ensures
        match (r, spec_record(bytes@, pos as int)) {
            (Ok((p, next)), Ok((q, n))) => p == q && next == n,
            (Err(e), Err(f)) => e == f,
            _ => false,
        },
        r is Ok ==> pos < r.unwrap().1 <= bytes.len(),
{
    let len = bytes.len();
    let (x, after_x) = match parse_int(bytes, pos) {
        Ok(found) => found,
        Err(e) => { return Err(e); },
    };
    proof {
        lemma_int_advances(bytes@, pos as int);
    }
    let at_y = match expect_char(bytes, after_x, COMMA) {
        Ok(next) => next,
        Err(e) => { return Err(e); },
    };
    let (y, after_y) = match parse_int(bytes, at_y) {
        Ok(found) => found,
        Err(e) => { return Err(e); },
    };
    proof {
        lemma_int_advances(bytes@, after_x + 1);
    }
    let at_z = match expect_char(bytes, after_y, COMMA) {
        Ok(next) => next,
        Err(e) => { return Err(e); },
    };
    let (z, after_z) = match parse_int(bytes, at_z) {
        Ok(found) => found,
        Err(e) => { return Err(e); },
    };
    proof {
        lemma_int_advances(bytes@, after_y + 1);
    }
    if after_z < len && !ends_line(bytes[after_z]) {
        return Err(ParseError::TrailingCharacters);
    }
    Ok((Point { x, y, z }, after_z))
}

/// Reads the points of a text, one `x,y,z` record on each line that is not
/// blank. A line ends at a line feed, a carriage return or the end of the
/// text.
pub fn parse_points(bytes: &[u8]) -> (r: Result<Vec<Point>, ParseError>)
    ensures
        match (r, spec_parse_points(bytes@)) {
            (Ok(points), Ok(s)) => points@ == s,
            (Err(e), Err(f)) => e == f,
            _ => false,
        },
        r is Ok ==> r.unwrap().len() > 0,
{
    let len = bytes.len();
    let mut points: Vec<Point> = Vec::new();
    let mut idx: usize = 0;
    loop
        invariant
            idx <= len,
            len == bytes.len(),
            spec_records(bytes@, 0, Seq::empty()) == spec_records(bytes@, idx as int, points@),
        ensures
            spec_records(bytes@, 0, Seq::empty()) == Ok::<Seq<Point>, ParseError>(points@),
        decreases len - idx,
    {
        let ghost from = idx;
        while idx < len && ends_line(bytes[idx])
            invariant
                from <= idx <= len,
                len == bytes.len(),
                skip_eols(bytes@, from as int) == skip_eols(bytes@, idx as int),
            decreases len - idx,
        {
            idx += 1;
        }
        if idx >= len {
            break;
        }
        match parse_record(bytes, idx) {
            Ok((p, next)) => {
                points.push(p);
                idx = next;
            },
            Err(e) => {
                return Err(e);
            },
        }
    }
    if points.len() == 0 {
        return Err(ParseError::Empty);
    }
    Ok(points)
}

/// The square of the distance between two points.
pub open spec fn spec_sq_dist(a: Point, b: Point) -> int {
    (a.x - b.x) * (a.x - b.x) + (a.y - b.y) * (a.y - b.y) + (a.z - b.z) * (a.z - b.z)
}

/// The squared distance is the same in both directions, never negative,
/// and zero from a point to itself.
pub proof fn lemma_sq_dist_symmetric(a: Point, b: Point)
    ensures
        spec_sq_dist(a, b) == spec_sq_dist(b, a),
        spec_sq_dist(a, b) >= 0,
        spec_sq_dist(a, a) == 0,
{
    lemma_square(a.x - b.x, b.x - a.x);
    lemma_square(a.y - b.y, b.y - a.y);
    lemma_square(a.z - b.z, b.z - a.z);
}

proof fn lemma_square(d: int, e: int)
    requires
        d == -e,
    ensures
        d * d == e * e,
        d * d >= 0,
{
    assert(d * d == e * e && d * d >= 0) by (nonlinear_arith)
        requires
            d == -e,
    ;
}

/// The square of the difference of two coordinates.
fn axis_square(p: i32, q: i32) -> (r: u128)
    ensures
        r == (p - q) * (p - q),
        r <= 0xffff_ffff * 0xffff_ffff,
{
    let gap: u64 = if p >= q { (p as i64 - q as i64) as u64 } else { (q as i64 - p as i64) as u64 };
    proof {
        lemma_square(p - q, q - p);
        assert(gap * gap <= 0xffff_ffff * 0xffff_ffff) by (nonlinear_arith)
            requires
                0 <= gap <= 0xffff_ffff,
        ;
    }
    (gap as u128) * (gap as u128)
}

/// The squared distance, where it fits in 64 bits.
pub fn checked_sq_dist(a: &Point, b: &Point) -> (r: Option<u64>)
    ensures
        match r {
            Some(d) => d == spec_sq_dist(*a, *b),
            None => spec_sq_dist(*a, *b) > u64::MAX,
        },
{
    let wide: u128 = axis_square(a.x, b.x) + axis_square(a.y, b.y) + axis_square(a.z, b.z);
    if wide <= u64::MAX as u128 {
        Some(wide as u64)
    } else {
        None
    }
}

/// The squared distance between two points that are not too far apart for
/// it to fit in 64 bits.
pub fn sq_dist(a: &Point, b: &Point) -> (r: u64)
    requires
        spec_sq_dist(*a, *b) <= u64::MAX,
    ensures
        r == spec_sq_dist(*a, *b),
{
    let wide: u128 = axis_square(a.x, b.x) + axis_square(a.y, b.y) + axis_square(a.z, b.z);
    wide as u64
}

} // verus!
