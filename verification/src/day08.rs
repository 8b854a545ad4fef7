//! Closest pairs and the spanning tree of a cloud of points in space.
//!
//! The text lists the points, one `x,y,z` on a line. The first answer
//! connects the thousand closest pairs of points and multiplies the sizes
//! of the three largest connected parts. The second answer multiplies the
//! `x` of both ends of the longest link of the spanning tree that grows
//! from the first point by always taking the nearest point next.

use vstd::prelude::*;
use vstd::string::StringSliceAdditionalSpecFns;

pub mod bottleneck;
pub mod components;
pub mod disjoint;
pub mod points;
pub mod selector;
pub mod spanning;

use crate::day08::components::{component_sizes, largest_three, lemma_largest_unique};
use crate::day08::points::{parse_points, spec_parse_points, ParseError, Point};
use crate::day08::selector::{is_smallest, lemma_smallest_unique, Edge};
use crate::day08::spanning::{all_pairs, distances_fit, longest_edge, survey, MAX_POINTS};

verus! {

/// How many of the closest pairs the first answer connects.
pub const PAIR_LIMIT: usize = 1000;

/// Why a text has no answer.
#[derive(Copy, Clone, Debug, PartialEq, Eq, Structural)]
pub enum SolveError {
    /// The text is not a list of points.
    Parse(ParseError),
    /// Fewer than two points.
    TooFewPoints,
    /// More points than positions of 16 bits can name.
    TooManyPoints,
    /// Two points are so far apart that the square of their distance does
    /// not fit in 64 bits.
    DistanceOverflow,
    /// The spanning tree did not reach every point.
    IncompleteGraph,
}

/// An integer as the 64 bits of its two's complement.
pub open spec fn wrap_u64(v: int) -> int {
    if v >= 0 {
        v
    } else {
        v + 0x1_0000_0000_0000_0000
    }
}

/// The product of the `x` of both ends of an edge.
pub open spec fn x_product(points: Seq<Point>, e: Edge) -> int {
    points[e.a as int].x * points[e.b as int].x
}

/// The first answer for a list of points: the product of the sizes of the
/// three largest parts that the `limit` closest pairs connect.
pub open spec fn is_first_answer(points: Seq<Point>, limit: nat, answer: u64) -> bool {
    exists|chosen: Set<Edge>, sizes: (nat, nat, nat)|
        is_smallest(chosen, all_pairs(points), limit) && #[trigger] largest_three(
            points.len(),
            chosen,
            sizes,
        ) && answer == sizes.0 * sizes.1 * sizes.2
}

/// The second answer for a list of points: the product of the `x` of both
/// ends of the longest link of the spanning tree, as 64 bits.
pub open spec fn second_answer(points: Seq<Point>) -> int {
    wrap_u64(x_product(points, longest_edge(points)))
}

/// The first fault of a list of points, if it has one.
pub open spec fn points_fault(points: Seq<Point>) -> Option<SolveError> {
    if points.len() < 2 {
        Some(SolveError::TooFewPoints)
    } else if points.len() > MAX_POINTS {
        Some(SolveError::TooManyPoints)
    } else if !distances_fit(points) {
        Some(SolveError::DistanceOverflow)
    } else {
        None
    }
}

/// The first fault of a text, if it has one.
pub open spec fn fault(bytes: Seq<u8>) -> Option<SolveError> {
    match spec_parse_points(bytes) {
        Err(e) => Some(SolveError::Parse(e)),
        Ok(points) => points_fault(points),
    }
}

/// The points that a text without fault holds.
pub open spec fn points_of(bytes: Seq<u8>) -> Seq<Point> {
    spec_parse_points(bytes).unwrap()
}

/// The product of two coordinates as 64 bits.
fn wrapped_product(p: i32, q: i32) -> (r: u64)
    ensures
        r == wrap_u64(p * q),
{
    proof {
        assert(-0x4000_0000_0000_0000 <= p * q <= 0x4000_0000_0000_0000) by (nonlinear_arith)
            requires
                -0x8000_0000 <= p <= 0x7fff_ffff,
                -0x8000_0000 <= q <= 0x7fff_ffff,
        ;
    }
    let wide: i64 = (p as i64) * (q as i64);
    if wide >= 0 {
        wide as u64
    } else {
        u64::MAX - ((-wide) as u64) + 1
    }
}

/// The product of three sizes.
fn size_product(top: [u32; 3]) -> (r: u64)
    requires
        top[0] <= 65535,
        top[1] <= 65535,
        top[2] <= 65535,
    ensures
        r == top[0] * top[1] * top[2],
{
    proof {
        assert(top[0] * top[1] <= 65535 * 65535 && top[0] * top[1] * top[2] <= 65535 * 65535
            * 65535) by (nonlinear_arith)
            requires
                0 <= top[0] <= 65535,
                0 <= top[1] <= 65535,
                0 <= top[2] <= 65535,
        ;
    }
    (top[0] as u64) * (top[1] as u64) * (top[2] as u64)
}

/// Both answers for a list of points, with `pair_limit` closest pairs
/// connected for the first.
pub fn solve_points(points: &Vec<Point>, pair_limit: usize) -> (r: Result<(u64, u64), SolveError>)
    ensures
        match r {
            Ok(answer) => points_fault(points@) is None && is_first_answer(
                points@,
                pair_limit as nat,
                answer.0,
            ) && answer.1 == second_answer(points@),
            Err(e) => points_fault(points@) == Some(e),
        },
{
    let found = match survey(points, pair_limit) {
        Ok(found) => found,
        Err(e) => {
            return Err(e);
        },
    };
    let n: usize = points.len();
    proof {
        assert forall|k: int| 0 <= k < found.closest.len() implies (#[trigger] found.closest[k]).a
            < n && found.closest[k].b < n by {
            assert(found.closest@.to_set().contains(found.closest@[k]));
            assert(all_pairs(points@).contains(found.closest@[k]));
        }
    }
    let top = component_sizes(n, &found.closest);
    let first = size_product(top);
    let link = found.longest;
    proof {
        spanning::lemma_longest_in_range(points@);
    }
    let second = wrapped_product(points[link.a as usize].x, points[link.b as usize].x);
    proof {
        assert(is_smallest(found.closest@.to_set(), all_pairs(points@), pair_limit as nat)
            && largest_three(
            points@.len(),
            found.closest@.to_set(),
            (top[0] as nat, top[1] as nat, top[2] as nat),
        ));
    }
    Ok((first, second))
}

/// Both answers for a text, with `pair_limit` closest pairs connected for
/// the first.
pub fn solve_with_limit(input: &str, pair_limit: usize) -> (r: Result<(u64, u64), SolveError>)
    ensures
        match r {
            Ok(answer) => fault(input.spec_bytes()) is None && is_first_answer(
                points_of(input.spec_bytes()),
                pair_limit as nat,
                answer.0,
            ) && answer.1 == second_answer(points_of(input.spec_bytes())),
            Err(e) => fault(input.spec_bytes()) == Some(e),
        },
{
    let points = match parse_points(input.as_bytes()) {
        Ok(points) => points,
        Err(e) => {
            return Err(SolveError::Parse(e));
        },
    };
    solve_points(&points, pair_limit)
}

/// What holds of the first answer for a text.
pub open spec fn part1_holds(input: &str, r: Result<u64, SolveError>) -> bool {
    match r {
        Ok(first) => fault(input.spec_bytes()) is None && is_first_answer(
            points_of(input.spec_bytes()),
            PAIR_LIMIT as nat,
            first,
        ),
        Err(e) => fault(input.spec_bytes()) == Some(e),
    }
}

/// Connects the thousand closest pairs and multiplies the sizes of the
/// three largest connected parts.
pub fn part1(input: &str) -> (r: Result<u64, SolveError>)
    ensures
        part1_holds(input, r),
{
    match solve_with_limit(input, PAIR_LIMIT) {
        Ok((first, second)) => Ok(first),
        Err(e) => Err(e),
    }
}

/// What holds of the second answer for a text.
pub open spec fn part2_holds(input: &str, r: Result<u64, SolveError>) -> bool {
    match r {
        Ok(second) => fault(input.spec_bytes()) is None && second == second_answer(
            points_of(input.spec_bytes()),
        ),
        Err(e) => fault(input.spec_bytes()) == Some(e),
    }
}

/// Multiplies the `x` of both ends of the longest link of the spanning
/// tree.
pub fn part2(input: &str) -> (r: Result<u64, SolveError>)
    ensures
        part2_holds(input, r),
{
    match solve_with_limit(input, PAIR_LIMIT) {
        Ok((first, second)) => Ok(second),
        Err(e) => Err(e),
    }
}

/// What holds of both answers for a text.
pub open spec fn both_holds(input: &str, r: Result<(u64, u64), SolveError>) -> bool {
    match r {
        Ok(answer) => fault(input.spec_bytes()) is None && is_first_answer(
            points_of(input.spec_bytes()),
            PAIR_LIMIT as nat,
            answer.0,
        ) && answer.1 == second_answer(points_of(input.spec_bytes())),
        Err(e) => fault(input.spec_bytes()) == Some(e),
    }
}

/// Both answers.
pub fn both(input: &str) -> (r: Result<(u64, u64), SolveError>)
    ensures
        both_holds(input, r),
{
    solve_with_limit(input, PAIR_LIMIT)
}

/// A list of points has one first answer only: solving twice gives the
/// same.
pub proof fn lemma_first_answer_unique(points: Seq<Point>, limit: nat, first: u64, second: u64)
    requires
        is_first_answer(points, limit, first),
        is_first_answer(points, limit, second),
    ensures
        first == second,
{
    let (chosen, sizes) = choose|chosen: Set<Edge>, sizes: (nat, nat, nat)|
        is_smallest(chosen, all_pairs(points), limit) && #[trigger] largest_three(
            points.len(),
            chosen,
            sizes,
        ) && first == sizes.0 * sizes.1 * sizes.2;
    let (other, other_sizes) = choose|chosen: Set<Edge>, sizes: (nat, nat, nat)|
        is_smallest(chosen, all_pairs(points), limit) && #[trigger] largest_three(
            points.len(),
            chosen,
            sizes,
        ) && second == sizes.0 * sizes.1 * sizes.2;
    lemma_smallest_unique(chosen, other, all_pairs(points), limit);
    lemma_largest_unique(points.len(), chosen, sizes, other_sizes);
}

} // verus!
