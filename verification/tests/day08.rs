use advent_25::day08::components::{component_sizes, merge_all};
use advent_25::day08::disjoint::DisjointSet;
use advent_25::day08::points::{checked_sq_dist, parse_points, sq_dist, ParseError, Point};
use advent_25::day08::selector::{BoundedHeap, Edge};
use advent_25::day08::spanning::survey;
use advent_25::day08::{both, part1, part2, solve_points, solve_with_limit, SolveError};

const EXAMPLE: &str = "162,817,812\n\
57,618,57\n\
906,360,560\n\
592,479,940\n\
352,342,300\n\
466,668,158\n\
542,29,236\n\
431,825,988\n\
739,650,466\n\
52,470,668\n\
216,146,977\n\
819,987,18\n\
117,168,530\n\
805,96,715\n\
346,949,466\n\
970,615,88\n\
941,993,340\n\
862,61,35\n\
984,92,344\n\
425,690,689\n";

fn point(x: i32, y: i32, z: i32) -> Point {
    Point { x, y, z }
}

fn sorted(mut edges: Vec<Edge>) -> Vec<(u64, u16, u16)> {
    let mut keys: Vec<(u64, u16, u16)> = edges.drain(..).map(|e| (e.dist, e.a, e.b)).collect();
    keys.sort();
    keys
}

/// A cloud of points that is the same on every run.
fn cloud(count: usize) -> String {
    let mut state: u64 = 0x2545_f491_4f6c_dd1d;
    let mut text = String::new();
    for _ in 0..count {
        let mut coords = [0u64; 3];
        for c in coords.iter_mut() {
            state ^= state << 13;
            state ^= state >> 7;
            state ^= state << 17;
            *c = state % 100_000;
        }
        text.push_str(&format!("{},{},{}\n", coords[0], coords[1], coords[2]));
    }
    text
}

#[test]
fn example_top10() {
    assert_eq!(solve_with_limit(EXAMPLE, 10).unwrap().0, 40);
}

#[test]
fn example_full_connect() {
    assert_eq!(part2(EXAMPLE).unwrap(), 25_272);
}

#[test]
fn day08_puzzle_input_runs() {
    let text = cloud(1200);
    let _ = both(&text).unwrap();
}

#[test]
fn full_run_is_repeatable() {
    let text = cloud(300);
    let first = both(&text).unwrap();
    let second = both(&text).unwrap();
    assert_eq!(first, second);
    assert_eq!(part1(&text).unwrap(), first.0);
    assert_eq!(part2(&text).unwrap(), first.1);
}

#[test]
fn three_collinear_points() {
    let points = vec![point(0, 0, 0), point(1, 0, 0), point(3, 0, 0)];
    let found = survey(&points, 1).unwrap();
    assert_eq!(sorted(found.closest), vec![(1, 0, 1)]);
    assert_eq!(found.longest, Edge { dist: 4, a: 1, b: 2 });
}

#[test]
fn duplicate_points_come_first() {
    let points = vec![point(5, 5, 5), point(0, 0, 0), point(0, 0, 0), point(1, 1, 1)];
    let found = survey(&points, 1).unwrap();
    assert_eq!(sorted(found.closest), vec![(0, 1, 2)]);
}

#[test]
fn exactly_two_points() {
    let points = vec![point(2, 0, 0), point(5, 4, 0)];
    let found = survey(&points, 1).unwrap();
    assert_eq!(sorted(found.closest.clone()), vec![(25, 0, 1)]);
    assert_eq!(found.longest, Edge { dist: 25, a: 0, b: 1 });
    assert_eq!(component_sizes(2, &found.closest), [2, 0, 0]);
    let more = survey(&points, 7).unwrap();
    assert_eq!(sorted(more.closest), vec![(25, 0, 1)]);
    assert_eq!(solve_points(&points, 1000).unwrap(), (0, 10));
}

#[test]
fn malformed_line_is_a_parse_error() {
    assert_eq!(part1("1,2"), Err(SolveError::Parse(ParseError::MissingSeparator)));
    assert_eq!(parse_points(b"1,2\n3,4,5\n"), Err(ParseError::MissingSeparator));
}

#[test]
fn each_parse_error() {
    assert_eq!(parse_points(b""), Err(ParseError::Empty));
    assert_eq!(parse_points(b"\n\r\n\n"), Err(ParseError::Empty));
    assert_eq!(parse_points(b"1,2,"), Err(ParseError::UnexpectedEnd));
    assert_eq!(parse_points(b"1,2,-"), Err(ParseError::UnexpectedEnd));
    assert_eq!(parse_points(b"1,x,3\n"), Err(ParseError::ExpectedDigit(b'x')));
    assert_eq!(parse_points(b"1,2,-a\n"), Err(ParseError::ExpectedDigit(b'a')));
    assert_eq!(parse_points(b"1;2;3\n"), Err(ParseError::MissingSeparator));
    assert_eq!(parse_points(b"1,2,2147483648\n"), Err(ParseError::OutOfRange));
    assert_eq!(parse_points(b"1,2,-2147483649\n"), Err(ParseError::OutOfRange));
    assert_eq!(parse_points(b"1,2,99999999999999999999999\n"), Err(ParseError::OutOfRange));
    assert_eq!(parse_points(b"1,2,3 \n"), Err(ParseError::TrailingCharacters));
}

#[test]
fn parses_signs_blank_lines_and_line_endings() {
    let points = parse_points(b"\n1,2,3\r\n\r\n-4,05,-2147483648\n2147483647,0,-0").unwrap();
    assert_eq!(
        points,
        vec![point(1, 2, 3), point(-4, 5, i32::MIN), point(i32::MAX, 0, 0)]
    );
}

#[test]
fn squared_distance_is_exact_and_symmetric() {
    let a = point(1, -2, 3);
    let b = point(-4, 6, 3);
    assert_eq!(sq_dist(&a, &b), 25 + 64);
    assert_eq!(sq_dist(&b, &a), 89);
    assert_eq!(sq_dist(&a, &a), 0);
    let far = point(i32::MAX, 0, 0);
    let near = point(i32::MIN, 0, 0);
    assert_eq!(checked_sq_dist(&far, &near), Some(4294967295u64 * 4294967295u64));
    let corner = point(i32::MAX, i32::MAX, i32::MAX);
    let other = point(i32::MIN, i32::MIN, i32::MIN);
    assert_eq!(checked_sq_dist(&corner, &other), None);
}

#[test]
fn each_solve_error() {
    assert_eq!(both(""), Err(SolveError::Parse(ParseError::Empty)));
    assert_eq!(both("1,2,3\n"), Err(SolveError::TooFewPoints));
    let far = format!("{0},{0},{0}\n{1},{1},{1}\n", i32::MAX, i32::MIN);
    assert_eq!(both(&far), Err(SolveError::DistanceOverflow));
    let many: Vec<Point> = (0..65536).map(|i| point(i, 0, 0)).collect();
    assert_eq!(solve_points(&many, 1), Err(SolveError::TooManyPoints));
}

#[test]
fn selector_size_is_limit_or_pair_count() {
    let points: Vec<Point> = (0..7).map(|i| point(i * i, i, 0)).collect();
    for limit in [0usize, 1, 5, 20, 21, 22, 1000] {
        let found = survey(&points, limit).unwrap();
        assert_eq!(found.closest.len(), limit.min(21));
    }
}

#[test]
fn ties_go_to_the_smaller_positions() {
    let points = vec![point(0, 0, 0), point(1, 0, 0), point(2, 0, 0), point(3, 0, 0)];
    let found = survey(&points, 2).unwrap();
    assert_eq!(sorted(found.closest), vec![(1, 0, 1), (1, 1, 2)]);
    assert_eq!(found.longest, Edge { dist: 1, a: 0, b: 1 });
}

#[test]
fn closest_pairs_match_a_full_sort() {
    let text = cloud(60);
    let points = parse_points(text.as_bytes()).unwrap();
    let mut all: Vec<(u64, u16, u16)> = Vec::new();
    for i in 0..points.len() {
        for j in (i + 1)..points.len() {
            all.push((sq_dist(&points[i], &points[j]), i as u16, j as u16));
        }
    }
    all.sort();
    let found = survey(&points, 100).unwrap();
    assert_eq!(sorted(found.closest), all[..100].to_vec());
}

#[test]
fn longest_link_may_shrink_when_a_point_comes_between() {
    let two = vec![point(0, 0, 0), point(10, 0, 0)];
    assert_eq!(survey(&two, 0).unwrap().longest.dist, 100);
    let three = vec![point(0, 0, 0), point(10, 0, 0), point(5, 0, 0)];
    assert_eq!(survey(&three, 0).unwrap().longest.dist, 25);
    let far = vec![point(0, 0, 0), point(10, 0, 0), point(0, 30, 0)];
    assert_eq!(survey(&far, 0).unwrap().longest.dist, 900);
}

#[test]
fn heap_keeps_the_first_edges() {
    let mut heap = BoundedHeap::new(3);
    assert_eq!(heap.peek(), None);
    for (dist, a, b) in [(9u64, 0u16, 1u16), (4, 0, 2), (7, 1, 2), (4, 0, 3), (1, 2, 3), (8, 1, 3)] {
        heap.offer(Edge { dist, a, b });
    }
    assert_eq!(heap.len(), 3);
    assert_eq!(heap.peek(), Some(Edge { dist: 4, a: 0, b: 3 }));
    assert_eq!(sorted(heap.into_vec()), vec![(1, 2, 3), (4, 0, 2), (4, 0, 3)]);
    let mut none = BoundedHeap::new(0);
    none.offer(Edge { dist: 1, a: 0, b: 1 });
    assert_eq!(none.len(), 0);
}

#[test]
fn edge_order_is_by_distance_then_positions() {
    let e = Edge { dist: 4, a: 1, b: 5 };
    assert!(Edge { dist: 3, a: 9, b: 10 }.precedes(&e));
    assert!(Edge { dist: 4, a: 0, b: 9 }.precedes(&e));
    assert!(Edge { dist: 4, a: 1, b: 4 }.precedes(&e));
    assert!(!e.precedes(&e));
    assert!(!Edge { dist: 4, a: 1, b: 6 }.precedes(&e));
}

#[test]
fn find_is_idempotent_and_sizes_add_up() {
    let mut sets = DisjointSet::new(10);
    assert!(sets.union(0, 1));
    assert!(sets.union(2, 3));
    assert!(sets.union(1, 3));
    assert!(!sets.union(0, 2));
    assert!(sets.union(7, 8));
    for x in 0..10u16 {
        let top = sets.find(x);
        assert_eq!(sets.find(top), top);
    }
    assert_eq!(sets.find(3), sets.find(0));
    assert_ne!(sets.find(4), sets.find(0));
    let top = sets.top_three();
    assert_eq!(top, [4, 2, 1]);
    let mut tops: Vec<u16> = (0..10u16).map(|x| sets.find(x)).collect();
    tops.sort();
    tops.dedup();
    assert_eq!(tops.len(), 6);
}

#[test]
fn smaller_set_goes_under_the_larger() {
    let mut sets = DisjointSet::new(4);
    sets.union(0, 1);
    sets.union(2, 0);
    assert_eq!(sets.find(2), 0);
    sets.union(3, 3);
    assert_eq!(sets.find(3), 3);
}

#[test]
fn merged_edges_give_the_connected_parts() {
    let edges = vec![
        Edge { dist: 1, a: 0, b: 1 },
        Edge { dist: 1, a: 1, b: 2 },
        Edge { dist: 1, a: 4, b: 5 },
    ];
    let mut sets = merge_all(7, &edges);
    assert_eq!(sets.find(0), sets.find(2));
    assert_eq!(sets.find(4), sets.find(5));
    assert_ne!(sets.find(3), sets.find(6));
    assert_eq!(component_sizes(7, &edges), [3, 2, 1]);
    assert_eq!(component_sizes(0, &Vec::new()), [0, 0, 0]);
    assert_eq!(component_sizes(2, &Vec::new()), [1, 1, 0]);
}

#[test]
fn negative_product_wraps_to_64_bits() {
    let points = vec![point(-3, 0, 0), point(4, 0, 0)];
    assert_eq!(solve_points(&points, 1).unwrap().1, (-12i64) as u64);
}
