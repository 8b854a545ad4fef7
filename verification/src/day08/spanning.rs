//! One pass over all pairs of points in the order in which a spanning tree
//! grows from the first point: it finds the longest link of that tree and
//! offers every pair to the heap of closest pairs.

use vstd::prelude::*;
use vstd::set_lib::{lemma_int_range, lemma_len_subset, set_int_range};
use crate::day08::points::{checked_sq_dist, lemma_sq_dist_symmetric, spec_sq_dist, Point};
use crate::day08::selector::{is_smallest, BoundedHeap, Edge};
use crate::day08::SolveError;
use crate::values::lemma_all_present;

verus! {

/// The most points that a list may hold: positions are 16 bits wide.
pub const MAX_POINTS: usize = 65535;

/// The squared distance between the points at two positions.
pub open spec fn dist(points: Seq<Point>, i: int, j: int) -> int {
    spec_sq_dist(points[i], points[j])
}

/// Whether every pair of points has a squared distance that fits in 64
/// bits.
pub open spec fn distances_fit(points: Seq<Point>) -> bool {
    forall|i: int, j: int|
        0 <= i < points.len() && 0 <= j < points.len() ==> #[trigger] dist(points, i, j)
            <= u64::MAX
}

/// The edge between two positions, the smaller position first.
pub open spec fn pair_edge(points: Seq<Point>, i: int, j: int) -> Edge {
    if i <= j {
        Edge { dist: dist(points, i, j) as u64, a: i as u16, b: j as u16 }
    } else {
        Edge { dist: dist(points, i, j) as u64, a: j as u16, b: i as u16 }
    }
}

/// One edge for each pair of different points.
pub open spec fn all_pairs(points: Seq<Point>) -> Set<Edge> {
    Set::new(|e: Edge| (e.a as int) < e.b < points.len() && e.dist == dist(points, e.a as int, e.b as int))
}

/// How the point at `v` hangs on the tree made of the points in `order`:
/// the smallest squared distance to a point of the tree, and the tree
/// point at that distance with the smallest position.
pub open spec fn tree_link(points: Seq<Point>, order: Seq<int>, v: int) -> Option<(int, int)>
    decreases order.len(),
{
    if order.len() == 0 {
        None
    } else {
        let u = order.last();
        let du = dist(points, u, v);
        match tree_link(points, order.drop_last(), v) {
            None => Some((du, u)),
            Some((d, p)) => if du < d || (du == d && u < p) {
                Some((du, u))
            } else {
                Some((d, p))
            },
        }
    }
}

/// The point at `v` is at most as far from the tree as the point at `w`,
/// and has the smaller position if both are as far.
pub open spec fn link_before(points: Seq<Point>, order: Seq<int>, v: int, w: int) -> bool {
    let dv = tree_link(points, order, v).unwrap().0;
    let dw = tree_link(points, order, w).unwrap().0;
    dv < dw || (dv == dw && v <= w)
}

/// The point at `v` is the one that joins the tree next: of the points
/// outside the tree it is the nearest to it, and of several nearest ones
/// the first.
pub open spec fn is_next(points: Seq<Point>, order: Seq<int>, v: int) -> bool {
    &&& 0 <= v < points.len()
    &&& !order.contains(v)
    &&& forall|w: int|
        0 <= w < points.len() && !order.contains(w) ==> #[trigger] link_before(
            points,
            order,
            v,
            w,
        )
}

/// The point that joins the tree next.
pub open spec fn next_vertex(points: Seq<Point>, order: Seq<int>) -> int {
    choose|v: int| is_next(points, order, v)
}

/// The first `k` points of the tree, in the order in which they join it.
/// The tree starts at the first point of the list.
pub open spec fn prim_order(points: Seq<Point>, k: nat) -> Seq<int>
    decreases k,
{
    if k == 0 {
        Seq::empty()
    } else if k == 1 {
        seq![0int]
    } else {
        let order = prim_order(points, (k - 1) as nat);
        order.push(next_vertex(points, order))
    }
}

/// The link by which the tree grows from `k` points to `k + 1`: its
/// squared length, the tree point and the point that joins.
pub open spec fn prim_step(points: Seq<Point>, k: nat) -> (int, int, int) {
    let order = prim_order(points, k);
    let v = next_vertex(points, order);
    let link = tree_link(points, order, v).unwrap();
    (link.0, link.1, v)
}

/// The longest of the first `k` links of the tree, and of several longest
/// ones the first.
pub open spec fn prim_longest(points: Seq<Point>, k: nat) -> (int, int, int)
    decreases k,
{
    if k <= 1 {
        prim_step(points, 1)
    } else {
        let earlier = prim_longest(points, (k - 1) as nat);
        let step = prim_step(points, k);
        if step.0 > earlier.0 {
            step
        } else {
            earlier
        }
    }
}

/// The edges of which at least one end is in `order`, and those from `u`
/// to the positions before `upto`.
pub open spec fn offered(points: Seq<Point>, order: Seq<int>, u: int, upto: int) -> Set<Edge> {
    Set::new(
        |e: Edge|
            all_pairs(points).contains(e) && (order.contains(e.a as int) || order.contains(
                e.b as int,
            ) || (e.a == u && e.b < upto) || (e.b == u && e.a < upto)),
    )
}

/// While the tree holds fewer than all points, some point is outside it.
pub proof fn lemma_some_outside(order: Seq<int>, n: int) -> (v: int)
    requires
        order.no_duplicates(),
        forall|i: int| 0 <= i < order.len() ==> 0 <= #[trigger] order[i] < n,
        order.len() < n,
    ensures
        0 <= v < n,
        !order.contains(v),
{
    let full = set_int_range(0, n);
    lemma_int_range(0, n);
    order.unique_seq_to_set();
    if full.subset_of(order.to_set()) {
        lemma_len_subset(full, order.to_set());
        assert(false);
    }
    let v = choose|v: int| full.contains(v) && !order.to_set().contains(v);
    v
}

/// Only one point can be the next to join.
pub proof fn lemma_next_unique(points: Seq<Point>, order: Seq<int>, v: int)
    requires
        is_next(points, order, v),
    ensures
        next_vertex(points, order) == v,
{
    let w = next_vertex(points, order);
    assert(is_next(points, order, w));
    assert(link_before(points, order, v, w));
    assert(link_before(points, order, w, v));
}

/// The first link that the scan finds longest, with the smaller position
/// first.
pub open spec fn longest_edge(points: Seq<Point>) -> Edge {
    let found = prim_longest(points, (points.len() - 1) as nat);
    Edge {
        dist: found.0 as u64,
        a: (if found.1 <= found.2 { found.1 } else { found.2 }) as u16,
        b: (if found.1 <= found.2 { found.2 } else { found.1 }) as u16,
    }
}

/// What one pass over the pairs of points finds.
pub struct Survey {
    /// The closest pairs, each once, in no particular order.
    pub closest: Vec<Edge>,
    /// The longest link of the spanning tree.
    pub longest: Edge,
}

/// The point outside the tree that is nearest to it, the first of several.
fn select(visited: &Vec<bool>, min_dist: &Vec<u64>) -> (r: Option<usize>)
    requires
        visited.len() == min_dist.len(),
    ensures
        match r {
            None => forall|v: int| 0 <= v < visited.len() ==> visited[v],
            Some(u) => u < visited.len() && !visited[u as int] && forall|w: int|
                0 <= w < visited.len() && !visited[w] ==> min_dist[u as int] < min_dist[w] || (
                min_dist[u as int] == min_dist[w] && u <= w),
        },
{
    let n: usize = visited.len();
    let mut best: Option<usize> = None;
    let mut v: usize = 0;
    while v < n
        invariant
            v <= n,
            n == visited.len(),
            n == min_dist.len(),
            match best {
                None => forall|w: int| 0 <= w < v ==> visited[w],
                Some(u) => u < v && !visited[u as int] && forall|w: int|
                    0 <= w < v && !visited[w] ==> min_dist[u as int] < min_dist[w] || (
                    min_dist[u as int] == min_dist[w] && u <= w),
            },
        decreases n - v,
    {
        if !visited[v] {
            match best {
                None => {
                    best = Some(v);
                },
                Some(u) => {
                    if min_dist[v] < min_dist[u] {
                        best = Some(v);
                    }
                },
            }
        }
        v += 1;
    }
    best
}

/// Takes the point at `u` into the tree: offers its pairs with the points
/// outside the tree to the heap, and hangs each of those points on `u`
/// where that is nearer, or as near with a smaller position.
fn relax(
    points: &Vec<Point>,
    u: usize,
    first: bool,
    visited: &Vec<bool>,
    min_dist: &mut Vec<u64>,
    parent: &mut Vec<u16>,
    heap: &mut BoundedHeap,
    Ghost(order): Ghost<Seq<int>>,
) -> (r: Result<(), SolveError>)
    requires
        points.len() <= MAX_POINTS,
        u < points.len(),
        first == (order.len() == 0),
        !order.contains(u as int),
        visited.len() == points.len(),
        old(min_dist).len() == points.len(),
        old(parent).len() == points.len(),
        forall|v: int| 0 <= v < points.len() ==> visited[v] == order.contains(v),
        forall|v: int|
            0 <= v < points.len() && !visited[v] && !first ==> tree_link(points@, order, v)
                == Some((old(min_dist)[v] as int, old(parent)[v] as int)),
        old(heap).wf(),
        old(heap).seen() == offered(points@, order, 0, 0),
        forall|i: int, v: int|
            0 <= i < order.len() && 0 <= v < points.len() ==> #[trigger] dist(
                points@,
                order[i],
                v,
            ) <= u64::MAX,
        forall|i: int| 0 <= i < order.len() ==> 0 <= #[trigger] order[i] < points.len(),
    ensures
        final(min_dist).len() == points.len(),
        final(parent).len() == points.len(),
        final(heap).limit() == old(heap).limit(),
        match r {
            Ok(_) => {
                &&& forall|v: int|
                    0 <= v < points.len() && !visited[v] && v != u ==> tree_link(
                        points@,
                        order.push(u as int),
                        v,
                    ) == Some((final(min_dist)[v] as int, final(parent)[v] as int))
                &&& forall|v: int|
                    0 <= v < points.len() && (visited[v] || v == u) ==> final(min_dist)[v] == old(
                        min_dist,
                    )[v] && final(parent)[v] == old(parent)[v]
                &&& final(heap).wf()
                &&& final(heap).seen() == offered(points@, order.push(u as int), 0, 0)
                &&& forall|v: int| 0 <= v < points.len() ==> #[trigger] dist(points@, u as int, v) <= u64::MAX
            },
            Err(e) => e == SolveError::DistanceOverflow && !distances_fit(points@),
        },
{
    let n: usize = points.len();
    let mut v: usize = 0;
    while v < n
        invariant
            v <= n,
            n == points.len(),
            n <= MAX_POINTS,
            u < n,
            first == (order.len() == 0),
            !order.contains(u as int),
            visited.len() == n,
            min_dist.len() == n,
            parent.len() == n,
            old(min_dist).len() == n,
            old(parent).len() == n,
            forall|w: int| 0 <= w < n ==> visited[w] == order.contains(w),
            forall|w: int|
                v <= w < n && !visited[w] && !first ==> tree_link(points@, order, w) == Some(
                    (min_dist[w] as int, parent[w] as int),
                ),
            forall|w: int|
                0 <= w < v && !visited[w] && w != u ==> tree_link(points@, order.push(u as int), w)
                    == Some((min_dist[w] as int, parent[w] as int)),
            forall|w: int|
                0 <= w < n && (visited[w] || w == u) ==> min_dist[w] == old(min_dist)[w]
                    && parent[w] == old(parent)[w],
            heap.wf(),
            heap.limit() == old(heap).limit(),
            heap.seen() == offered(points@, order, u as int, v as int),
            forall|i: int, w: int|
                0 <= i < order.len() && 0 <= w < n ==> #[trigger] dist(points@, order[i], w)
                    <= u64::MAX,
            forall|i: int| 0 <= i < order.len() ==> 0 <= #[trigger] order[i] < n,
            forall|w: int| 0 <= w < v ==> #[trigger] dist(points@, u as int, w) <= u64::MAX,
        decreases n - v,
    {
        proof {
            lemma_sq_dist_symmetric(points@[u as int], points@[v as int]);
            assert(order.push(u as int).drop_last() == order);
        }
        if v != u && !visited[v] {
            let d: u64 = match checked_sq_dist(&points[u], &points[v]) {
                Some(d) => d,
                None => {
                    proof {
                        assert(dist(points@, u as int, v as int) > u64::MAX);
                    }
                    return Err(SolveError::DistanceOverflow);
                },
            };
            let e = if u < v {
                Edge { dist: d, a: u as u16, b: v as u16 }
            } else {
                Edge { dist: d, a: v as u16, b: u as u16 }
            };
            proof {
                assert(e == pair_edge(points@, u as int, v as int));
                assert(all_pairs(points@).contains(e));
                assert(!offered(points@, order, u as int, v as int).contains(e));
                assert(offered(points@, order, u as int, v + 1) =~= offered(
                    points@,
                    order,
                    u as int,
                    v as int,
                ).insert(e));
            }
            heap.offer(e);
            if first || d < min_dist[v] || (d == min_dist[v] && u < parent[v] as usize) {
                min_dist.set(v, d);
                parent.set(v, u as u16);
            }
        } else {
            proof {
                if v != u {
                    assert(visited[v as int]);
                    assert(order.contains(v as int));
                    let i = choose|i: int| 0 <= i < order.len() && order[i] == v;
                    assert(dist(points@, order[i], u as int) <= u64::MAX);
                }
                assert(offered(points@, order, u as int, v + 1) =~= offered(
                    points@,
                    order,
                    u as int,
                    v as int,
                ));
            }
        }
        v += 1;
    }
    proof {
        let after = order.push(u as int);
        assert forall|e: Edge| offered(points@, after, 0, 0).contains(e) == offered(
            points@,
            order,
            u as int,
            n as int,
        ).contains(e) by {
            if all_pairs(points@).contains(e) {
                if after.contains(e.a as int) {
                    let i = choose|i: int| 0 <= i < after.len() && after[i] == e.a as int;
                    if i < order.len() {
                        assert(order[i] == e.a as int);
                    }
                }
                if after.contains(e.b as int) {
                    let i = choose|i: int| 0 <= i < after.len() && after[i] == e.b as int;
                    if i < order.len() {
                        assert(order[i] == e.b as int);
                    }
                }
                if order.contains(e.a as int) {
                    let i = choose|i: int| 0 <= i < order.len() && order[i] == e.a as int;
                    assert(after[i] == e.a as int);
                }
                if order.contains(e.b as int) {
                    let i = choose|i: int| 0 <= i < order.len() && order[i] == e.b as int;
                    assert(after[i] == e.b as int);
                }
                assert(after[order.len() as int] == u as int);
            }
        }
        assert(offered(points@, after, 0, 0) =~= offered(points@, order, u as int, n as int));
    }
    Ok(())
}

/// A position that is not in the list can be added to it.
proof fn lemma_push_fresh(order: Seq<int>, u: int)
    requires
        order.no_duplicates(),
        !order.contains(u),
    ensures
        order.push(u).no_duplicates(),
        order.push(u).contains(u),
        forall|v: int| order.contains(v) ==> order.push(u).contains(v),
        forall|v: int| order.push(u).contains(v) ==> order.contains(v) || v == u,
{
    let after = order.push(u);
    assert(after[order.len() as int] == u);
    assert forall|v: int| order.contains(v) implies after.contains(v) by {
        let i = choose|i: int| 0 <= i < order.len() && order[i] == v;
        assert(after[i] == v);
    }
    assert forall|v: int| after.contains(v) implies order.contains(v) || v == u by {
        let i = choose|i: int| 0 <= i < after.len() && after[i] == v;
        if i < order.len() {
            assert(order[i] == v);
        }
    }
    assert forall|i: int, j: int| 0 <= i < after.len() && 0 <= j < after.len() && i != j implies after[i] != after[j] by {
        if i < order.len() && j < order.len() {
            assert(order[i] != order[j]);
        } else if i < order.len() {
            assert(order.contains(order[i]));
        } else if j < order.len() {
            assert(order.contains(order[j]));
        }
    }
}

/// Grows the spanning tree from the first point, one nearest point at a
/// time, and offers every pair of points once to a heap that keeps the
/// `limit` closest.
pub fn survey(points: &Vec<Point>, limit: usize) -> (r: Result<Survey, SolveError>)
    ensures
        match r {
            Ok(found) => {
                &&& 2 <= points.len() <= MAX_POINTS
                &&& distances_fit(points@)
                &&& found.closest@.no_duplicates()
                &&& is_smallest(found.closest@.to_set(), all_pairs(points@), limit as nat)
                &&& found.closest.len() == if limit <= pair_count(points@.len()) {
                    limit as nat
                } else {
                    pair_count(points@.len())
                }
                &&& found.longest == longest_edge(points@)
            },
            Err(SolveError::TooFewPoints) => points.len() < 2,
            Err(SolveError::TooManyPoints) => points.len() > MAX_POINTS,
            Err(SolveError::DistanceOverflow) => 2 <= points.len() <= MAX_POINTS && !distances_fit(
                points@,
            ),
            Err(_) => false,
        },
{
    let n: usize = points.len();
    if n < 2 {
        return Err(SolveError::TooFewPoints);
    }
    if n > MAX_POINTS {
        return Err(SolveError::TooManyPoints);
    }
    let mut heap = BoundedHeap::new(limit);
    let mut visited: Vec<bool> = vec![false; n];
    let mut min_dist: Vec<u64> = vec![0u64; n];
    let mut parent: Vec<u16> = vec![0u16; n];
    let ghost mut order: Seq<int> = Seq::empty();
    proof {
        assert(offered(points@, order, 0, 0) =~= Set::<Edge>::empty());
    }
    match relax(points, 0, true, &visited, &mut min_dist, &mut parent, &mut heap, Ghost(order)) {
        Ok(_) => {},
        Err(e) => {
            return Err(e);
        },
    }
    visited.set(0, true);
    proof {
        lemma_push_fresh(order, 0);
        order = order.push(0);
        assert(order =~= seq![0int]);
    }
    let mut longest: Option<(u64, u16, u16)> = None;
    let mut k: usize = 1;
    while k < n
        invariant
            1 <= k <= n,
            n == points.len(),
            2 <= n <= MAX_POINTS,
            order.len() == k,
            order == prim_order(points@, k as nat),
            order.no_duplicates(),
            forall|i: int| 0 <= i < order.len() ==> 0 <= #[trigger] order[i] < n,
            visited.len() == n,
            min_dist.len() == n,
            parent.len() == n,
            forall|v: int| 0 <= v < n ==> visited[v] == order.contains(v),
            forall|v: int|
                0 <= v < n && !visited[v] ==> tree_link(points@, order, v) == Some(
                    (min_dist[v] as int, parent[v] as int),
                ),
            heap.wf(),
            heap.limit() == limit,
            heap.seen() == offered(points@, order, 0, 0),
            forall|i: int, v: int|
                0 <= i < order.len() && 0 <= v < n ==> #[trigger] dist(points@, order[i], v)
                    <= u64::MAX,
            k == 1 ==> longest is None,
            k >= 2 ==> longest is Some && (
                longest.unwrap().0 as int,
                longest.unwrap().1 as int,
                longest.unwrap().2 as int,
            ) == prim_longest(points@, (k - 1) as nat),
        decreases n - k,
    {
        let u: usize = match select(&visited, &min_dist) {
            Some(u) => u,
            None => {
                proof {
                    let v = lemma_some_outside(order, n as int);
                    assert(visited[v]);
                }
                return Err(SolveError::IncompleteGraph);
            },
        };
        let d: u64 = min_dist[u];
        let p: u16 = parent[u];
        proof {
            assert(!order.contains(u as int));
            assert forall|w: int| 0 <= w < n && !order.contains(w) implies #[trigger] link_before(
                points@,
                order,
                u as int,
                w,
            ) by {
                assert(!visited[w]);
                assert(tree_link(points@, order, w) == Some((min_dist[w] as int, parent[w] as int)));
            }
            assert(is_next(points@, order, u as int));
            lemma_next_unique(points@, order, u as int);
            assert(prim_step(points@, k as nat) == (d as int, p as int, u as int));
        }
        longest = match longest {
            Some((far, from, to)) => if far >= d {
                Some((far, from, to))
            } else {
                Some((d, p, u as u16))
            },
            None => Some((d, p, u as u16)),
        };
        match relax(points, u, false, &visited, &mut min_dist, &mut parent, &mut heap, Ghost(order)) {
            Ok(_) => {},
            Err(e) => {
                return Err(e);
            },
        }
        let ghost before = visited@;
        visited.set(u, true);
        proof {
            lemma_push_fresh(order, u as int);
            assert forall|v: int| 0 <= v < n implies visited[v] == order.push(u as int).contains(
                v,
            ) by {
                assert(before[v] == order.contains(v));
            }
            order = order.push(u as int);
        }
        k += 1;
    }
    proof {
        assert forall|v: int| 0 <= v < n implies order.contains(v) by {
            if !order.contains(v) {
                lemma_all_present(order, n as int, v);
            }
        }
        assert forall|i: int, j: int| 0 <= i < n && 0 <= j < n implies #[trigger] dist(
            points@,
            i,
            j,
        ) <= u64::MAX by {
            assert(order.contains(i));
            let at = choose|at: int| 0 <= at < order.len() && order[at] == i;
            assert(dist(points@, order[at], j) <= u64::MAX);
        }
        assert(offered(points@, order, 0, 0) =~= all_pairs(points@));
        heap.lemma_wf();
        lemma_pair_count(points@);
    }
    let closest = heap.into_vec();
    match longest {
        Some((far, from, to)) => {
            let link = if from <= to {
                Edge { dist: far, a: from, b: to }
            } else {
                Edge { dist: far, a: to, b: from }
            };
            Ok(Survey { closest, longest: link })
        },
        None => Err(SolveError::IncompleteGraph),
    }
}

/// The members of the tree are different positions of points, and the
/// first of them is the first point.
pub proof fn lemma_prim_order(points: Seq<Point>, k: nat)
    requires
        1 <= k <= points.len(),
    ensures
        prim_order(points, k).len() == k,
        prim_order(points, k).no_duplicates(),
        prim_order(points, k)[0] == 0,
        forall|i: int| 0 <= i < k ==> 0 <= #[trigger] prim_order(points, k)[i] < points.len(),
        k < points.len() ==> is_next(points, prim_order(points, k), next_vertex(points, prim_order(points, k))),
    decreases k,
{
    let order = prim_order(points, k);
    if k == 1 {
        assert(order =~= seq![0int]);
    } else {
        lemma_prim_order(points, (k - 1) as nat);
        let earlier = prim_order(points, (k - 1) as nat);
        lemma_push_fresh(earlier, next_vertex(points, earlier));
    }
    if k < points.len() {
        let v = lemma_some_outside(order, points.len() as int);
        lemma_next_exists(points, order, v);
    }
}

/// Of the positions below `upto` that are outside, the one with the
/// smallest key, and of several such the first.
proof fn lemma_first_outside(key: spec_fn(int) -> int, outside: spec_fn(int) -> bool, upto: int) -> (v: int)
    requires
        exists|w: int| 0 <= w < upto && #[trigger] outside(w),
    ensures
        0 <= v < upto,
        outside(v),
        forall|w: int|
            0 <= w < upto && #[trigger] outside(w) ==> key(v) < key(w) || (key(v) == key(w) && v
                <= w),
    decreases upto,
{
    let last = upto - 1;
    if exists|w: int| 0 <= w < last && #[trigger] outside(w) {
        let v = lemma_first_outside(key, outside, last);
        if outside(last) && key(last) < key(v) {
            last
        } else {
            v
        }
    } else {
        let w = choose|w: int| 0 <= w < upto && #[trigger] outside(w);
        assert(w == last);
        last
    }
}

/// While some point is outside the tree, one of them joins next.
proof fn lemma_next_exists(points: Seq<Point>, order: Seq<int>, w: int)
    requires
        0 <= w < points.len(),
        !order.contains(w),
    ensures
        is_next(points, order, next_vertex(points, order)),
{
    let key = |x: int| tree_link(points, order, x).unwrap().0;
    let outside = |x: int| !order.contains(x);
    assert(outside(w));
    let v = lemma_first_outside(key, outside, points.len() as int);
    assert forall|x: int| 0 <= x < points.len() && !order.contains(x) implies #[trigger] link_before(
        points,
        order,
        v,
        x,
    ) by {
        assert(outside(x));
    }
    assert(is_next(points, order, v));
}

/// How a point hangs on a tree of points: on a member of the tree, at the
/// smallest distance to any member.
pub proof fn lemma_tree_link(points: Seq<Point>, order: Seq<int>, v: int)
    requires
        order.len() > 0,
    ensures
        tree_link(points, order, v) is Some,
        order.contains(tree_link(points, order, v).unwrap().1),
        tree_link(points, order, v).unwrap().0 == dist(
            points,
            tree_link(points, order, v).unwrap().1,
            v,
        ),
        forall|i: int|
            0 <= i < order.len() ==> tree_link(points, order, v).unwrap().0 <= #[trigger] dist(
                points,
                order[i],
                v,
            ),
    decreases order.len(),
{
    let last = order.len() - 1;
    assert(order[last] == order.last());
    if order.len() > 1 {
        let earlier = order.drop_last();
        lemma_tree_link(points, earlier, v);
        let p = tree_link(points, earlier, v).unwrap().1;
        let at = choose|at: int| 0 <= at < earlier.len() && earlier[at] == p;
        assert(order[at] == p);
        assert forall|i: int| 0 <= i < order.len() implies tree_link(
            points,
            order,
            v,
        ).unwrap().0 <= #[trigger] dist(points, order[i], v) by {
            if i < last {
                assert(earlier[i] == order[i]);
                assert(tree_link(points, earlier, v).unwrap().0 <= dist(points, earlier[i], v));
            }
        }
    }
}

/// Each link of the tree joins a member of the tree to a point outside it.
pub proof fn lemma_prim_step(points: Seq<Point>, k: nat)
    requires
        1 <= k < points.len(),
    ensures
        prim_order(points, k).contains(prim_step(points, k).1),
        !prim_order(points, k).contains(prim_step(points, k).2),
        0 <= prim_step(points, k).1 < points.len(),
        0 <= prim_step(points, k).2 < points.len(),
        prim_step(points, k).0 == dist(points, prim_step(points, k).1, prim_step(points, k).2),
{
    lemma_prim_order(points, k);
    let order = prim_order(points, k);
    lemma_tree_link(points, order, next_vertex(points, order));
    let p = prim_step(points, k).1;
    let at = choose|at: int| 0 <= at < order.len() && order[at] == p;
    assert(0 <= order[at] < points.len());
}

/// The longest link is one of the links of the tree.
pub proof fn lemma_prim_longest(points: Seq<Point>, k: nat) -> (at: nat)
    requires
        1 <= k < points.len(),
    ensures
        1 <= at <= k,
        prim_longest(points, k) == prim_step(points, at),
        forall|j: nat| 1 <= j <= k ==> (#[trigger] prim_step(points, j)).0 <= prim_longest(points, k).0,
    decreases k,
{
    if k <= 1 {
        1
    } else {
        let at = lemma_prim_longest(points, (k - 1) as nat);
        if prim_step(points, k).0 > prim_longest(points, (k - 1) as nat).0 {
            k
        } else {
            at
        }
    }
}

/// Both ends of the longest link are different points of the list, the
/// smaller position first, and its length is their squared distance.
pub proof fn lemma_longest_in_range(points: Seq<Point>)
    requires
        2 <= points.len() <= MAX_POINTS,
        distances_fit(points),
    ensures
        (longest_edge(points).a as int) < longest_edge(points).b < points.len(),
        longest_edge(points).dist == dist(
            points,
            longest_edge(points).a as int,
            longest_edge(points).b as int,
        ),
{
    let k = (points.len() - 1) as nat;
    let at = lemma_prim_longest(points, k);
    lemma_prim_step(points, at);
    let step = prim_step(points, at);
    lemma_sq_dist_symmetric(points[step.1], points[step.2]);
    assert(dist(points, step.1, step.2) <= u64::MAX);
}

/// How many pairs `n` points form.
pub open spec fn pair_count(n: nat) -> nat {
    (n * (n - 1) / 2) as nat
}

/// The edges whose second end is below `b`, and those to `b` from the
/// positions below `t`.
pub open spec fn pairs_upto(points: Seq<Point>, b: int, t: int) -> Set<Edge> {
    Set::new(|e: Edge| all_pairs(points).contains(e) && (e.b < b || (e.b == b && e.a < t)))
}

proof fn lemma_pairs_upto(points: Seq<Point>, b: int, t: int)
    requires
        distances_fit(points),
        points.len() <= MAX_POINTS,
        0 <= t <= b <= points.len(),
        b < points.len() || t == 0,
    ensures
        pairs_upto(points, b, t).finite(),
        2 * pairs_upto(points, b, t).len() == b * (b - 1) + 2 * t,
    decreases b, t,
{
    if t > 0 {
        lemma_pairs_upto(points, b, t - 1);
        let e = pair_edge(points, t - 1, b);
        assert(dist(points, t - 1, b) <= u64::MAX);
        lemma_sq_dist_symmetric(points[t - 1], points[b]);
        assert(e.a == t - 1 && e.b == b && e.dist == dist(points, t - 1, b));
        assert(all_pairs(points).contains(e));
        assert forall|x: Edge| pairs_upto(points, b, t).contains(x) implies pairs_upto(
            points,
            b,
            t - 1,
        ).insert(e).contains(x) by {
            if x.b == b && x.a == t - 1 {
                assert(x.dist == e.dist);
                assert(x == e);
            }
        }
        assert(pairs_upto(points, b, t) =~= pairs_upto(points, b, t - 1).insert(e));
        assert(!pairs_upto(points, b, t - 1).contains(e));
        assert(pairs_upto(points, b, t).len() == pairs_upto(points, b, t - 1).len() + 1);
    } else if b > 0 {
        lemma_pairs_upto(points, b - 1, b - 1);
        assert(pairs_upto(points, b, 0) =~= pairs_upto(points, b - 1, b - 1));
        let c = b - 1;
        assert(c * (c - 1) + 2 * c == b * (b - 1)) by (nonlinear_arith)
            requires
                c == b - 1,
        ;
    } else {
        assert(b * (b - 1) == 0) by (nonlinear_arith)
            requires
                b == 0,
        ;
        assert(pairs_upto(points, 0, 0) =~= Set::<Edge>::empty());
    }
}

/// `n` points form `n * (n - 1) / 2` pairs.
pub proof fn lemma_pair_count(points: Seq<Point>)
    requires
        distances_fit(points),
        points.len() <= MAX_POINTS,
    ensures
        all_pairs(points).finite(),
        all_pairs(points).len() == pair_count(points.len()),
{
    let n = points.len() as int;
    lemma_pairs_upto(points, n, 0);
    assert(pairs_upto(points, n, 0) =~= all_pairs(points));
    assert(n * (n - 1) >= 0) by (nonlinear_arith)
        requires
            n >= 0,
    ;
}

} // verus!
