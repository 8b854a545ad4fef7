//! What the longest link of the spanning tree means: its length is the
//! smallest reach at which all points hang together.

use vstd::prelude::*;
use crate::day08::points::{lemma_sq_dist_symmetric, spec_sq_dist, Point};
use crate::values::lemma_all_present;
use crate::day08::spanning::{
    dist, is_next, lemma_prim_longest, lemma_prim_order, lemma_prim_step,
    lemma_tree_link, link_before, next_vertex, prim_longest, prim_order, prim_step, tree_link,
};

verus! {

/// A walk over the points in which no step is longer than `reach`,
/// measured by the squared distance.
pub open spec fn is_path(points: Seq<Point>, reach: int, path: Seq<int>) -> bool {
    &&& path.len() >= 1
    &&& forall|i: int| 0 <= i < path.len() ==> 0 <= #[trigger] path[i] < points.len()
    &&& forall|i: int|
        0 <= i < path.len() - 1 ==> #[trigger] dist(points, path[i], path[i + 1]) <= reach
}

/// A walk with steps of at most `reach` leads from `a` to `b`.
pub open spec fn reaches(points: Seq<Point>, reach: int, a: int, b: int) -> bool {
    exists|path: Seq<int>|
        #[trigger] is_path(points, reach, path) && path[0] == a && path[path.len() - 1] == b
}

/// With steps of at most `reach` every point can be reached from every
/// other.
pub open spec fn spans(points: Seq<Point>, reach: int) -> bool {
    forall|a: int, b: int|
        0 <= a < points.len() && 0 <= b < points.len() ==> #[trigger] reaches(points, reach, a, b)
}

/// The squared length of the longest link of the spanning tree.
pub open spec fn bottleneck(points: Seq<Point>) -> int {
    prim_longest(points, (points.len() - 1) as nat).0
}

proof fn lemma_extend(points: Seq<Point>, reach: int, path: Seq<int>, v: int)
    requires
        is_path(points, reach, path),
        0 <= v < points.len(),
        dist(points, path[path.len() - 1], v) <= reach,
    ensures
        is_path(points, reach, path.push(v)),
{
    let longer = path.push(v);
    assert forall|i: int| 0 <= i < longer.len() - 1 implies #[trigger] dist(
        points,
        longer[i],
        longer[i + 1],
    ) <= reach by {
        if i < path.len() - 1 {
            assert(dist(points, path[i], path[i + 1]) <= reach);
        }
    }
}

proof fn lemma_reverse(points: Seq<Point>, reach: int, path: Seq<int>)
    requires
        is_path(points, reach, path),
    ensures
        is_path(points, reach, path.reverse()),
        path.reverse()[0] == path[path.len() - 1],
        path.reverse()[path.len() - 1] == path[0],
{
    let back = path.reverse();
    assert forall|i: int| 0 <= i < back.len() - 1 implies #[trigger] dist(
        points,
        back[i],
        back[i + 1],
    ) <= reach by {
        let j = path.len() - 2 - i;
        assert(dist(points, path[j], path[j + 1]) <= reach);
        lemma_sq_dist_symmetric(points[path[j]], points[path[j + 1]]);
    }
}

proof fn lemma_join(points: Seq<Point>, reach: int, first: Seq<int>, second: Seq<int>)
    requires
        is_path(points, reach, first),
        is_path(points, reach, second),
        first[first.len() - 1] == second[0],
    ensures
        is_path(points, reach, first + second.subrange(1, second.len() as int)),
        (first + second.subrange(1, second.len() as int))[0] == first[0],
        (first + second.subrange(1, second.len() as int))[first.len() + second.len() - 2]
            == second[second.len() - 1],
{
    let whole = first + second.subrange(1, second.len() as int);
    assert forall|i: int| 0 <= i < whole.len() - 1 implies #[trigger] dist(
        points,
        whole[i],
        whole[i + 1],
    ) <= reach by {
        if i < first.len() - 1 {
            assert(dist(points, first[i], first[i + 1]) <= reach);
        } else {
            let j = i - (first.len() - 1);
            assert(dist(points, second[j], second[j + 1]) <= reach);
        }
    }
}

/// Every member of the tree can be reached from the first point with
/// steps no longer than the longest link so far.
proof fn lemma_tree_reaches(points: Seq<Point>, k: nat, reach: int)
    requires
        1 <= k <= points.len(),
        k >= 2 ==> reach >= prim_longest(points, (k - 1) as nat).0,
    ensures
        forall|i: int| 0 <= i < k ==> reaches(points, reach, 0, #[trigger] prim_order(points, k)[i]),
    decreases k,
{
    let order = prim_order(points, k);
    lemma_prim_order(points, k);
    if k == 1 {
        let path = seq![0int];
        assert(is_path(points, reach, path));
        assert(path[0] == 0 && path[path.len() - 1] == order[0]);
    } else {
        let j = (k - 1) as nat;
        lemma_tree_reaches(points, j, reach);
        lemma_prim_order(points, j);
        lemma_prim_step(points, j);
        let earlier = prim_order(points, j);
        let step = prim_step(points, j);
        assert(order == earlier.push(step.2));
        assert(step.0 <= reach);
        let at = choose|at: int| 0 <= at < earlier.len() && earlier[at] == step.1;
        assert(reaches(points, reach, 0, earlier[at]));
        let path = choose|path: Seq<int>|
            #[trigger] is_path(points, reach, path) && path[0] == 0 && path[path.len() - 1]
                == step.1;
        lemma_extend(points, reach, path, step.2);
        let longer = path.push(step.2);
        assert(longer[0] == 0 && longer[longer.len() - 1] == step.2);
        assert forall|i: int| 0 <= i < k implies reaches(
            points,
            reach,
            0,
            #[trigger] order[i],
        ) by {
            if i < j {
                assert(order[i] == earlier[i]);
            } else {
                assert(is_path(points, reach, longer));
            }
        }
    }
}

/// A walk from the first point with steps shorter than a link of the tree
/// stays among the points that were in the tree before that link.
proof fn lemma_cut(points: Seq<Point>, at: nat, reach: int, path: Seq<int>, i: int)
    requires
        1 <= at < points.len(),
        reach < prim_step(points, at).0,
        is_path(points, reach, path),
        path[0] == 0,
        0 <= i < path.len(),
    ensures
        prim_order(points, at).contains(path[i]),
    decreases i,
{
    let order = prim_order(points, at);
    lemma_prim_order(points, at);
    if i == 0 {
        assert(order[0] == 0);
    } else {
        lemma_cut(points, at, reach, path, i - 1);
        let u = path[i - 1];
        let w = path[i];
        assert(dist(points, path[i - 1], path[i - 1 + 1]) <= reach);
        if !order.contains(w) {
            let idx = choose|idx: int| 0 <= idx < order.len() && order[idx] == u;
            lemma_tree_link(points, order, w);
            assert(tree_link(points, order, w).unwrap().0 <= dist(points, order[idx], w));
            let v = next_vertex(points, order);
            assert(is_next(points, order, v));
            assert(link_before(points, order, v, w));
        }
    }
}

/// The longest link of the spanning tree is just long enough: with steps
/// of its length every point can be reached from every other, and with
/// shorter steps some point cannot.
pub proof fn lemma_longest_link_spans(points: Seq<Point>)
    requires
        2 <= points.len(),
    ensures
        spans(points, bottleneck(points)),
        forall|reach: int| reach < bottleneck(points) ==> !spans(points, reach),
{
    let n = points.len();
    let top = bottleneck(points);
    lemma_tree_reaches(points, n, top);
    lemma_prim_order(points, n);
    let order = prim_order(points, n);
    assert forall|a: int, b: int| 0 <= a < n && 0 <= b < n implies #[trigger] reaches(
        points,
        top,
        a,
        b,
    ) by {
        if !order.contains(a) {
            lemma_all_present(order, n as int, a);
        }
        if !order.contains(b) {
            lemma_all_present(order, n as int, b);
        }
        let i = choose|i: int| 0 <= i < order.len() && order[i] == a;
        let j = choose|j: int| 0 <= j < order.len() && order[j] == b;
        assert(reaches(points, top, 0, order[i]));
        assert(reaches(points, top, 0, order[j]));
        let to_a = choose|path: Seq<int>|
            #[trigger] is_path(points, top, path) && path[0] == 0 && path[path.len() - 1] == a;
        let to_b = choose|path: Seq<int>|
            #[trigger] is_path(points, top, path) && path[0] == 0 && path[path.len() - 1] == b;
        lemma_reverse(points, top, to_a);
        lemma_join(points, top, to_a.reverse(), to_b);
        let whole = to_a.reverse() + to_b.subrange(1, to_b.len() as int);
        assert(is_path(points, top, whole) && whole[0] == a && whole[whole.len() - 1] == b);
    }
    let at = lemma_prim_longest(points, (n - 1) as nat);
    lemma_prim_step(points, at);
    let v = prim_step(points, at).2;
    assert forall|reach: int| reach < top implies !spans(points, reach) by {
        if reaches(points, reach, 0, v) {
            let path = choose|path: Seq<int>|
                #[trigger] is_path(points, reach, path) && path[0] == 0 && path[path.len() - 1]
                    == v;
            lemma_cut(points, at, reach, path, path.len() - 1);
        }
    }
}

/// The new point is at least as far as the longest link is long from
/// every point that a walk from `a` with shorter steps comes to.
pub open spec fn far_from_part(points: Seq<Point>, q: Point, a: int) -> bool {
    forall|j: int|
        0 <= j < points.len() && #[trigger] reaches(points, bottleneck(points) - 1, a, j)
            ==> spec_sq_dist(points[j], q) >= bottleneck(points)
}

/// A walk among the old points is a walk among all.
proof fn lemma_lift(points: Seq<Point>, q: Point, reach: int, path: Seq<int>)
    requires
        is_path(points, reach, path),
    ensures
        is_path(points.push(q), reach, path),
{
    let more = points.push(q);
    assert forall|i: int| 0 <= i < path.len() - 1 implies #[trigger] dist(
        more,
        path[i],
        path[i + 1],
    ) <= reach by {
        assert(dist(points, path[i], path[i + 1]) <= reach);
        assert(more[path[i]] == points[path[i]]);
        assert(more[path[i + 1]] == points[path[i + 1]]);
    }
}

/// A walk from `a` with steps shorter than the longest link stays in the
/// part of `a` when the new point is far from that part.
proof fn lemma_stays(points: Seq<Point>, q: Point, a: int, reach: int, path: Seq<int>, i: int)
    requires
        is_path(points.push(q), reach, path),
        0 <= a < points.len(),
        path[0] == a,
        reach < bottleneck(points),
        far_from_part(points, q, a),
        0 <= i < path.len(),
    ensures
        path[i] < points.len(),
        reaches(points, bottleneck(points) - 1, a, path[i]),
    decreases i,
{
    let more = points.push(q);
    let short = bottleneck(points) - 1;
    if i == 0 {
        let start = seq![a];
        assert(is_path(points, short, start) && start[0] == a && start[start.len() - 1] == a);
    } else {
        lemma_stays(points, q, a, reach, path, i - 1);
        let u = path[i - 1];
        let w = path[i];
        assert(dist(more, path[i - 1], path[i - 1 + 1]) <= reach);
        assert(more[u] == points[u]);
        if w == points.len() {
            assert(more[w] == q);
            assert(spec_sq_dist(points[u], q) >= bottleneck(points));
        } else {
            assert(more[w] == points[w]);
            let near = choose|near: Seq<int>|
                #[trigger] is_path(points, short, near) && near[0] == a && near[near.len() - 1]
                    == u;
            lemma_extend(points, short, near, w);
            let longer = near.push(w);
            assert(is_path(points, short, longer) && longer[0] == a && longer[longer.len() - 1]
                == w);
        }
    }
}

/// Where the new point is far from no part, a walk with steps shorter
/// than the longest link leads from every point to the new one.
proof fn lemma_to_new_point(points: Seq<Point>, q: Point, x: int) -> (path: Seq<int>)
    requires
        0 <= x <= points.len(),
        forall|a: int| 0 <= a < points.len() ==> !far_from_part(points, q, a),
    ensures
        is_path(points.push(q), bottleneck(points) - 1, path),
        path[0] == x,
        path[path.len() - 1] == points.len(),
{
    let more = points.push(q);
    let short = bottleneck(points) - 1;
    if x == points.len() {
        seq![x]
    } else {
        assert(!far_from_part(points, q, x));
        let j = choose|j: int|
            0 <= j < points.len() && #[trigger] reaches(points, short, x, j) && spec_sq_dist(
                points[j],
                q,
            ) < bottleneck(points);
        let near = choose|near: Seq<int>|
            #[trigger] is_path(points, short, near) && near[0] == x && near[near.len() - 1] == j;
        lemma_lift(points, q, short, near);
        assert(more[j] == points[j]);
        assert(more[points.len() as int] == q);
        lemma_extend(more, short, near, points.len() as int);
        near.push(points.len() as int)
    }
}

/// When a new point leaves the longest link as long as it was, or makes
/// it longer: exactly when the new point is at least that far from every
/// point of some part that hangs together by shorter steps.
pub proof fn lemma_new_point_and_bottleneck(points: Seq<Point>, q: Point)
    requires
        2 <= points.len(),
    ensures
        bottleneck(points.push(q)) >= bottleneck(points) <==> exists|a: int|
            0 <= a < points.len() && far_from_part(points, q, a),
{
    let more = points.push(q);
    let n = points.len() as int;
    let short = bottleneck(points) - 1;
    lemma_longest_link_spans(more);
    if exists|a: int| 0 <= a < points.len() && far_from_part(points, q, a) {
        let a = choose|a: int| 0 <= a < points.len() && far_from_part(points, q, a);
        if bottleneck(more) < bottleneck(points) {
            assert(reaches(more, bottleneck(more), a, n));
            let path = choose|path: Seq<int>|
                #[trigger] is_path(more, bottleneck(more), path) && path[0] == a && path[path.len()
                    - 1] == n;
            lemma_stays(points, q, a, bottleneck(more), path, path.len() - 1);
        }
    } else {
        assert forall|x: int, y: int| 0 <= x < more.len() && 0 <= y < more.len() implies #[trigger] reaches(
            more,
            short,
            x,
            y,
        ) by {
            let from_x = lemma_to_new_point(points, q, x);
            let from_y = lemma_to_new_point(points, q, y);
            lemma_reverse(more, short, from_y);
            lemma_join(more, short, from_x, from_y.reverse());
            let whole = from_x + from_y.reverse().subrange(1, from_y.len() as int);
            assert(is_path(more, short, whole) && whole[0] == x && whole[whole.len() - 1] == y);
        }
        assert(spans(more, short));
    }
}

/// A new point that is at least as far from every old point as the
/// longest link is long does not make the longest link shorter.
pub proof fn lemma_far_point_keeps_bottleneck(points: Seq<Point>, q: Point)
    requires
        2 <= points.len(),
        forall|j: int|
            0 <= j < points.len() ==> spec_sq_dist(#[trigger] points[j], q) >= bottleneck(points),
    ensures
        bottleneck(points.push(q)) >= bottleneck(points),
{
    lemma_new_point_and_bottleneck(points, q);
    assert(far_from_part(points, q, 0));
}

} // verus!
