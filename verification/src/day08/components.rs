//! The connected parts of the graph that a set of edges makes of the
//! points, and the sizes of the three largest of them.

use vstd::prelude::*;
use crate::day08::disjoint::{count_label, DisjointSet};
use crate::day08::selector::Edge;

verus! {

/// Both ends of every edge have the same label.
pub open spec fn respects(labels: Seq<int>, edges: Set<Edge>) -> bool {
    forall|e: Edge| #[trigger] edges.contains(e) ==> labels[e.a as int] == labels[e.b as int]
}

/// Two positions are connected if every labelling of the `n` positions
/// that gives both ends of each edge one label gives the two one label.
pub open spec fn connected(n: nat, edges: Set<Edge>, i: int, j: int) -> bool {
    forall|labels: Seq<int>|
        labels.len() == n && #[trigger] respects(labels, edges) ==> labels[i] == labels[j]
}

/// How many of the positions below `k` are connected to `v`.
pub open spec fn count_connected(n: nat, edges: Set<Edge>, v: int, k: int) -> nat
    decreases k,
{
    if k <= 0 {
        0
    } else {
        count_connected(n, edges, v, k - 1) + if connected(n, edges, v, k - 1) {
            1nat
        } else {
            0nat
        }
    }
}

/// The size of the connected part that holds `v`.
pub open spec fn component_size(n: nat, edges: Set<Edge>, v: int) -> nat {
    count_connected(n, edges, v, n as int)
}

/// `v` stands for a part of size `size`, or is -1 and stands for no part,
/// with size zero.
pub open spec fn stands_for(n: nat, edges: Set<Edge>, v: int, size: nat) -> bool {
    if v == -1 {
        size == 0
    } else {
        0 <= v < n && component_size(n, edges, v) == size
    }
}

/// `v0`, `v1` and `v2` stand for three different parts of the sizes
/// given, largest first, and no other part is larger than the third.
pub open spec fn picks_largest(
    n: nat,
    edges: Set<Edge>,
    sizes: (nat, nat, nat),
    v0: int,
    v1: int,
    v2: int,
) -> bool {
    &&& sizes.0 >= sizes.1 >= sizes.2
    &&& stands_for(n, edges, v0, sizes.0)
    &&& stands_for(n, edges, v1, sizes.1)
    &&& stands_for(n, edges, v2, sizes.2)
    &&& v0 != -1 && v1 != -1 ==> !connected(n, edges, v0, v1)
    &&& v0 != -1 && v2 != -1 ==> !connected(n, edges, v0, v2)
    &&& v1 != -1 && v2 != -1 ==> !connected(n, edges, v1, v2)
    &&& forall|w: int|
        0 <= w < n && (v0 == -1 || !connected(n, edges, v0, w)) && (v1 == -1 || !connected(
            n,
            edges,
            v1,
            w,
        )) && (v2 == -1 || !connected(n, edges, v2, w)) ==> #[trigger] component_size(n, edges, w)
            <= sizes.2
}

/// `sizes` are the sizes of the three largest connected parts, largest
/// first, with zero for each part that is missing.
pub open spec fn largest_three(n: nat, edges: Set<Edge>, sizes: (nat, nat, nat)) -> bool {
    exists|v0: int, v1: int, v2: int| picks_largest(n, edges, sizes, v0, v1, v2)
}

/// Both ends of each of the first `m` edges have the same label.
pub open spec fn respects_first(labels: Seq<int>, edges: Seq<Edge>, m: int) -> bool {
    forall|k: int| 0 <= k < m ==> labels[(#[trigger] edges[k]).a as int] == labels[edges[k].b as int]
}

/// Every labelling that respects the first `m` edges gives each position
/// the label of the top of its set.
pub open spec fn tops_follow(roots: Seq<int>, edges: Seq<Edge>, m: int) -> bool {
    forall|labels: Seq<int>|
        labels.len() == roots.len() && #[trigger] respects_first(labels, edges, m) ==> forall|
            i: int,
        |
            0 <= i < roots.len() ==> labels[i] == labels[#[trigger] roots[i]]
}

/// Merges the sets of both ends of every edge. Two positions are then in
/// one set exactly if the edges connect them.
pub fn merge_all(n: usize, edges: &Vec<Edge>) -> (sets: DisjointSet)
    requires
        n <= 65535,
        forall|k: int| 0 <= k < edges.len() ==> (#[trigger] edges[k]).a < n && edges[k].b < n,
    ensures
        sets.wf(),
        sets.len() == n,
        forall|i: int, j: int|
            0 <= i < n && 0 <= j < n ==> (sets.same_set(i, j) <==> connected(
                n as nat,
                edges@.to_set(),
                i,
                j,
            )),
{
    let mut sets = DisjointSet::new(n);
    let mut m: usize = 0;
    while m < edges.len()
        invariant
            m <= edges.len(),
            n <= 65535,
            sets.wf(),
            sets.len() == n,
            sets.roots().len() == n,
            forall|k: int| 0 <= k < edges.len() ==> (#[trigger] edges[k]).a < n && edges[k].b < n,
            respects_first(sets.roots(), edges@, m as int),
            tops_follow(sets.roots(), edges@, m as int),
        decreases edges.len() - m,
    {
        let e = edges[m];
        let ghost before = sets.roots();
        proof {
            sets.lemma_root(e.a as int);
            sets.lemma_root(e.b as int);
        }
        let merged = sets.union(e.a, e.b);
        proof {
            let after = sets.roots();
            let loser = if merged { before[e.b as int] } else { 0 };
            assert(after.len() == n);
            assert forall|k: int| 0 <= k < m + 1 implies after[(#[trigger] edges@[k]).a as int]
                == after[edges@[k].b as int] by {
                if k < m {
                    assert(before[edges@[k].a as int] == before[edges@[k].b as int]);
                }
            }
            assert forall|labels: Seq<int>|
                labels.len() == after.len() && #[trigger] respects_first(
                    labels,
                    edges@,
                    m + 1,
                ) implies forall|i: int|
                0 <= i < after.len() ==> labels[i] == labels[#[trigger] after[i]] by {
                assert(respects_first(labels, edges@, m as int));
                assert(labels[edges@[m as int].a as int] == labels[edges@[m as int].b as int]);
                assert(labels[e.a as int] == labels[before[e.a as int]]);
                assert(labels[e.b as int] == labels[before[e.b as int]]);
                assert forall|i: int| 0 <= i < after.len() implies labels[i] == labels[
                    #[trigger] after[i]
                ] by {
                    assert(labels[i] == labels[before[i]]);
                }
            }
        }
        m += 1;
    }
    proof {
        let roots = sets.roots();
        let all = edges@.to_set();
        assert(respects(roots, all)) by {
            assert forall|e: Edge| #[trigger] all.contains(e) implies roots[e.a as int] == roots[
                e.b as int
            ] by {
                let k = choose|k: int| 0 <= k < edges@.len() && edges@[k] == e;
                assert(roots[edges@[k].a as int] == roots[edges@[k].b as int]);
            }
        }
        assert forall|i: int, j: int| 0 <= i < n && 0 <= j < n implies (sets.same_set(i, j)
            <==> connected(n as nat, all, i, j)) by {
            if sets.same_set(i, j) {
                assert forall|labels: Seq<int>|
                    labels.len() == n && #[trigger] respects(labels, all) implies labels[i]
                    == labels[j] by {
                    assert(respects_first(labels, edges@, edges@.len() as int)) by {
                        assert forall|k: int| 0 <= k < edges@.len() implies labels[(
                        #[trigger] edges@[k]).a as int] == labels[edges@[k].b as int] by {
                            assert(all.contains(edges@[k]));
                        }
                    }
                    assert(labels[i] == labels[roots[i]]);
                    assert(labels[j] == labels[roots[j]]);
                }
            }
        }
    }
    sets
}

/// In sets that hold exactly what the edges connect, the size of a set
/// is the size of the connected part.
pub proof fn lemma_set_is_component(sets: DisjointSet, n: nat, edges: Set<Edge>, v: int)
    requires
        sets.wf(),
        sets.len() == n,
        0 <= v < n,
        forall|i: int, j: int|
            0 <= i < n && 0 <= j < n ==> (sets.same_set(i, j) <==> connected(n, edges, i, j)),
    ensures
        sets.set_size(v) == component_size(n, edges, v),
{
    sets.lemma_root(v);
    lemma_count_matches(sets, n, edges, v, n as int);
    assert(sets.roots().take(n as int) =~= sets.roots());
}

proof fn lemma_count_matches(sets: DisjointSet, n: nat, edges: Set<Edge>, v: int, k: int)
    requires
        sets.roots().len() == n,
        0 <= v < n,
        0 <= k <= n,
        forall|i: int, j: int|
            0 <= i < n && 0 <= j < n ==> (sets.same_set(i, j) <==> connected(n, edges, i, j)),
    ensures
        count_label(sets.roots().take(k), sets.roots()[v]) == count_connected(n, edges, v, k),
    decreases k,
{
    if k > 0 {
        lemma_count_matches(sets, n, edges, v, k - 1);
        assert(sets.roots().take(k).drop_last() =~= sets.roots().take(k - 1));
        assert(sets.same_set(v, k - 1) <==> connected(n, edges, v, k - 1));
    }
}

/// The sizes of the three largest connected parts that the edges make of
/// `n` positions, largest first, with zero for each part that is missing.
pub fn component_sizes(n: usize, edges: &Vec<Edge>) -> (top: [u32; 3])
    requires
        n <= 65535,
        forall|k: int| 0 <= k < edges.len() ==> (#[trigger] edges[k]).a < n && edges[k].b < n,
    ensures
        largest_three(n as nat, edges@.to_set(), (top[0] as nat, top[1] as nat, top[2] as nat)),
        top[0] <= n,
        top[1] <= n,
        top[2] <= n,
{
    let sets = merge_all(n, edges);
    let top = sets.top_three();
    proof {
        let all = edges@.to_set();
        let sizes = (top[0] as nat, top[1] as nat, top[2] as nat);
        let (v0, v1, v2) = choose|v0: int, v1: int, v2: int| sets.picks_top(sizes, v0, v1, v2);
        if v0 != -1 {
            lemma_set_is_component(sets, n as nat, all, v0);
        }
        if v1 != -1 {
            lemma_set_is_component(sets, n as nat, all, v1);
        }
        if v2 != -1 {
            lemma_set_is_component(sets, n as nat, all, v2);
        }
        assert forall|w: int|
            0 <= w < n && (v0 == -1 || !connected(n as nat, all, v0, w)) && (v1 == -1
                || !connected(n as nat, all, v1, w)) && (v2 == -1 || !connected(
                n as nat,
                all,
                v2,
                w,
            )) implies #[trigger] component_size(n as nat, all, w) <= sizes.2 by {
            lemma_set_is_component(sets, n as nat, all, w);
            assert(sets.set_size(w) <= sizes.2);
        }
        assert(picks_largest(n as nat, all, sizes, v0, v1, v2));
    }
    top
}

/// Being connected is an equivalence.
pub proof fn lemma_connected_equivalence(n: nat, edges: Set<Edge>, i: int, j: int, k: int)
    ensures
        connected(n, edges, i, i),
        connected(n, edges, i, j) ==> connected(n, edges, j, i),
        connected(n, edges, i, j) && connected(n, edges, j, k) ==> connected(n, edges, i, k),
{
}

proof fn lemma_same_count(n: nat, edges: Set<Edge>, v: int, w: int, k: int)
    requires
        connected(n, edges, v, w),
    ensures
        count_connected(n, edges, v, k) == count_connected(n, edges, w, k),
    decreases k,
{
    if k > 0 {
        lemma_same_count(n, edges, v, w, k - 1);
        lemma_connected_equivalence(n, edges, v, w, k - 1);
        lemma_connected_equivalence(n, edges, w, v, k - 1);
    }
}

proof fn lemma_counts_itself(n: nat, edges: Set<Edge>, v: int, k: int)
    requires
        0 <= v < k,
    ensures
        count_connected(n, edges, v, k) >= 1,
    decreases k,
{
    if v < k - 1 {
        lemma_counts_itself(n, edges, v, k - 1);
    } else {
        lemma_connected_equivalence(n, edges, v, v, v);
    }
}

/// The size of the part of `x`, by the pick that `x` is connected to.
proof fn lemma_size_by_pick(
    n: nat,
    edges: Set<Edge>,
    sizes: (nat, nat, nat),
    v0: int,
    v1: int,
    v2: int,
    x: int,
)
    requires
        picks_largest(n, edges, sizes, v0, v1, v2),
        0 <= x < n,
    ensures
        component_size(n, edges, x) >= 1,
        v0 != -1 && connected(n, edges, v0, x) ==> component_size(n, edges, x) == sizes.0,
        v1 != -1 && connected(n, edges, v1, x) ==> component_size(n, edges, x) == sizes.1,
        v2 != -1 && connected(n, edges, v2, x) ==> component_size(n, edges, x) == sizes.2,
        (v0 == -1 || !connected(n, edges, v0, x)) && (v1 == -1 || !connected(n, edges, v1, x)) && (
        v2 == -1 || !connected(n, edges, v2, x)) ==> component_size(n, edges, x) <= sizes.2,
{
    lemma_counts_itself(n, edges, x, n as int);
    if v0 != -1 && connected(n, edges, v0, x) {
        lemma_same_count(n, edges, v0, x, n as int);
    }
    if v1 != -1 && connected(n, edges, v1, x) {
        lemma_same_count(n, edges, v1, x, n as int);
    }
    if v2 != -1 && connected(n, edges, v2, x) {
        lemma_same_count(n, edges, v2, x, n as int);
    }
}

proof fn lemma_largest_bound(
    n: nat,
    edges: Set<Edge>,
    s: (nat, nat, nat),
    v0: int,
    v1: int,
    v2: int,
    t: (nat, nat, nat),
    w0: int,
    w1: int,
    w2: int,
)
    requires
        picks_largest(n, edges, s, v0, v1, v2),
        picks_largest(n, edges, t, w0, w1, w2),
    ensures
        t.0 <= s.0,
        t.1 <= s.1,
        t.2 <= s.2,
{
    if w0 != -1 {
        lemma_size_by_pick(n, edges, s, v0, v1, v2, w0);
    }
    if w1 != -1 {
        lemma_size_by_pick(n, edges, s, v0, v1, v2, w1);
    }
    if w2 != -1 {
        lemma_size_by_pick(n, edges, s, v0, v1, v2, w2);
    }
    if v0 != -1 {
        lemma_connected_equivalence(n, edges, w0, v0, w1);
        lemma_connected_equivalence(n, edges, v0, w0, w1);
        lemma_connected_equivalence(n, edges, w0, v0, w2);
        lemma_connected_equivalence(n, edges, v0, w0, w2);
        lemma_connected_equivalence(n, edges, w1, v0, w2);
        lemma_connected_equivalence(n, edges, v0, w1, w2);
    }
    if v1 != -1 {
        lemma_connected_equivalence(n, edges, w0, v1, w1);
        lemma_connected_equivalence(n, edges, v1, w0, w1);
        lemma_connected_equivalence(n, edges, w0, v1, w2);
        lemma_connected_equivalence(n, edges, v1, w0, w2);
        lemma_connected_equivalence(n, edges, w1, v1, w2);
        lemma_connected_equivalence(n, edges, v1, w1, w2);
    }
}

/// Only one triple holds the sizes of the three largest connected parts.
pub proof fn lemma_largest_unique(
    n: nat,
    edges: Set<Edge>,
    first: (nat, nat, nat),
    second: (nat, nat, nat),
)
    requires
        largest_three(n, edges, first),
        largest_three(n, edges, second),
    ensures
        first == second,
{
    let (v0, v1, v2) = choose|v0: int, v1: int, v2: int|
        picks_largest(n, edges, first, v0, v1, v2);
    let (w0, w1, w2) = choose|w0: int, w1: int, w2: int|
        picks_largest(n, edges, second, w0, w1, w2);
    lemma_largest_bound(n, edges, first, v0, v1, v2, second, w0, w1, w2);
    lemma_largest_bound(n, edges, second, w0, w1, w2, first, v0, v1, v2);
}

} // verus!
