//! Sets of positions that can be merged: each set is a tree whose top
//! stands for the set and holds its size.

use vstd::prelude::*;

verus! {

/// How many items of `labels` are `r`.
pub open spec fn count_label(labels: Seq<int>, r: int) -> nat
    decreases labels.len(),
{
    if labels.len() == 0 {
        0
    } else {
        count_label(labels.drop_last(), r) + if labels.last() == r { 1nat } else { 0nat }
    }
}

pub proof fn lemma_count_bound(labels: Seq<int>, r: int)
    ensures
        count_label(labels, r) <= labels.len(),
    decreases labels.len(),
{
    if labels.len() > 0 {
        lemma_count_bound(labels.drop_last(), r);
    }
}

/// A label that occurs is counted.
pub proof fn lemma_count_positive(labels: Seq<int>, i: int)
    requires
        0 <= i < labels.len(),
    ensures
        count_label(labels, labels[i]) >= 1,
    decreases labels.len(),
{
    if i < labels.len() - 1 {
        lemma_count_positive(labels.drop_last(), i);
    }
}

/// `labels` with every `from` turned into `to`.
pub open spec fn relabel(labels: Seq<int>, from: int, to: int) -> Seq<int> {
    Seq::new(labels.len(), |i: int| if labels[i] == from { to } else { labels[i] })
}

/// What turning one label into another does to the counts.
pub proof fn lemma_count_relabel(labels: Seq<int>, from: int, to: int, r: int)
    requires
        from != to,
    ensures
        count_label(relabel(labels, from, to), r) == if r == from {
            0
        } else if r == to {
            count_label(labels, to) + count_label(labels, from)
        } else {
            count_label(labels, r)
        },
    decreases labels.len(),
{
    if labels.len() > 0 {
        lemma_count_relabel(labels.drop_last(), from, to, r);
        assert(relabel(labels, from, to).drop_last() =~= relabel(labels.drop_last(), from, to));
    }
}

/// The sizes, added up, of the sets whose top is below `k`.
pub open spec fn top_sizes(parent: Seq<u16>, labels: Seq<int>, k: int) -> nat
    decreases k,
{
    if k <= 0 {
        0
    } else {
        top_sizes(parent, labels, k - 1) + if parent[k - 1] == k - 1 {
            count_label(labels, k - 1)
        } else {
            0nat
        }
    }
}

proof fn lemma_top_sizes_push(parent: Seq<u16>, labels: Seq<int>, x: int, k: int)
    requires
        0 <= k <= parent.len(),
    ensures
        top_sizes(parent, labels.push(x), k) == top_sizes(parent, labels, k) + if 0 <= x < k
            && parent[x] == x { 1nat } else { 0nat },
    decreases k,
{
    if k > 0 {
        lemma_top_sizes_push(parent, labels, x, k - 1);
        assert(labels.push(x).drop_last() =~= labels);
    }
}

proof fn lemma_top_sizes_empty(parent: Seq<u16>, k: int)
    ensures
        top_sizes(parent, Seq::<int>::empty(), k) == 0,
    decreases k,
{
    if k > 0 {
        lemma_top_sizes_empty(parent, k - 1);
    }
}

proof fn lemma_top_sizes_prefix(parent: Seq<u16>, labels: Seq<int>, m: int)
    requires
        0 <= m <= labels.len(),
        forall|i: int|
            0 <= i < labels.len() ==> 0 <= #[trigger] labels[i] < parent.len()
                && parent[labels[i]] == labels[i],
    ensures
        top_sizes(parent, labels.take(m), parent.len() as int) == m,
    decreases m,
{
    if m == 0 {
        assert(labels.take(0) =~= Seq::<int>::empty());
        lemma_top_sizes_empty(parent, parent.len() as int);
    } else {
        lemma_top_sizes_prefix(parent, labels, m - 1);
        assert(labels.take(m) =~= labels.take(m - 1).push(labels[m - 1]));
        lemma_top_sizes_push(parent, labels.take(m - 1), labels[m - 1], parent.len() as int);
    }
}

/// Disjoint sets of the positions below `len`.
pub struct DisjointSet {
    parent: Vec<u16>,
    size: Vec<u32>,
    roots: Ghost<Seq<int>>,
    depth: Ghost<Seq<nat>>,
}

impl DisjointSet {
    /// How many positions there are.
    pub closed spec fn len(&self) -> nat {
        self.parent@.len()
    }

    /// For each position, the position that stands for its set.
    pub closed spec fn roots(&self) -> Seq<int> {
        self.roots@
    }

    /// The position that stands for the set of `x`.
    pub open spec fn root_of(&self, x: int) -> int {
        self.roots()[x]
    }

    /// Whether two positions are in one set.
    pub open spec fn same_set(&self, a: int, b: int) -> bool {
        self.root_of(a) == self.root_of(b)
    }

    /// How many positions the set of `x` holds.
    pub open spec fn set_size(&self, x: int) -> nat {
        count_label(self.roots(), self.roots()[x])
    }

    /// The sizes of all sets, added up.
    pub closed spec fn total_size(&self) -> nat {
        top_sizes(self.parent@, self.roots@, self.parent@.len() as int)
    }

    /// Every position leads to the top of its set, and every top holds
    /// the size of its set.
    pub closed spec fn wf(&self) -> bool {
        let n = self.parent@.len();
        &&& n <= 65535
        &&& self.size@.len() == n
        &&& self.roots@.len() == n
        &&& self.depth@.len() == n
        &&& forall|i: int| 0 <= i < n ==> (#[trigger] self.parent@[i] as int) < n
        &&& forall|i: int| 0 <= i < n ==> 0 <= #[trigger] self.roots@[i] < n
        &&& forall|i: int|
            0 <= i < n ==> self.roots@[#[trigger] self.parent@[i] as int] == self.roots@[i]
        &&& forall|i: int| 0 <= i < n ==> self.parent@[#[trigger] self.roots@[i]] == self.roots@[i]
        &&& forall|i: int|
            0 <= i < n && #[trigger] self.parent@[i] == i ==> self.roots@[i] == i && self.depth@[i]
                == 0
        &&& forall|i: int|
            0 <= i < n && #[trigger] self.parent@[i] != i ==> self.depth@[self.parent@[i] as int]
                < self.depth@[i]
        &&& forall|i: int|
            0 <= i < n && #[trigger] self.parent@[i] == i ==> self.size@[i] == count_label(
                self.roots@,
                i,
            )
    }

    /// The top of a set is in range and stands for itself, and a set
    /// holds at least its own members.
    pub proof fn lemma_root(&self, x: int)
        requires
            self.wf(),
            0 <= x < self.len(),
        ensures
            self.roots().len() == self.len(),
            0 <= self.root_of(x) < self.len(),
            self.root_of(self.root_of(x)) == self.root_of(x),
            1 <= self.set_size(x) <= self.len(),
            self.set_size(self.root_of(x)) == self.set_size(x),
    {
        let r = self.roots@[x];
        assert(self.parent@[r] == r);
        lemma_count_positive(self.roots@, x);
        lemma_count_bound(self.roots@, r);
    }

    /// The sizes of all sets add up to the number of positions.
    pub proof fn lemma_total_size(&self)
        requires
            self.wf(),
        ensures
            self.total_size() == self.len(),
    {
        let n = self.parent@.len() as int;
        assert forall|i: int| 0 <= i < self.roots@.len() implies 0 <= #[trigger] self.roots@[i]
            < self.parent@.len() && self.parent@[self.roots@[i]] == self.roots@[i] by {}
        lemma_top_sizes_prefix(self.parent@, self.roots@, n);
        assert(self.roots@.take(n) =~= self.roots@);
    }

    /// `n` sets of one position each.
    pub fn new(n: usize) -> (r: DisjointSet)
        requires
            n <= 65535,
        ensures
            r.wf(),
            r.len() == n,
            r.roots() == Seq::new(n as nat, |x: int| x),
    {
        let mut parent: Vec<u16> = Vec::new();
        let mut size: Vec<u32> = Vec::new();
        let mut i: usize = 0;
        while i < n
            invariant
                i <= n <= 65535,
                parent.len() == i,
                size.len() == i,
                forall|j: int| 0 <= j < i ==> parent[j] == j,
                forall|j: int| 0 <= j < i ==> size[j] == 1,
            decreases n - i,
        {
            parent.push(i as u16);
            size.push(1);
            i += 1;
        }
        let ghost roots = Seq::new(n as nat, |j: int| j);
        let ghost depth = Seq::new(n as nat, |j: int| 0nat);
        proof {
            assert forall|j: int| 0 <= j < n implies count_label(roots, j) == 1 by {
                lemma_count_identity(n as int, j);
            }
        }
        DisjointSet { parent, size, roots: Ghost(roots), depth: Ghost(depth) }
    }

    /// The top of the set of `x`. Every position passed on the way is hung
    /// directly under the top.
    pub fn find(&mut self, x: u16) -> (r: u16)
        requires
            old(self).wf(),
            x < old(self).len(),
        ensures
            final(self).wf(),
            final(self).len() == old(self).len(),
            final(self).roots() == old(self).roots(),
            r == old(self).root_of(x as int),
            final(self).root_of(r as int) == r,
    {
        let mut top: u16 = x;
        while self.parent[top as usize] != top
            invariant
                self.wf(),
                *self == *old(self),
                top < self.parent@.len(),
                self.roots@[top as int] == self.roots@[x as int],
            decreases self.depth@[top as int],
        {
            top = self.parent[top as usize];
        }
        let mut cur: u16 = x;
        while cur != top
            invariant
                self.wf(),
                self.parent@.len() == old(self).parent@.len(),
                self.roots == old(self).roots,
                self.depth == old(self).depth,
                cur < self.parent@.len(),
                top < self.parent@.len(),
                self.parent@[top as int] == top,
                self.roots@[cur as int] == top,
            decreases self.depth@[cur as int],
        {
            let next: u16 = self.parent[cur as usize];
            let ghost before = self.parent@;
            self.parent.set(cur as usize, top);
            proof {
                assert forall|i: int| 0 <= i < self.parent@.len() implies self.parent@[i] == (
                if i == cur { top } else { before[i] }) by {}
                assert(before[cur as int] != cur);
                assert forall|i: int| 0 <= i < self.parent@.len() implies self.parent@[
                    #[trigger] self.roots@[i]
                ] == self.roots@[i] by {
                    assert(before[self.roots@[i]] == self.roots@[i]);
                }
            }
            cur = next;
        }
        top
    }

    /// Merges the sets of `a` and `b`, unless they are one set already,
    /// and says whether it did. The top of the smaller set is hung under
    /// the top of the larger; of two sets of the same size that of `b`
    /// goes under that of `a`.
    pub fn union(&mut self, a: u16, b: u16) -> (merged: bool)
        requires
            old(self).wf(),
            a < old(self).len(),
            b < old(self).len(),
        ensures
            final(self).wf(),
            final(self).len() == old(self).len(),
            merged == !old(self).same_set(a as int, b as int),
            !merged ==> final(self).roots() == old(self).roots(),
            merged ==> final(self).roots() == relabel(
                old(self).roots(),
                old(self).merge_loser(a as int, b as int),
                old(self).merge_winner(a as int, b as int),
            ),
    {
        let top_a: u16 = self.find(a);
        let top_b: u16 = self.find(b);
        if top_a == top_b {
            return false;
        }
        let size_a: u32 = self.size[top_a as usize];
        let size_b: u32 = self.size[top_b as usize];
        let (winner, loser) = if size_a < size_b {
            (top_b, top_a)
        } else {
            (top_a, top_b)
        };
        let ghost roots = self.roots@;
        let ghost depth = self.depth@;
        let ghost parent = self.parent@;
        proof {
            assert(size_a == old(self).set_size(a as int));
            assert(size_b == old(self).set_size(b as int));
            lemma_count_bound(roots, top_a as int);
            lemma_count_bound(roots, top_b as int);
            assert(parent[top_a as int] == top_a);
            assert(parent[top_b as int] == top_b);
        }
        self.parent.set(loser as usize, winner);
        self.size.set(winner as usize, size_a + size_b);
        proof {
            let n = parent.len() as int;
            let merged_roots = relabel(roots, loser as int, winner as int);
            let merged_depth = Seq::new(
                n as nat,
                |i: int| if roots[i] == loser { depth[i] + 1 } else { depth[i] },
            );
            self.roots = Ghost(merged_roots);
            self.depth = Ghost(merged_depth);
            assert forall|i: int| 0 <= i < n implies self.parent@[i] == (if i == loser {
                winner
            } else {
                parent[i]
            }) by {}
            assert forall|i: int| 0 <= i < n implies merged_roots[#[trigger] self.parent@[i] as int]
                == merged_roots[i] by {
                assert(roots[parent[i] as int] == roots[i]);
            }
            assert forall|i: int| 0 <= i < n implies self.parent@[#[trigger] merged_roots[i]]
                == merged_roots[i] by {
                assert(parent[roots[i]] == roots[i]);
            }
            assert forall|i: int| 0 <= i < n && #[trigger] self.parent@[i] != i implies merged_depth[self.parent@[i] as int]
                < merged_depth[i] by {
                if i != loser {
                    assert(parent[i] != i);
                    assert(roots[parent[i] as int] == roots[i]);
                }
            }
            assert forall|i: int| 0 <= i < n && #[trigger] self.parent@[i] == i implies self.size@[i]
                == count_label(merged_roots, i) by {
                lemma_count_relabel(roots, loser as int, winner as int, i);
                assert(parent[i] == i);
            }
        }
        true
    }

    /// `v` is in a set of size `size`, or is -1 and stands for no set,
    /// with size zero.
    pub open spec fn holds(&self, v: int, size: nat) -> bool {
        if v == -1 {
            size == 0
        } else {
            0 <= v < self.len() && self.set_size(v) == size
        }
    }

    /// `v0`, `v1` and `v2` are in three different sets of the sizes given,
    /// largest first, and no other set is larger than the third.
    pub open spec fn picks_top(&self, sizes: (nat, nat, nat), v0: int, v1: int, v2: int) -> bool {
        &&& sizes.0 >= sizes.1 >= sizes.2
        &&& self.holds(v0, sizes.0)
        &&& self.holds(v1, sizes.1)
        &&& self.holds(v2, sizes.2)
        &&& v0 != -1 && v1 != -1 ==> !self.same_set(v0, v1)
        &&& v0 != -1 && v2 != -1 ==> !self.same_set(v0, v2)
        &&& v1 != -1 && v2 != -1 ==> !self.same_set(v1, v2)
        &&& forall|w: int|
            0 <= w < self.len() && (v0 == -1 || !self.same_set(v0, w)) && (v1 == -1
                || !self.same_set(v1, w)) && (v2 == -1 || !self.same_set(v2, w))
                ==> #[trigger] self.set_size(w) <= sizes.2
    }

    /// The sizes of the three largest sets, largest first, with zero for
    /// each set that is missing.
    pub fn top_three(&self) -> (top: [u32; 3])
        requires
            self.wf(),
        ensures
            exists|v0: int, v1: int, v2: int|
                self.picks_top((top[0] as nat, top[1] as nat, top[2] as nat), v0, v1, v2),
            top[0] <= self.len(),
            top[1] <= self.len(),
            top[2] <= self.len(),
    {
        let n: usize = self.parent.len();
        let mut first: u32 = 0;
        let mut second: u32 = 0;
        let mut third: u32 = 0;
        let ghost mut g0: int = -1;
        let ghost mut g1: int = -1;
        let ghost mut g2: int = -1;
        let mut idx: usize = 0;
        while idx < n
            invariant
                idx <= n,
                n == self.parent@.len(),
                self.wf(),
                first >= second >= third,
                self.slot(g0, first, idx as int),
                self.slot(g1, second, idx as int),
                self.slot(g2, third, idx as int),
                g0 == -1 || (g0 != g1 && g0 != g2),
                g1 == -1 || g1 != g2,
                forall|r: int|
                    0 <= r < idx && #[trigger] self.parent@[r] == r && r != g0 && r != g1 && r != g2
                        ==> self.size@[r] <= third,
            decreases n - idx,
        {
            if self.parent[idx] as usize == idx {
                let held: u32 = self.size[idx];
                proof {
                    lemma_count_positive(self.roots@, idx as int);
                }
                if held > first {
                    third = second;
                    second = first;
                    first = held;
                    proof {
                        g2 = g1;
                        g1 = g0;
                        g0 = idx as int;
                    }
                } else if held > second {
                    third = second;
                    second = held;
                    proof {
                        g2 = g1;
                        g1 = idx as int;
                    }
                } else if held > third {
                    third = held;
                    proof {
                        g2 = idx as int;
                    }
                }
            }
            idx += 1;
        }
        proof {
            let sizes = (first as nat, second as nat, third as nat);
            assert forall|w: int|
                0 <= w < self.len() && (g0 == -1 || !self.same_set(g0, w)) && (g1 == -1
                    || !self.same_set(g1, w)) && (g2 == -1 || !self.same_set(g2, w))
                implies #[trigger] self.set_size(w) <= sizes.2 by {
                let r = self.roots@[w];
                assert(self.parent@[r] == r);
            }
            if g0 != -1 {
                lemma_count_bound(self.roots@, g0);
            }
            if g1 != -1 {
                lemma_count_bound(self.roots@, g1);
            }
            if g2 != -1 {
                lemma_count_bound(self.roots@, g2);
            }
            assert(self.picks_top(sizes, g0, g1, g2));
        }
        [first, second, third]
    }

    /// The top `g` holds `size` and is below `upto`, or `g` is -1 and
    /// `size` is zero.
    spec fn slot(&self, g: int, size: u32, upto: int) -> bool {
        if g == -1 {
            size == 0
        } else {
            0 <= g < upto && self.parent@[g] == g && self.size@[g] == size
        }
    }

    /// The top that is hung under the other when the sets of `a` and `b`
    /// are merged.
    pub open spec fn merge_loser(&self, a: int, b: int) -> int {
        if self.set_size(a) < self.set_size(b) {
            self.root_of(a)
        } else {
            self.root_of(b)
        }
    }

    /// The top that stands for both sets after the sets of `a` and `b` are
    /// merged.
    pub open spec fn merge_winner(&self, a: int, b: int) -> int {
        if self.set_size(a) < self.set_size(b) {
            self.root_of(b)
        } else {
            self.root_of(a)
        }
    }
}

proof fn lemma_count_identity(n: int, j: int)
    requires
        0 <= n,
    ensures
        count_label(Seq::new(n as nat, |i: int| i), j) == if 0 <= j < n { 1nat } else { 0nat },
    decreases n,
{
    if n > 0 {
        lemma_count_identity(n - 1, j);
        assert(Seq::new(n as nat, |i: int| i).drop_last() =~= Seq::new((n - 1) as nat, |i: int| i));
    }
}

} // verus!
