//! The closest pairs seen so far, kept in a heap of bounded size.

use vstd::prelude::*;
use vstd::set_lib::{lemma_len_subset, lemma_subset_equality};

verus! {

/// Two points, named by their positions in the list of points, and the
/// square of the distance between them.
#[derive(Copy, Clone, Debug, PartialEq, Eq, Structural)]
pub struct Edge {
    pub dist: u64,
    pub a: u16,
    pub b: u16,
}

impl Edge {
    /// The order of edges: by distance, then by the first point, then by the
    /// second.
    pub open spec fn before(self, other: Edge) -> bool {
        self.dist < other.dist || (self.dist == other.dist && (self.a < other.a || (self.a
            == other.a && self.b < other.b)))
    }

    /// Whether this edge comes before the other in the order of edges.
    pub fn precedes(&self, other: &Edge) -> (r: bool)
        ensures
            r == self.before(*other),
    {
        self.dist < other.dist || (self.dist == other.dist && (self.a < other.a || (self.a
            == other.a && self.b < other.b)))
    }
}

/// `chosen` holds the first `k` edges of `all` in the order of edges, or
/// all of them where there are fewer.
pub open spec fn is_smallest(chosen: Set<Edge>, all: Set<Edge>, k: nat) -> bool {
    &&& all.finite()
    &&& chosen.subset_of(all)
    &&& chosen.len() == if k <= all.len() { k } else { all.len() }
    &&& forall|c: Edge, o: Edge|
        chosen.contains(c) && all.contains(o) && !chosen.contains(o) ==> c.before(o)
}

/// No item comes after the item above it in the tree that the positions
/// form.
pub open spec fn heap_ordered(items: Seq<Edge>) -> bool {
    forall|c: int| 0 < c < items.len() ==> !items[(c - 1) / 2].before(#[trigger] items[c])
}

/// The heap order with one item left out, either as the lower or as the
/// upper end of a link.
pub open spec fn ordered_but(items: Seq<Edge>, child: int, parent: int) -> bool {
    forall|c: int|
        0 < c < items.len() && c != child && (c - 1) / 2 != parent ==> !items[(c - 1)
            / 2].before(#[trigger] items[c])
}

/// The items below `at` do not come after the item above `at`.
pub open spec fn below_bounded(items: Seq<Edge>, at: int) -> bool {
    forall|c: int|
        0 < c < items.len() && (c - 1) / 2 == at && at > 0 ==> !items[(at - 1) / 2].before(
            #[trigger] items[c],
        )
}

proof fn lemma_root_is_last(items: Seq<Edge>, i: int)
    requires
        heap_ordered(items),
        0 <= i < items.len(),
    ensures
        !items[0].before(items[i]),
    decreases i,
{
    if i > 0 {
        lemma_root_is_last(items, (i - 1) / 2);
        assert(!items[(i - 1) / 2].before(items[i]));
    }
}

proof fn lemma_swapped(s: Seq<Edge>, i: int, j: int)
    requires
        0 <= i < s.len(),
        0 <= j < s.len(),
        s.no_duplicates(),
    ensures
        s.update(i, s[j]).update(j, s[i]).no_duplicates(),
        s.update(i, s[j]).update(j, s[i]).to_set() == s.to_set(),
{
    let t = s.update(i, s[j]).update(j, s[i]);
    assert forall|e: Edge| t.to_set().contains(e) == s.to_set().contains(e) by {
        if t.contains(e) {
            let k = choose|k: int| 0 <= k < t.len() && t[k] == e;
            if k == i {
                assert(s[j] == e);
            } else if k == j {
                assert(s[i] == e);
            } else {
                assert(s[k] == e);
            }
        }
        if s.contains(e) {
            let k = choose|k: int| 0 <= k < s.len() && s[k] == e;
            if k == i {
                assert(t[j] == e);
            } else if k == j {
                assert(t[i] == e);
            } else {
                assert(t[k] == e);
            }
        }
    }
    assert(t.to_set() =~= s.to_set());
}

proof fn lemma_replaced(s: Seq<Edge>, i: int, e: Edge)
    requires
        0 <= i < s.len(),
        s.no_duplicates(),
        !s.contains(e),
    ensures
        s.update(i, e).no_duplicates(),
        s.update(i, e).to_set() == s.to_set().remove(s[i]).insert(e),
{
    let t = s.update(i, e);
    assert forall|x: Edge| t.to_set().contains(x) == s.to_set().remove(s[i]).insert(
        e,
    ).contains(x) by {
        if t.contains(x) {
            let k = choose|k: int| 0 <= k < t.len() && t[k] == x;
            if k != i {
                assert(s[k] == x);
            }
        }
        if s.contains(x) && x != s[i] {
            let k = choose|k: int| 0 <= k < s.len() && s[k] == x;
            assert(t[k] == x);
        }
        if x == e {
            assert(t[i] == x);
        }
    }
    assert(t.to_set() =~= s.to_set().remove(s[i]).insert(e));
}

proof fn lemma_pushed(s: Seq<Edge>, e: Edge)
    requires
        s.no_duplicates(),
        !s.contains(e),
    ensures
        s.push(e).no_duplicates(),
        s.push(e).to_set() == s.to_set().insert(e),
{
    let t = s.push(e);
    assert forall|x: Edge| t.to_set().contains(x) == s.to_set().insert(e).contains(x) by {
        if t.contains(x) {
            let k = choose|k: int| 0 <= k < t.len() && t[k] == x;
            if k < s.len() {
                assert(s[k] == x);
            }
        }
        if s.contains(x) {
            let k = choose|k: int| 0 <= k < s.len() && s[k] == x;
            assert(t[k] == x);
        }
        if x == e {
            assert(t[s.len() as int] == x);
        }
    }
    assert(t.to_set() =~= s.to_set().insert(e));
}

fn swap_items(items: &mut Vec<Edge>, i: usize, j: usize)
    requires
        i < old(items).len(),
        j < old(items).len(),
        old(items)@.no_duplicates(),
    ensures
        final(items)@ == old(items)@.update(i as int, old(items)@[j as int]).update(
            j as int,
            old(items)@[i as int],
        ),
        final(items)@.no_duplicates(),
        final(items)@.to_set() == old(items)@.to_set(),
{
    proof {
        lemma_swapped(items@, i as int, j as int);
    }
    let at_i = items[i];
    let at_j = items[j];
    items.set(i, at_j);
    items.set(j, at_i);
}

/// Moves the item at `start` up until the item above it does not come
/// before it.
fn sift_up(items: &mut Vec<Edge>, start: usize)
    requires
        start < old(items).len(),
        old(items)@.no_duplicates(),
        ordered_but(old(items)@, start as int, -1),
        below_bounded(old(items)@, start as int),
    ensures
        final(items)@.len() == old(items)@.len(),
        final(items)@.no_duplicates(),
        final(items)@.to_set() == old(items)@.to_set(),
        heap_ordered(final(items)@),
{
    let mut i: usize = start;
    while i > 0 && items[(i - 1) / 2].precedes(&items[i])
        invariant
            i < items.len(),
            items@.len() == old(items)@.len(),
            items@.no_duplicates(),
            items@.to_set() == old(items)@.to_set(),
            ordered_but(items@, i as int, -1),
            below_bounded(items@, i as int),
        decreases i,
    {
        let above: usize = (i - 1) / 2;
        let ghost before = items@;
        swap_items(items, i, above);
        proof {
            assert forall|c: int| 0 < c < items@.len() && c != above implies !items@[(c - 1)
                / 2].before(#[trigger] items@[c]) by {
                if c == i {
                } else if (c - 1) / 2 == i {
                    assert(!before[(i - 1) / 2].before(before[c]));
                } else if (c - 1) / 2 == above {
                    assert(!before[(c - 1) / 2].before(before[c]));
                } else {
                    assert(!before[(c - 1) / 2].before(before[c]));
                }
            }
            assert forall|c: int|
                0 < c < items@.len() && (c - 1) / 2 == above && above > 0 implies !items@[(above
                - 1) / 2].before(#[trigger] items@[c]) by {
                assert(!before[(above - 1) / 2].before(before[above as int]));
                if c != i {
                    assert(!before[(c - 1) / 2].before(before[c]));
                }
            }
        }
        i = above;
    }
}

/// Moves the item at the top down until neither item below it comes after
/// it.
fn sift_down(items: &mut Vec<Edge>)
    requires
        old(items).len() > 0,
        old(items)@.no_duplicates(),
        ordered_but(old(items)@, -1, 0),
    ensures
        final(items)@.len() == old(items)@.len(),
        final(items)@.no_duplicates(),
        final(items)@.to_set() == old(items)@.to_set(),
        heap_ordered(final(items)@),
{
    let len: usize = items.len();
    let mut i: usize = 0;
    loop
        invariant
            i < len,
            len == items.len(),
            items@.len() == old(items)@.len(),
            items@.no_duplicates(),
            items@.to_set() == old(items)@.to_set(),
            ordered_but(items@, -1, i as int),
            below_bounded(items@, i as int),
        ensures
            len == items.len(),
            items@.len() == old(items)@.len(),
            items@.no_duplicates(),
            items@.to_set() == old(items)@.to_set(),
            heap_ordered(items@),
        decreases len - i,
    {
        if i >= len / 2 {
            break;
        }
        let left: usize = 2 * i + 1;
        let right: usize = left + 1;
        let mut top: usize = left;
        if right < len && items[left].precedes(&items[right]) {
            top = right;
        }
        if !items[i].precedes(&items[top]) {
            proof {
                assert forall|c: int| 0 < c < items@.len() implies !items@[(c - 1) / 2].before(
                    #[trigger] items@[c],
                ) by {
                    if (c - 1) / 2 == i {
                        assert(c == left || c == right);
                    }
                }
            }
            break;
        }
        let ghost before = items@;
        swap_items(items, i, top);
        proof {
            assert forall|c: int|
                0 < c < items@.len() && (c - 1) / 2 != top implies !items@[(c - 1) / 2].before(
                #[trigger] items@[c],
            ) by {
                if (c - 1) / 2 == i {
                    assert(c == left || c == right);
                } else if c == i {
                    assert(!before[(i - 1) / 2].before(before[top as int]));
                } else {
                    assert(!before[(c - 1) / 2].before(before[c]));
                }
            }
            assert forall|c: int|
                0 < c < items@.len() && (c - 1) / 2 == top && top > 0 implies !items@[(top - 1)
                / 2].before(#[trigger] items@[c]) by {
                assert(!before[(c - 1) / 2].before(before[c]));
            }
        }
        i = top;
    }
}

/// A heap that keeps the first `limit` edges, in the order of edges, of
/// those offered to it. The last of them is at the top.
pub struct BoundedHeap {
    items: Vec<Edge>,
    limit: usize,
    seen: Ghost<Set<Edge>>,
}

impl BoundedHeap {
    /// The edges kept.
    pub closed spec fn contents(&self) -> Set<Edge> {
        self.items@.to_set()
    }

    /// Every edge offered so far.
    pub closed spec fn seen(&self) -> Set<Edge> {
        self.seen@
    }

    /// How many edges the heap keeps at most.
    pub closed spec fn limit(&self) -> nat {
        self.limit as nat
    }

    /// The kept edges are the first `limit` of those seen, and the last of
    /// them is at the top.
    pub closed spec fn wf(&self) -> bool {
        &&& self.items@.len() <= self.limit
        &&& self.items@.no_duplicates()
        &&& heap_ordered(self.items@)
        &&& is_smallest(self.items@.to_set(), self.seen@, self.limit as nat)
    }

    /// What `wf` says of the kept edges.
    pub proof fn lemma_wf(&self)
        requires
            self.wf(),
        ensures
            is_smallest(self.contents(), self.seen(), self.limit()),
            self.contents().finite(),
    {
    }

    /// A heap that has seen nothing.
    pub fn new(limit: usize) -> (r: BoundedHeap)
        ensures
            r.wf(),
            r.limit() == limit,
            r.seen() == Set::<Edge>::empty(),
    {
        let r = BoundedHeap { items: Vec::new(), limit, seen: Ghost(Set::empty()) };
        proof {
            assert(r.items@.to_set() =~= Set::<Edge>::empty());
        }
        r
    }

    /// How many edges are kept.
    pub fn len(&self) -> (r: usize)
        requires
            self.wf(),
        ensures
            r == self.contents().len(),
            r == if self.limit() <= self.seen().len() { self.limit() } else { self.seen().len() },
    {
        proof {
            self.items@.unique_seq_to_set();
        }
        self.items.len()
    }

    /// The last of the kept edges, if any is kept.
    pub fn peek(&self) -> (r: Option<Edge>)
        requires
            self.wf(),
        ensures
            r is None <==> self.contents().len() == 0,
            r is Some ==> self.contents().contains(r.unwrap()) && forall|e: Edge|
                self.contents().contains(e) ==> !r.unwrap().before(e),
    {
        proof {
            self.items@.unique_seq_to_set();
        }
        if self.items.len() == 0 {
            None
        } else {
            let top = self.items[0];
            proof {
                assert(self.items@.contains(top));
                assert forall|e: Edge| self.contents().contains(e) implies !top.before(e) by {
                    let k = choose|k: int| 0 <= k < self.items@.len() && self.items@[k] == e;
                    lemma_root_is_last(self.items@, k);
                }
            }
            Some(top)
        }
    }

    /// Takes note of an edge that was not offered before. It is kept if
    /// fewer than `limit` edges are, or in place of the last kept edge if it
    /// comes before that one.
    pub fn offer(&mut self, e: Edge)
        requires
            old(self).wf(),
            !old(self).seen().contains(e),
        ensures
            final(self).wf(),
            final(self).limit() == old(self).limit(),
            final(self).seen() == old(self).seen().insert(e),
    {
        let ghost seen = self.seen@;
        let ghost kept = self.items@;
        proof {
            kept.unique_seq_to_set();
            assert(!kept.contains(e));
        }
        self.seen = Ghost(seen.insert(e));
        if self.limit == 0 {
            proof {
                assert(is_smallest(kept.to_set(), self.seen@, 0));
            }
            return ;
        }
        let len: usize = self.items.len();
        if len < self.limit {
            proof {
                lemma_subset_equality(kept.to_set(), seen);
                lemma_pushed(kept, e);
            }
            self.items.push(e);
            proof {
                assert(ordered_but(self.items@, len as int, -1)) by {
                    assert forall|c: int|
                        0 < c < self.items@.len() && c != len implies !self.items@[(c - 1)
                        / 2].before(#[trigger] self.items@[c]) by {
                        assert(!kept[(c - 1) / 2].before(kept[c]));
                    }
                }
                assert(below_bounded(self.items@, len as int));
            }
            sift_up(&mut self.items, len);
            proof {
                self.items@.unique_seq_to_set();
                assert(self.items@.to_set() == seen.insert(e));
                assert(seen.insert(e).len() == seen.len() + 1);
                assert(is_smallest(self.items@.to_set(), self.seen@, self.limit as nat));
            }
        } else {
            let top = self.items[0];
            proof {
                assert(kept.contains(top));
                assert forall|c: Edge| kept.to_set().contains(c) implies !top.before(c) by {
                    let k = choose|k: int| 0 <= k < kept.len() && kept[k] == c;
                    lemma_root_is_last(kept, k);
                }
            }
            if e.precedes(&top) {
                proof {
                    lemma_replaced(kept, 0, e);
                }
                self.items.set(0, e);
                proof {
                    assert(ordered_but(self.items@, -1, 0)) by {
                        assert forall|c: int|
                            0 < c < self.items@.len() && (c - 1) / 2 != 0 implies !self.items@[(c
                            - 1) / 2].before(#[trigger] self.items@[c]) by {
                            assert(!kept[(c - 1) / 2].before(kept[c]));
                        }
                    }
                }
                sift_down(&mut self.items);
                proof {
                    self.items@.unique_seq_to_set();
                    let chosen = self.items@.to_set();
                    assert(chosen == kept.to_set().remove(top).insert(e));
                    assert(seen.insert(e).len() == seen.len() + 1);
                    assert forall|c: Edge, o: Edge|
                        chosen.contains(c) && seen.insert(e).contains(o) && !chosen.contains(
                            o,
                        ) implies c.before(o) by {
                        if o != top {
                            assert(!kept.to_set().contains(o));
                            assert(top.before(o));
                        }
                        if c != e {
                            assert(kept.to_set().contains(c));
                            assert(!top.before(c));
                        }
                    }
                    assert(is_smallest(chosen, self.seen@, self.limit as nat));
                }
            } else {
                proof {
                    assert(seen.insert(e).len() == seen.len() + 1);
                    assert forall|c: Edge, o: Edge|
                        kept.to_set().contains(c) && seen.insert(e).contains(o)
                            && !kept.to_set().contains(o) implies c.before(o) by {
                        assert(!top.before(c));
                    }
                    assert(is_smallest(kept.to_set(), self.seen@, self.limit as nat));
                }
            }
        }
    }

    /// The kept edges, each once, in no particular order.
    pub fn into_vec(self) -> (r: Vec<Edge>)
        requires
            self.wf(),
        ensures
            r@.no_duplicates(),
            r@.to_set() == self.contents(),
            r@.len() == self.contents().len(),
    {
        proof {
            self.items@.unique_seq_to_set();
        }
        self.items
    }
}

/// Of two different edges one comes before the other, and never both ways.
pub proof fn lemma_edge_order(e: Edge, f: Edge)
    ensures
        e != f ==> e.before(f) || f.before(e),
        !(e.before(f) && f.before(e)),
        !e.before(e),
{
}

proof fn lemma_smallest_within(first: Set<Edge>, second: Set<Edge>, all: Set<Edge>, k: nat)
    requires
        is_smallest(first, all, k),
        is_smallest(second, all, k),
    ensures
        first.subset_of(second),
{
    lemma_len_subset(first, all);
    lemma_len_subset(second, all);
    if !first.subset_of(second) {
        let e = choose|e: Edge| first.contains(e) && !second.contains(e);
        if second.subset_of(first.remove(e)) {
            lemma_len_subset(second, first.remove(e));
            assert(false);
        }
        let f = choose|f: Edge| second.contains(f) && !first.remove(e).contains(f);
        assert(e.before(f));
        assert(f.before(e));
    }
}

/// Only one set holds the first `k` edges of `all`: which pairs are the
/// closest is settled, also among pairs at the same distance.
pub proof fn lemma_smallest_unique(first: Set<Edge>, second: Set<Edge>, all: Set<Edge>, k: nat)
    requires
        is_smallest(first, all, k),
        is_smallest(second, all, k),
    ensures
        first == second,
{
    lemma_smallest_within(first, second, all, k);
    lemma_len_subset(first, all);
    lemma_len_subset(second, all);
    lemma_subset_equality(first, second);
}

} // verus!
