//! Ranges of numbers, both ends included, and what they cover together.

use vstd::prelude::*;
use vstd::set_lib::{lemma_int_range, lemma_set_disjoint_lens, set_int_range};

verus! {

/// Each range starts no later than it ends.
pub open spec fn all_valid(ranges: Seq<(u64, u64)>) -> bool {
    forall|i: int| 0 <= i < ranges.len() ==> (#[trigger] ranges[i]).0 <= ranges[i].1
}

/// Some range holds `x`.
pub open spec fn covered(ranges: Seq<(u64, u64)>, x: int) -> bool {
    exists|i: int| 0 <= i < ranges.len() && (#[trigger] ranges[i]).0 <= x <= ranges[i].1
}

/// Every number that some range holds.
pub open spec fn cover(ranges: Seq<(u64, u64)>) -> Set<int> {
    Set::new(|x: int| covered(ranges, x))
}

/// The ranges are in rising order, and between each and the next at
/// least one number is left out.
pub open spec fn separated(ranges: Seq<(u64, u64)>) -> bool {
    &&& all_valid(ranges)
    &&& forall|i: int, j: int|
        0 <= i < j < ranges.len() ==> (#[trigger] ranges[i]).1 + 1 < (#[trigger] ranges[j]).0
}

/// The ranges are in the order of their starts.
pub open spec fn sorted_by_start(ranges: Seq<(u64, u64)>) -> bool {
    forall|i: int, j: int|
        0 <= i <= j < ranges.len() ==> (#[trigger] ranges[i]).0 <= (#[trigger] ranges[j]).0
}

/// How many numbers the first `k` ranges hold, each range counted for
/// itself.
pub open spec fn span_total(ranges: Seq<(u64, u64)>, k: int) -> int
    decreases k,
{
    if k <= 0 {
        0
    } else {
        span_total(ranges, k - 1) + (ranges[k - 1].1 - ranges[k - 1].0 + 1)
    }
}

/// Sorts the ranges by their starts with `sort_unstable_by_key` of the
/// standard library: the same ranges come back, each as often as before,
/// in the order of their starts.
#[verifier::external_body]
fn sort_by_start(ranges: &mut Vec<(u64, u64)>)
    ensures
        final(ranges)@.to_multiset() == old(ranges)@.to_multiset(),
        sorted_by_start(final(ranges)@),
{
    ranges.sort_unstable_by_key(|r| r.0);
}

/// Two lists that hold the same ranges cover the same numbers.
proof fn lemma_same_cover(a: Seq<(u64, u64)>, b: Seq<(u64, u64)>)
    requires
        a.to_multiset() == b.to_multiset(),
    ensures
        forall|x: int| covered(a, x) <==> covered(b, x),
        all_valid(a) ==> all_valid(b),
        a.len() == b.len(),
{
    a.to_multiset_ensures();
    b.to_multiset_ensures();
    assert forall|x: int| covered(a, x) implies covered(b, x) by {
        let i = choose|i: int| 0 <= i < a.len() && (#[trigger] a[i]).0 <= x <= a[i].1;
        assert(a.contains(a[i]));
        assert(a.to_multiset().count(a[i]) > 0);
        assert(b.to_multiset().count(a[i]) > 0);
        assert(b.contains(a[i]));
        let j = choose|j: int| 0 <= j < b.len() && b[j] == a[i];
        assert(b[j].0 <= x <= b[j].1);
    }
    assert forall|x: int| covered(b, x) implies covered(a, x) by {
        let i = choose|i: int| 0 <= i < b.len() && (#[trigger] b[i]).0 <= x <= b[i].1;
        assert(b.contains(b[i]));
        assert(b.to_multiset().count(b[i]) > 0);
        assert(a.to_multiset().count(b[i]) > 0);
        assert(a.contains(b[i]));
        let j = choose|j: int| 0 <= j < a.len() && a[j] == b[i];
        assert(a[j].0 <= x <= a[j].1);
    }
    if all_valid(a) {
        assert forall|i: int| 0 <= i < b.len() implies (#[trigger] b[i]).0 <= b[i].1 by {
            assert(b.contains(b[i]));
            assert(b.to_multiset().count(b[i]) > 0);
            assert(a.to_multiset().count(b[i]) > 0);
            assert(a.contains(b[i]));
            let j = choose|j: int| 0 <= j < a.len() && a[j] == b[i];
            assert(a[j].0 <= a[j].1);
        }
    }
}

/// Joins ranges that overlap or touch. What comes back covers the same
/// numbers with ranges in rising order that neither overlap nor touch.
pub fn merge_ranges(ranges: Vec<(u64, u64)>) -> (merged: Vec<(u64, u64)>)
    requires
        all_valid(ranges@),
    ensures
        separated(merged@),
        forall|x: int| covered(merged@, x) <==> covered(ranges@, x),
        merged.len() <= ranges.len(),
        ranges.len() > 0 ==> merged.len() > 0,
{
    let mut sorted = ranges;
    if sorted.len() == 0 {
        return sorted;
    }
    sort_by_start(&mut sorted);
    proof {
        lemma_same_cover(ranges@, sorted@);
    }
    let n: usize = sorted.len();
    let mut merged: Vec<(u64, u64)> = Vec::new();
    let mut current: (u64, u64) = sorted[0];
    let mut k: usize = 1;
    proof {
        assert forall|x: int| covered(merged@.push(current), x) <==> covered(
            sorted@.take(1),
            x,
        ) by {
            if covered(merged@.push(current), x) {
                assert(sorted@.take(1)[0].0 <= x <= sorted@.take(1)[0].1);
            }
            if covered(sorted@.take(1), x) {
                assert(merged@.push(current)[0].0 <= x <= merged@.push(current)[0].1);
            }
        }
    }
    while k < n
        invariant
            1 <= k <= n,
            n == sorted.len(),
            all_valid(sorted@),
            sorted_by_start(sorted@),
            current.0 <= current.1,
            merged.len() < k,
            separated(merged@),
            forall|i: int| 0 <= i < merged.len() ==> (#[trigger] merged[i]).1 + 1 < current.0,
            forall|j: int| k <= j < n ==> current.0 <= (#[trigger] sorted[j]).0,
            forall|x: int| covered(merged@.push(current), x) <==> covered(sorted@.take(k as int), x),
        decreases n - k,
    {
        let next = sorted[k];
        let ghost before = merged@.push(current);
        let ghost seen = sorted@.take(k as int);
        let ghost kept = current;
        if next.0 == 0 || next.0 - 1 <= current.1 {
            if next.1 > current.1 {
                current = (current.0, next.1);
            }
        } else {
            merged.push(current);
            current = next;
        }
        proof {
            let after = merged@.push(current);
            let more = sorted@.take(k + 1);
            assert(more[k as int] == next);
            assert forall|x: int| covered(after, x) <==> covered(more, x) by {
                if covered(after, x) {
                    let i = choose|i: int| 0 <= i < after.len() && (#[trigger] after[i]).0 <= x
                        <= after[i].1;
                    if i < before.len() - 1 {
                        assert(before[i].0 <= x <= before[i].1);
                        assert(covered(before, x));
                    } else if kept.0 <= x <= kept.1 {
                        assert(before[before.len() - 1].0 <= x <= before[before.len() - 1].1);
                        assert(covered(before, x));
                    } else {
                        assert(more[k as int].0 <= x <= more[k as int].1);
                    }
                    if covered(before, x) {
                        let j = choose|j: int| 0 <= j < seen.len() && (#[trigger] seen[j]).0 <= x
                            <= seen[j].1;
                        assert(more[j].0 <= x <= more[j].1);
                    }
                }
                if covered(more, x) {
                    let j = choose|j: int| 0 <= j < more.len() && (#[trigger] more[j]).0 <= x
                        <= more[j].1;
                    if j < k {
                        assert(seen[j].0 <= x <= seen[j].1);
                        assert(covered(before, x));
                        let i = choose|i: int| 0 <= i < before.len() && (#[trigger] before[i]).0
                            <= x <= before[i].1;
                        if i < before.len() - 1 {
                            assert(after[i].0 <= x <= after[i].1);
                        } else if after.len() == before.len() {
                            assert(after[i].0 <= x <= after[i].1);
                        } else {
                            assert(after[i].0 <= x <= after[i].1);
                        }
                    } else {
                        assert(after[after.len() - 1].0 <= x <= after[after.len() - 1].1);
                    }
                }
            }
        }
        k += 1;
    }
    proof {
        assert(sorted@.take(n as int) =~= sorted@);
    }
    merged.push(current);
    merged
}

/// Ranges that are separated hold as many numbers together as each for
/// itself.
pub proof fn lemma_cover_size(ranges: Seq<(u64, u64)>, k: int)
    requires
        separated(ranges),
        0 <= k <= ranges.len(),
    ensures
        cover(ranges.take(k)).finite(),
        cover(ranges.take(k)).len() == span_total(ranges, k),
        span_total(ranges, k) <= k * 0x1_0000_0000_0000_0000,
        forall|x: int| #[trigger] covered(ranges.take(k), x) && k < ranges.len() ==> x + 1 < ranges[k].0,
    decreases k,
{
    if k == 0 {
        assert(cover(ranges.take(0)) =~= Set::<int>::empty());
    } else {
        lemma_cover_size(ranges, k - 1);
        let earlier = ranges.take(k - 1);
        let upto = ranges.take(k);
        let last = ranges[k - 1];
        let block = set_int_range(last.0 as int, last.1 + 1);
        lemma_int_range(last.0 as int, last.1 + 1);
        assert forall|x: int| cover(upto).contains(x) <==> cover(earlier).union(block).contains(
            x,
        ) by {
            if covered(upto, x) {
                let i = choose|i: int| 0 <= i < upto.len() && (#[trigger] upto[i]).0 <= x
                    <= upto[i].1;
                if i < k - 1 {
                    assert(earlier[i].0 <= x <= earlier[i].1);
                }
            }
            if covered(earlier, x) {
                let i = choose|i: int| 0 <= i < earlier.len() && (#[trigger] earlier[i]).0 <= x
                    <= earlier[i].1;
                assert(upto[i].0 <= x <= upto[i].1);
            }
            if block.contains(x) {
                assert(upto[k - 1].0 <= x <= upto[k - 1].1);
            }
        }
        assert(cover(upto) =~= cover(earlier).union(block));
        assert(cover(earlier).disjoint(block)) by {
            assert forall|x: int| !(cover(earlier).contains(x) && block.contains(x)) by {
                if covered(earlier, x) {
                    assert(x + 1 < ranges[k - 1].0);
                }
            }
        }
        lemma_set_disjoint_lens(cover(earlier), block);
        assert forall|x: int| #[trigger] covered(upto, x) && k < ranges.len() implies x + 1
            < ranges[k].0 by {
            let i = choose|i: int| 0 <= i < upto.len() && (#[trigger] upto[i]).0 <= x <= upto[i].1;
            assert(upto[i] == ranges[i]);
            assert(ranges[i].1 + 1 < ranges[k].0);
        }
    }
}

/// How many numbers separated ranges hold.
pub fn count_covered(merged: &Vec<(u64, u64)>) -> (total: u128)
    requires
        separated(merged@),
    ensures
        cover(merged@).finite(),
        total == cover(merged@).len(),
{
    let mut total: u128 = 0;
    let mut k: usize = 0;
    while k < merged.len()
        invariant
            k <= merged.len(),
            separated(merged@),
            total == span_total(merged@, k as int),
        decreases merged.len() - k,
    {
        proof {
            lemma_cover_size(merged@, k as int + 1);
        }
        let range = merged[k];
        total = total + ((range.1 - range.0) as u128 + 1);
        k += 1;
    }
    proof {
        lemma_cover_size(merged@, merged.len() as int);
        assert(merged@.take(merged.len() as int) =~= merged@);
    }
    total
}

/// Whether one of the separated ranges holds `id`. The search halves the
/// list until it has the last range that starts at or before `id`.
pub fn is_fresh(id: u64, merged: &Vec<(u64, u64)>) -> (r: bool)
    requires
        separated(merged@),
    ensures
        r == covered(merged@, id as int),
{
    let mut lo: usize = 0;
    let mut hi: usize = merged.len();
    while lo < hi
        invariant
            lo <= hi <= merged.len(),
            separated(merged@),
            forall|i: int| 0 <= i < lo ==> (#[trigger] merged[i]).0 <= id,
            forall|i: int| hi <= i < merged.len() ==> (#[trigger] merged[i]).0 > id,
        decreases hi - lo,
    {
        let mid: usize = lo + (hi - lo) / 2;
        if merged[mid].0 <= id {
            proof {
                assert forall|i: int| 0 <= i < mid + 1 implies (#[trigger] merged[i]).0 <= id by {
                    if i < mid {
                        assert(merged[i].1 + 1 < merged[mid as int].0);
                    }
                }
            }
            lo = mid + 1;
        } else {
            proof {
                assert forall|i: int| mid <= i < merged.len() implies (#[trigger] merged[i]).0
                    > id by {
                    if mid < i {
                        assert(merged[mid as int].1 + 1 < merged[i].0);
                    }
                }
            }
            hi = mid;
        }
    }
    if lo == 0 {
        return false;
    }
    let found = merged[lo - 1].1 >= id;
    proof {
        if covered(merged@, id as int) {
            let i = choose|i: int| 0 <= i < merged.len() && (#[trigger] merged[i]).0 <= id
                <= merged[i].1;
            if i < lo - 1 {
                assert(merged[i].1 + 1 < merged[lo - 1].0);
            }
        }
    }
    found
}

/// Whether the separated ranges hold every number from `lo` to `hi`: one
/// of them must hold all, since between two of them a number is left
/// out.
pub fn covers_interval(merged: &Vec<(u64, u64)>, lo: u64, hi: u64) -> (r: bool)
    requires
        separated(merged@),
        lo <= hi,
    ensures
        r == forall|x: int| lo <= x <= hi ==> covered(merged@, x),
{
    let mut low: usize = 0;
    let mut high: usize = merged.len();
    while low < high
        invariant
            low <= high <= merged.len(),
            separated(merged@),
            forall|i: int| 0 <= i < low ==> (#[trigger] merged[i]).0 <= lo,
            forall|i: int| high <= i < merged.len() ==> (#[trigger] merged[i]).0 > lo,
        decreases high - low,
    {
        let mid: usize = low + (high - low) / 2;
        if merged[mid].0 <= lo {
            proof {
                assert forall|i: int| 0 <= i < mid + 1 implies (#[trigger] merged[i]).0 <= lo by {
                    if i < mid {
                        assert(merged[i].1 + 1 < merged[mid as int].0);
                    }
                }
            }
            low = mid + 1;
        } else {
            proof {
                assert forall|i: int| mid <= i < merged.len() implies (#[trigger] merged[i]).0
                    > lo by {
                    if mid < i {
                        assert(merged[mid as int].1 + 1 < merged[i].0);
                    }
                }
            }
            high = mid;
        }
    }
    if low == 0 {
        proof {
            if covered(merged@, lo as int) {
                let i = choose|i: int| 0 <= i < merged.len() && (#[trigger] merged[i]).0 <= lo
                    <= merged[i].1;
            }
        }
        return false;
    }
    let found = merged[low - 1];
    let inside = found.1 >= hi;
    proof {
        if inside {
            assert forall|x: int| lo <= x <= hi implies covered(merged@, x) by {
                assert(merged[low - 1].0 <= x <= merged[low - 1].1);
            }
        } else {
            let x = if found.1 >= lo { found.1 + 1 } else { lo as int };
            if covered(merged@, x) {
                let i = choose|i: int| 0 <= i < merged.len() && (#[trigger] merged[i]).0 <= x
                    <= merged[i].1;
                if i < low - 1 {
                    assert(merged[i].1 + 1 < merged[low - 1].0);
                } else if i > low - 1 {
                    assert(merged[low - 1].1 + 1 < merged[i].0);
                    assert(merged[i].0 > lo);
                }
            }
        }
    }
    inside
}

} // verus!
