//! Lists of numbers in rising order, and counts that do not depend on
//! the order.

use vstd::prelude::*;
use vstd::set_lib::{lemma_int_range, lemma_len_subset, set_int_range};

verus! {

/// How many items are less than `x`.
pub open spec fn count_less(s: Seq<u64>, x: int) -> int
    decreases s.len(),
{
    if s.len() == 0 {
        0
    } else {
        count_less(s.drop_last(), x) + if s.last() < x { 1int } else { 0int }
    }
}

/// How many items are `x`.
pub open spec fn count_equal(s: Seq<u64>, x: int) -> int
    decreases s.len(),
{
    if s.len() == 0 {
        0
    } else {
        count_equal(s.drop_last(), x) + if s.last() == x { 1int } else { 0int }
    }
}

/// No item is less than the one before it.
pub open spec fn is_sorted(s: Seq<u64>) -> bool {
    forall|i: int, j: int| 0 <= i <= j < s.len() ==> s[i] <= s[j]
}

/// Some pair of the list, the first with the second, the third with the
/// fourth and so on, has `x` between its two items or at one of them.
pub open spec fn in_pairs(s: Seq<u64>, x: int) -> bool {
    exists|k: int| 0 <= k && 2 * k + 1 < s.len() && #[trigger] s[2 * k] <= x <= s[2 * k + 1]
}

pub proof fn lemma_counts_bounds(s: Seq<u64>, x: int)
    ensures
        0 <= count_less(s, x) <= s.len(),
        0 <= count_equal(s, x),
        count_less(s, x) + count_equal(s, x) <= s.len(),
    decreases s.len(),
{
    if s.len() > 0 {
        lemma_counts_bounds(s.drop_last(), x);
    }
}

/// What putting an item into a list does to the counts.
pub proof fn lemma_counts_insert(s: Seq<u64>, at: int, v: u64, x: int)
    requires
        0 <= at <= s.len(),
    ensures
        count_less(s.insert(at, v), x) == count_less(s, x) + if v < x { 1int } else { 0int },
        count_equal(s.insert(at, v), x) == count_equal(s, x) + if v == x { 1int } else { 0int },
    decreases s.len() - at,
{
    let t = s.insert(at, v);
    if at == s.len() {
        assert(t.drop_last() =~= s);
    } else {
        lemma_counts_insert(s.drop_last(), at, v, x);
        assert(t.drop_last() =~= s.drop_last().insert(at, v));
        assert(t.last() == s.last());
    }
}

/// In a sorted list the items less than `x` come first.
pub proof fn lemma_sorted_less(s: Seq<u64>, x: int, i: int)
    requires
        is_sorted(s),
        0 <= i < s.len(),
    ensures
        s[i] < x <==> i < count_less(s, x),
    decreases s.len(),
{
    let shorter = s.drop_last();
    lemma_counts_bounds(shorter, x);
    if i < s.len() - 1 {
        assert(shorter[i] == s[i]);
        lemma_sorted_less(shorter, x, i);
        if s.last() < x {
        } else {
        }
    } else {
        if s.len() > 1 {
            lemma_sorted_less(shorter, x, s.len() - 2);
            assert(shorter[s.len() - 2] == s[s.len() - 2]);
            assert(s[s.len() - 2] <= s[s.len() - 1]);
        }
        if s.last() < x {
            lemma_all_less(shorter, x);
        }
    }
}

proof fn lemma_all_less(s: Seq<u64>, x: int)
    requires
        forall|i: int| 0 <= i < s.len() ==> s[i] < x,
    ensures
        count_less(s, x) == s.len(),
    decreases s.len(),
{
    if s.len() > 0 {
        lemma_all_less(s.drop_last(), x);
    }
}

/// An item that the list holds is counted.
pub proof fn lemma_count_equal_positive(s: Seq<u64>, i: int)
    requires
        0 <= i < s.len(),
    ensures
        count_equal(s, s[i] as int) >= 1,
    decreases s.len(),
{
    lemma_counts_bounds(s.drop_last(), s[i] as int);
    if i < s.len() - 1 {
        lemma_count_equal_positive(s.drop_last(), i);
    }
}

/// An item that is counted is in the list.
pub proof fn lemma_count_equal_witness(s: Seq<u64>, x: int) -> (i: int)
    requires
        count_equal(s, x) >= 1,
    ensures
        0 <= i < s.len(),
        s[i] == x,
    decreases s.len(),
{
    if s.last() == x {
        s.len() - 1
    } else {
        lemma_count_equal_witness(s.drop_last(), x)
    }
}

/// In a sorted list of even length, a number lies in one of the pairs
/// exactly if it is an item of the list or an odd number of items are
/// less than it.
pub proof fn lemma_pairs(s: Seq<u64>, x: int)
    requires
        is_sorted(s),
        s.len() % 2 == 0,
    ensures
        in_pairs(s, x) <==> (count_equal(s, x) >= 1 || count_less(s, x) % 2 == 1),
{
    let less = count_less(s, x);
    lemma_counts_bounds(s, x);
    if in_pairs(s, x) {
        let k = choose|k: int| 0 <= k && 2 * k + 1 < s.len() && #[trigger] s[2 * k] <= x <= s[2 * k + 1];
        lemma_sorted_less(s, x, 2 * k);
        lemma_sorted_less(s, x, 2 * k + 1);
        if less % 2 == 0 {
            lemma_count_equal_positive(s, 2 * k);
        }
    }
    if less % 2 == 1 {
        let k = (less - 1) / 2;
        lemma_sorted_less(s, x, less - 1);
        lemma_sorted_less(s, x, less);
        assert(s[2 * k] <= x <= s[2 * k + 1]);
    } else if count_equal(s, x) >= 1 {
        let i = lemma_count_equal_witness(s, x);
        lemma_sorted_less(s, x, i);
        lemma_sorted_less(s, x, less);
        assert(s[less] <= s[i]);
        let k = less / 2;
        assert(s[2 * k] <= x <= s[2 * k + 1]) by {
            assert(s[less] <= s[less + 1]);
        }
    }
}

/// Sorts a list by putting each item in its place among those before
/// it. The counts of the list stay what they were.
pub fn sort_values(values: &Vec<u64>) -> (sorted: Vec<u64>)
    ensures
        is_sorted(sorted@),
        sorted.len() == values.len(),
        forall|x: int| count_less(sorted@, x) == count_less(values@, x),
        forall|x: int| count_equal(sorted@, x) == count_equal(values@, x),
{
    let mut sorted: Vec<u64> = Vec::new();
    let mut i: usize = 0;
    while i < values.len()
        invariant
            i <= values.len(),
            sorted.len() == i,
            is_sorted(sorted@),
            forall|x: int| count_less(sorted@, x) == count_less(values@.take(i as int), x),
            forall|x: int| count_equal(sorted@, x) == count_equal(values@.take(i as int), x),
        decreases values.len() - i,
    {
        let v = values[i];
        let mut at: usize = sorted.len();
        while at > 0 && sorted[at - 1] > v
            invariant
                at <= sorted.len(),
                forall|j: int| at <= j < sorted.len() ==> sorted[j] > v,
            decreases at,
        {
            at -= 1;
        }
        let ghost before = sorted@;
        sorted.insert(at, v);
        proof {
            assert(sorted@ == before.insert(at as int, v));
            assert(values@.take(i + 1).drop_last() =~= values@.take(i as int));
            assert forall|x: int| count_less(sorted@, x) == count_less(
                values@.take(i + 1),
                x,
            ) by {
                lemma_counts_insert(before, at as int, v, x);
            }
            assert forall|x: int| count_equal(sorted@, x) == count_equal(
                values@.take(i + 1),
                x,
            ) by {
                lemma_counts_insert(before, at as int, v, x);
            }
            assert forall|a: int, b: int| 0 <= a <= b < sorted.len() implies sorted[a]
                <= sorted[b] by {
                let pa = if a < at { a } else { a - 1 };
                let pb = if b < at { b } else { b - 1 };
                if a != at && b != at {
                    assert(before[pa] <= before[pb]);
                }
            }
        }
        i += 1;
    }
    proof {
        assert(values@.take(values.len() as int) =~= values@);
    }
    sorted
}

/// A list of different numbers below `n` that lacks one of them holds
/// fewer than `n` numbers.
pub proof fn lemma_all_present(list: Seq<int>, n: int, v: int)
    requires
        list.no_duplicates(),
        forall|i: int| 0 <= i < list.len() ==> 0 <= #[trigger] list[i] < n,
        0 <= v < n,
        !list.contains(v),
    ensures
        list.len() < n,
{
    let full = set_int_range(0, n);
    lemma_int_range(0, n);
    list.unique_seq_to_set();
    let rest = full.remove(v);
    assert(list.to_set().subset_of(rest)) by {
        assert forall|x: int| list.to_set().contains(x) implies rest.contains(x) by {
            let i = choose|i: int| 0 <= i < list.len() && list[i] == x;
            assert(0 <= list[i] < n);
        }
    }
    lemma_len_subset(list.to_set(), rest);
}

} // verus!
