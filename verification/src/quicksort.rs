use vstd::prelude::*;

use crate::perm::{lemma_range_multiset_extends, lemma_swap_in_range_multiset, swap_items};

verus! {

/// The elements of `[lo, hi)` are in ascending order.
pub open spec fn sorted_between(s: Seq<i32>, lo: int, hi: int) -> bool {
    forall|i: int, j: int| lo <= i <= j < hi ==> s[i] <= s[j]
}

/// The whole sequence is in ascending order.
pub open spec fn sorted(s: Seq<i32>) -> bool {
    sorted_between(s, 0, s.len() as int)
}

/// If a range keeps its multiset, it keeps any upper bound on its elements.
proof fn lemma_range_keeps_upper_bound(s1: Seq<i32>, s2: Seq<i32>, lo: int, hi: int, v: i32)
    requires
        s1.len() == s2.len(),
        0 <= lo <= hi <= s1.len(),
        s2.subrange(lo, hi).to_multiset() == s1.subrange(lo, hi).to_multiset(),
        forall|k: int| lo <= k < hi ==> s1[k] <= v,
    ensures
        forall|k: int| lo <= k < hi ==> s2[k] <= v,
{
    assert forall|k: int| lo <= k < hi implies s2[k] <= v by {
        s2.subrange(lo, hi).to_multiset_ensures();
        s1.subrange(lo, hi).to_multiset_ensures();
        assert(s2.subrange(lo, hi)[k - lo] == s2[k]);
        assert(s2.subrange(lo, hi).contains(s2[k]));
        assert(s2.subrange(lo, hi).to_multiset().count(s2[k]) > 0);
        assert(s1.subrange(lo, hi).to_multiset().count(s2[k]) > 0);
        assert(s1.subrange(lo, hi).contains(s2[k]));
        let m = choose|m: int| 0 <= m < hi - lo && s1.subrange(lo, hi)[m] == s2[k];
        assert(s1[lo + m] <= v);
    }
}

/// If a range keeps its multiset, it keeps any strict lower bound as well.
proof fn lemma_range_keeps_lower_bound(s1: Seq<i32>, s2: Seq<i32>, lo: int, hi: int, v: i32)
    requires
        s1.len() == s2.len(),
        0 <= lo <= hi <= s1.len(),
        s2.subrange(lo, hi).to_multiset() == s1.subrange(lo, hi).to_multiset(),
        forall|k: int| lo <= k < hi ==> s1[k] > v,
    ensures
        forall|k: int| lo <= k < hi ==> s2[k] > v,
{
    assert forall|k: int| lo <= k < hi implies s2[k] > v by {
        s2.subrange(lo, hi).to_multiset_ensures();
        s1.subrange(lo, hi).to_multiset_ensures();
        assert(s2.subrange(lo, hi)[k - lo] == s2[k]);
        assert(s2.subrange(lo, hi).contains(s2[k]));
        assert(s2.subrange(lo, hi).to_multiset().count(s2[k]) > 0);
        assert(s1.subrange(lo, hi).to_multiset().count(s2[k]) > 0);
        assert(s1.subrange(lo, hi).contains(s2[k]));
        let m = choose|m: int| 0 <= m < hi - lo && s1.subrange(lo, hi)[m] == s2[k];
        assert(s1[lo + m] > v);
    }
}

/// Partition `[lo, hi)` around its last element: afterwards the pivot sits at
/// the returned index, nothing left of it is larger, everything right of it
/// is strictly larger, and the range holds the same elements as before.
fn partition(array: &mut Vec<i32>, lo: usize, hi: usize) -> (p: usize)
    requires
        lo < hi,
        hi <= old(array)@.len(),
    ensures
        final(array)@.len() == old(array)@.len(),
        lo <= p < hi,
        forall|k: int|
            0 <= k < final(array)@.len() && !(lo <= k < hi) ==> final(array)@[k] == old(
                array,
            )@[k],
        final(array)@.subrange(lo as int, hi as int).to_multiset() == old(array)@.subrange(
            lo as int,
            hi as int,
        ).to_multiset(),
        forall|k: int| lo <= k < p ==> final(array)@[k] <= final(array)@[p as int],
        forall|k: int| p < k < hi ==> final(array)@[k] > final(array)@[p as int],
{
    let pivot_idx = hi - 1;
    let mut i: usize = lo;
    let mut j: usize = lo;
    while j < pivot_idx
        invariant
            lo <= i <= j <= pivot_idx,
            pivot_idx == hi - 1,
            lo < hi,
            hi <= array@.len(),
            array@.len() == old(array)@.len(),
            forall|k: int|
                0 <= k < array@.len() && !(lo <= k < hi) ==> array@[k] == old(array)@[k],
            array@.subrange(lo as int, hi as int).to_multiset() == old(array)@.subrange(
                lo as int,
                hi as int,
            ).to_multiset(),
            forall|k: int| lo <= k < i ==> array@[k] <= array@[pivot_idx as int],
            forall|k: int| i <= k < j ==> array@[k] > array@[pivot_idx as int],
        decreases pivot_idx - j,
    {
        if array[j] <= array[pivot_idx] {
            let ghost s0 = array@;
            proof {
                lemma_swap_in_range_multiset(s0, lo as int, hi as int, i as int, j as int);
            }
            swap_items(array, i, j);
            i = i + 1;
        }
        j = j + 1;
    }
    let ghost s0 = array@;
    proof {
        lemma_swap_in_range_multiset(s0, lo as int, hi as int, i as int, pivot_idx as int);
    }
    swap_items(array, i, pivot_idx);
    i
}

/// Quicksort `[lo, hi)` in place; the rest of the array is untouched and the
/// range keeps its elements.
fn sort_range(array: &mut Vec<i32>, lo: usize, hi: usize)
    requires
        lo <= hi,
        hi <= old(array)@.len(),
    ensures
        final(array)@.len() == old(array)@.len(),
        forall|k: int|
            0 <= k < final(array)@.len() && !(lo <= k < hi) ==> final(array)@[k] == old(
                array,
            )@[k],
        final(array)@.subrange(lo as int, hi as int).to_multiset() == old(array)@.subrange(
            lo as int,
            hi as int,
        ).to_multiset(),
        sorted_between(final(array)@, lo as int, hi as int),
    decreases hi - lo,
{
    if hi - lo <= 1 {
        return ;
    }
    let p = partition(array, lo, hi);
    let ghost s1 = array@;
    sort_range(array, lo, p);
    let ghost s2 = array@;
    proof {
        lemma_range_keeps_upper_bound(s1, s2, lo as int, p as int, s1[p as int]);
        lemma_range_multiset_extends(s1, s2, lo as int, hi as int, lo as int, p as int);
    }
    sort_range(array, p + 1, hi);
    proof {
        let s3 = array@;
        lemma_range_keeps_lower_bound(s2, s3, p + 1, hi as int, s2[p as int]);
        lemma_range_multiset_extends(s2, s3, lo as int, hi as int, p + 1, hi as int);
        assert forall|a: int, b: int| lo <= a <= b < hi implies s3[a] <= s3[b] by {
            if b < p {
            } else if a > p {
            } else if a == p && b == p {
            } else if b == p {
                assert(s3[a] <= s3[p as int]);
            } else if a == p {
                assert(s3[b] > s3[p as int]);
            } else {
                assert(s3[a] <= s3[p as int]);
                assert(s3[b] > s3[p as int]);
            }
        }
    }
}

/// Quicksort the whole array in place: afterwards it is in ascending order
/// and holds exactly the elements it held before.
pub fn sort(array: &mut Vec<i32>)
    ensures
        final(array)@.len() == old(array)@.len(),
        sorted(final(array)@),
        final(array)@.to_multiset() == old(array)@.to_multiset(),
{
    let n = array.len();
    sort_range(array, 0, n);
    proof {
        assert(array@.subrange(0, array@.len() as int) =~= array@);
        assert(old(array)@.subrange(0, old(array)@.len() as int) =~= old(array)@);
    }
}

} // verus!
