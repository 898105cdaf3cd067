use vstd::prelude::*;
use vstd::seq_lib::group_to_multiset_ensures;
use vstd::seq_lib::lemma_multiset_commutative;

verus! {

/// What exchanging the elements at positions `a` and `b` does to a sequence.
pub open spec fn swapped<T>(s: Seq<T>, a: int, b: int) -> Seq<T> {
    s.update(a, s[b]).update(b, s[a])
}

/// Relies on `slice::swap` (reached through `Vec`'s `DerefMut`): it exchanges
/// the elements at the two indices and touches nothing else.
#[verifier::external_body]
pub fn swap_items<T>(v: &mut Vec<T>, a: usize, b: usize)
    requires
        a < old(v).len(),
        b < old(v).len(),
    ensures
        final(v)@ == swapped(old(v)@, a as int, b as int),
{
    v.swap(a, b);
}

/// Exchanging two elements of a sequence does not change its multiset.
pub broadcast proof fn lemma_swap_preserves_multiset<T>(s: Seq<T>, a: int, b: int)
    requires
        0 <= a < s.len(),
        0 <= b < s.len(),
    ensures
        (#[trigger] swapped(s, a, b).to_multiset()) == s.to_multiset(),
{
    broadcast use group_to_multiset_ensures;

    if a == b {
        assert(swapped(s, a, b) =~= s);
    } else {
        assert(s.contains(s[a]));
        assert(s.update(a, s[b])[a] == s[b]);
        assert(s.update(a, s[b]).contains(s[b]));
        assert(swapped(s, a, b).to_multiset() =~= s.to_multiset());
    }
}

/// Exchanging two elements inside `[lo, hi)` does not change the multiset of
/// that subrange.
pub proof fn lemma_swap_in_range_multiset<T>(s: Seq<T>, lo: int, hi: int, a: int, b: int)
    requires
        0 <= lo <= a < hi <= s.len(),
        lo <= b < hi,
    ensures
        swapped(s, a, b).subrange(lo, hi).to_multiset() == s.subrange(lo, hi).to_multiset(),
{
    assert(swapped(s, a, b).subrange(lo, hi) =~= swapped(s.subrange(lo, hi), a - lo, b - lo));
    lemma_swap_preserves_multiset(s.subrange(lo, hi), a - lo, b - lo);
}

/// If two sequences of one length agree outside `[a, b)` and hold the same
/// multiset on `[a, b)`, they hold the same multiset on any enclosing range.
pub proof fn lemma_range_multiset_extends<T>(
    s1: Seq<T>,
    s2: Seq<T>,
    lo: int,
    hi: int,
    a: int,
    b: int,
)
    requires
        s1.len() == s2.len(),
        0 <= lo <= a <= b <= hi <= s1.len(),
        forall|k: int| 0 <= k < s1.len() && !(a <= k < b) ==> s1[k] == s2[k],
        s2.subrange(a, b).to_multiset() == s1.subrange(a, b).to_multiset(),
    ensures
        s2.subrange(lo, hi).to_multiset() == s1.subrange(lo, hi).to_multiset(),
{
    assert(s1.subrange(lo, hi) =~= s1.subrange(lo, a) + s1.subrange(a, b) + s1.subrange(b, hi));
    assert(s2.subrange(lo, hi) =~= s2.subrange(lo, a) + s2.subrange(a, b) + s2.subrange(b, hi));
    assert(s2.subrange(lo, a) =~= s1.subrange(lo, a));
    assert(s2.subrange(b, hi) =~= s1.subrange(b, hi));
    lemma_multiset_commutative(s1.subrange(lo, a) + s1.subrange(a, b), s1.subrange(b, hi));
    lemma_multiset_commutative(s1.subrange(lo, a), s1.subrange(a, b));
    lemma_multiset_commutative(s2.subrange(lo, a) + s2.subrange(a, b), s2.subrange(b, hi));
    lemma_multiset_commutative(s2.subrange(lo, a), s2.subrange(a, b));
}

} // verus!
