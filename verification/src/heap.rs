use vstd::prelude::*;
use vstd::seq_lib::group_to_multiset_ensures;
use vstd::seq_lib::to_multiset_build;

use crate::order::{MaxOrder, MinOrder, Order};
use crate::perm::{lemma_swap_preserves_multiset, swap_items, swapped};

verus! {

/// Index of the parent of node `i` in the implicit binary-tree layout
/// (0-based: the children of `i` are `2i + 1` and `2i + 2`).
pub open spec fn parent_of(i: int) -> int {
    (i - 1) / 2
}

/// The heap invariant: no node outranks its parent under the policy `P`.
pub open spec fn heap_ordered<T, P: Order<T>>(s: Seq<T>) -> bool {
    forall|i: int| 1 <= i < s.len() ==> !P::higher(#[trigger] s[i], s[parent_of(i)])
}

/// An index with a parent is one of that parent's two child slots.
proof fn lemma_child_slots(c: int, j: int)
    requires
        1 <= j,
        parent_of(j) == c,
    ensures
        j == 2 * c + 1 || j == 2 * c + 2,
{
}

/// No element outranks itself.
proof fn lemma_irreflexive<T, P: Order<T>>(a: T)
    ensures
        !P::higher(a, a),
{
    if P::higher(a, a) {
        P::lemma_asymmetric(a, a);
    }
}

/// In a heap-ordered sequence the root outranks (or ties with) every element.
pub proof fn lemma_root_minimal<T, P: Order<T>>(s: Seq<T>)
    requires
        heap_ordered::<T, P>(s),
        s.len() > 0,
    ensures
        forall|i: int| 0 <= i < s.len() ==> !P::higher(#[trigger] s[i], s[0]),
{
    assert forall|i: int| 0 <= i < s.len() implies !P::higher(#[trigger] s[i], s[0]) by {
        lemma_no_ancestor_outranked::<T, P>(s, i);
    }
}

/// No element of a heap-ordered sequence outranks the root.
proof fn lemma_no_ancestor_outranked<T, P: Order<T>>(s: Seq<T>, i: int)
    requires
        heap_ordered::<T, P>(s),
        0 <= i < s.len(),
    ensures
        !P::higher(s[i], s[0]),
    decreases i,
{
    if i == 0 {
        lemma_irreflexive::<T, P>(s[0]);
    } else {
        lemma_no_ancestor_outranked::<T, P>(s, parent_of(i));
        P::lemma_transitive(s[0], s[parent_of(i)], s[i]);
    }
}

/// Sorted extraction law: if one extraction follows another — the second heap
/// holds the first one's contents minus the first one's root — then the root
/// extracted second never outranks the root extracted first.  Repeated over a
/// full drain, this is what makes the extraction sequence sorted under `P`.
pub proof fn lemma_extraction_order<T, P: Order<T>>(before: Seq<T>, after: Seq<T>)
    requires
        heap_ordered::<T, P>(before),
        heap_ordered::<T, P>(after),
        before.len() > 0,
        after.len() > 0,
        after.to_multiset() == before.to_multiset().remove(before[0]),
    ensures
        !P::higher(after[0], before[0]),
{
    broadcast use group_to_multiset_ensures;

    assert(after.contains(after[0]));
    assert(after.to_multiset().count(after[0]) > 0);
    assert(before.to_multiset().count(after[0]) > 0);
    assert(before.contains(after[0]));
    let k = choose|k: int| 0 <= k < before.len() && before[k] == after[0];
    lemma_root_minimal::<T, P>(before);
    assert(!P::higher(before[k], before[0]));
}

/// Removing the root by overwriting it with the last element and shortening
/// the sequence removes exactly one occurrence of the root from the contents.
proof fn lemma_remove_root_multiset<T>(s: Seq<T>)
    requires
        s.len() > 0,
    ensures
        s.update(0, s.last()).drop_last().to_multiset() == s.to_multiset().remove(s[0]),
{
    broadcast use group_to_multiset_ensures;

    let n = s.len() as int;
    let t = s.update(0, s.last());
    assert(t.drop_last() =~= t.remove(n - 1));
    assert(t.remove(n - 1).to_multiset() == t.to_multiset().remove(t[n - 1]));
    assert(t[n - 1] == s.last());
    assert(s.contains(s[0]));
    assert(s.to_multiset().count(s[0]) > 0);
    assert(t.to_multiset() == s.to_multiset().insert(s.last()).remove(s[0]));
    assert(s.to_multiset().insert(s.last()).remove(s[0]).remove(s.last()) =~= s.to_multiset()
        .remove(s[0]));
}

/// One sift-up exchange: if the element at `idx` outranks its parent and the
/// sequence is heap-ordered except at `idx`, the exchanged sequence is
/// heap-ordered except at the parent slot.
proof fn lemma_sift_up_step<T, P: Order<T>>(s: Seq<T>, idx: int)
    requires
        1 <= idx < s.len(),
        P::higher(s[idx], s[parent_of(idx)]),
        forall|j: int|
            1 <= j < s.len() && j != idx ==> !P::higher(#[trigger] s[j], s[parent_of(j)]),
        forall|c: int|
            1 <= c < s.len() && parent_of(c) == idx ==> !P::higher(
                #[trigger] s[c],
                s[parent_of(idx)],
            ),
    ensures
        forall|j: int|
            1 <= j < s.len() && j != parent_of(idx) ==> !P::higher(
                #[trigger] swapped(s, idx, parent_of(idx))[j],
                swapped(s, idx, parent_of(idx))[parent_of(j)],
            ),
        parent_of(idx) >= 1 ==> forall|c: int|
            1 <= c < s.len() && parent_of(c) == parent_of(idx) ==> !P::higher(
                #[trigger] swapped(s, idx, parent_of(idx))[c],
                swapped(s, idx, parent_of(idx))[parent_of(parent_of(idx))],
            ),
{
    let p = parent_of(idx);
    let t = swapped(s, idx, p);
    P::lemma_asymmetric(s[idx], s[p]);
    assert forall|j: int| 1 <= j < s.len() && j != p implies !P::higher(
        t[j],
        t[parent_of(j)],
    ) by {
        if j == idx {
            // t[idx] == s[p], t[p] == s[idx]; asymmetry settles the edge.
        } else if parent_of(j) == idx {
            // a child of the vacated slot, now under the old parent value
            lemma_child_slots(idx, j);
        } else if parent_of(j) == p {
            // the sibling of idx, now under the inserted value
            lemma_child_slots(p, j);
            P::lemma_transitive(s[idx], s[p], s[j]);
        } else {
            // untouched edge
        }
    }
    if p >= 1 {
        let g = parent_of(p);
        assert forall|c: int| 1 <= c < s.len() && parent_of(c) == p implies !P::higher(
            t[c],
            t[g],
        ) by {
            if c == idx {
                // t[idx] == s[p]; the old edge from p to g applies unchanged.
            } else {
                P::lemma_transitive(s[g], s[p], s[c]);
            }
        }
    }
}

/// A finished sift-down: the element at `cur` outranks its preferred child,
/// so together with the partial invariant the whole sequence is heap-ordered.
proof fn lemma_sift_down_done<T, P: Order<T>>(s: Seq<T>, cur: int, child: int)
    requires
        0 <= cur < s.len(),
        child == 2 * cur + 1 || child == 2 * cur + 2,
        child < s.len(),
        P::higher(s[cur], s[child]),
        forall|j: int|
            (j == 2 * cur + 1 || j == 2 * cur + 2) && j < s.len() ==> !P::higher(
                #[trigger] s[j],
                s[child],
            ),
        forall|j: int|
            1 <= j < s.len() && parent_of(j) != cur ==> !P::higher(
                #[trigger] s[j],
                s[parent_of(j)],
            ),
    ensures
        heap_ordered::<T, P>(s),
{
    P::lemma_asymmetric(s[cur], s[child]);
    assert forall|j: int| 1 <= j < s.len() implies !P::higher(
        #[trigger] s[j],
        s[parent_of(j)],
    ) by {
        if parent_of(j) == cur {
            lemma_child_slots(cur, j);
            P::lemma_transitive(s[cur], s[child], s[j]);
        }
    }
}

/// One sift-down exchange: `cur` does not outrank its preferred child, so the
/// two are exchanged; the partial invariant moves down to the child slot.
proof fn lemma_sift_down_step<T, P: Order<T>>(s: Seq<T>, cur: int, child: int)
    requires
        0 <= cur < s.len(),
        child == 2 * cur + 1 || child == 2 * cur + 2,
        child < s.len(),
        !P::higher(s[cur], s[child]),
        forall|j: int|
            (j == 2 * cur + 1 || j == 2 * cur + 2) && j < s.len() ==> !P::higher(
                #[trigger] s[j],
                s[child],
            ),
        forall|j: int|
            1 <= j < s.len() && parent_of(j) != cur ==> !P::higher(
                #[trigger] s[j],
                s[parent_of(j)],
            ),
        cur > 0 ==> forall|c: int|
            1 <= c < s.len() && parent_of(c) == cur ==> !P::higher(
                #[trigger] s[c],
                s[parent_of(cur)],
            ),
    ensures
        forall|j: int|
            1 <= j < s.len() && parent_of(j) != child ==> !P::higher(
                #[trigger] swapped(s, cur, child)[j],
                swapped(s, cur, child)[parent_of(j)],
            ),
        forall|c: int|
            1 <= c < s.len() && parent_of(c) == child ==> !P::higher(
                #[trigger] swapped(s, cur, child)[c],
                swapped(s, cur, child)[parent_of(child)],
            ),
{
    let t = swapped(s, cur, child);
    assert(parent_of(child) == cur);
    assert forall|j: int| 1 <= j < s.len() && parent_of(j) != child implies !P::higher(
        t[j],
        t[parent_of(j)],
    ) by {
        if j == child {
            // t[child] == s[cur], t[cur] == s[child]; the exchange condition.
        } else if parent_of(j) == cur {
            lemma_child_slots(cur, j);
            // the sibling keeps its value and sits under s[child] now
        } else if j == cur {
            // cur keeps slot `cur`'s edge to its own parent via the hand-down
        } else {
            // untouched edge
        }
    }
    assert forall|c: int| 1 <= c < s.len() && parent_of(c) == child implies !P::higher(
        t[c],
        t[parent_of(child)],
    ) by {
        lemma_child_slots(child, c);
    }
}

/// An array-backed binary heap with a pluggable ordering policy.  The
/// elements live in implicit binary-tree layout; the policy, fixed at
/// construction, decides which of two elements must sit above the other.
pub struct Heap<T, P: Order<T>> {
    items: Vec<T>,
    policy: P,
}

impl<T, P: Order<T>> View for Heap<T, P> {
    type V = Seq<T>;

    closed spec fn view(&self) -> Seq<T> {
        self.items@
    }
}

impl<T, P: Order<T>> Heap<T, P> {
    /// The heap invariant, re-established by every mutation.
    pub open spec fn well_formed(&self) -> bool {
        heap_ordered::<T, P>(self@)
    }

    /// An empty heap governed by the given policy.
    pub fn new(policy: P) -> (h: Self)
        ensures
            h.well_formed(),
            h@.len() == 0,
    {
        Heap { items: Vec::new(), policy }
    }

    /// Number of live elements.
    pub fn len(&self) -> (n: usize)
        ensures
            n == self@.len(),
    {
        self.items.len()
    }

    /// True exactly when the heap holds no elements.
    pub fn is_empty(&self) -> (e: bool)
        ensures
            e == (self@.len() == 0),
    {
        self.len() == 0
    }

    fn parent_idx(&self, idx: usize) -> (p: usize)
        requires
            0 < idx,
        ensures
            p as int == parent_of(idx as int),
            p < idx,
    {
        (idx - 1) / 2
    }

    fn children_present(&self, idx: usize) -> (b: bool)
        ensures
            b == (2 * (idx as int) + 1 < self@.len()),
    {
        idx < self.items.len() / 2
    }

    fn left_child_idx(&self, idx: usize) -> (l: usize)
        requires
            2 * (idx as int) + 1 < self@.len(),
        ensures
            l as int == 2 * (idx as int) + 1,
    {
        // the call pins the backing length as a machine word, bounding the result
        let _n = self.items.len();
        2 * idx + 1
    }

    fn right_child_idx(&self, idx: usize) -> (r: usize)
        requires
            2 * (idx as int) + 1 < self@.len(),
        ensures
            r as int == 2 * (idx as int) + 2,
    {
        // the call pins the backing length as a machine word, bounding the result
        let _n = self.items.len();
        2 * idx + 2
    }

    /// The preferred child of `idx`: the only child if there is one, else
    /// whichever of the two the policy ranks higher, the right one on a tie
    /// (the comparison is asked left-first and a tie answers false).
    fn smallest_child_idx(&self, idx: usize) -> (c: usize)
        requires
            2 * (idx as int) + 1 < self@.len(),
        ensures
            c as int == 2 * (idx as int) + 1 || c as int == 2 * (idx as int) + 2,
            (c as int) < self@.len(),
            forall|j: int|
                (j == 2 * (idx as int) + 1 || j == 2 * (idx as int) + 2) && j < self@.len()
                    ==> !P::higher(#[trigger] self@[j], self@[c as int]),
    {
        let left = self.left_child_idx(idx);
        let right = self.right_child_idx(idx);
        proof {
            lemma_irreflexive::<T, P>(self@[left as int]);
        }
        if right >= self.items.len() {
            left
        } else {
            proof {
                lemma_irreflexive::<T, P>(self@[right as int]);
            }
            if self.policy.higher_priority(&self.items[left], &self.items[right]) {
                proof {
                    P::lemma_asymmetric(self@[left as int], self@[right as int]);
                }
                left
            } else {
                right
            }
        }
    }

    /// Insert `value`, re-establishing the heap invariant by sift-up.  The
    /// contents afterwards are the old contents plus one occurrence of
    /// `value`; nothing is ever rejected.
    pub fn add(&mut self, value: T)
        requires
            old(self).well_formed(),
        ensures
            final(self).well_formed(),
            final(self)@.len() == old(self)@.len() + 1,
            final(self)@.to_multiset() == old(self)@.to_multiset().insert(value),
    {
        self.items.push(value);
        proof {
            to_multiset_build(old(self)@, value);
        }
        let mut idx: usize = self.items.len() - 1;
        while idx > 0
            invariant
                idx < self@.len(),
                self@.len() == old(self)@.len() + 1,
                self@.to_multiset() == old(self)@.to_multiset().insert(value),
                forall|j: int|
                    1 <= j < self@.len() && j != idx as int ==> !P::higher(
                        #[trigger] self@[j],
                        self@[parent_of(j)],
                    ),
                idx > 0 ==> forall|c: int|
                    1 <= c < self@.len() && parent_of(c) == idx as int ==> !P::higher(
                        #[trigger] self@[c],
                        self@[parent_of(idx as int)],
                    ),
            ensures
                idx == 0 || !P::higher(self@[idx as int], self@[parent_of(idx as int)]),
            decreases idx,
        {
            let parent = self.parent_idx(idx);
            let rise = self.policy.higher_priority(&self.items[idx], &self.items[parent]);
            if !rise {
                break ;
            }
            let ghost s0 = self@;
            proof {
                lemma_sift_up_step::<T, P>(s0, idx as int);
                lemma_swap_preserves_multiset(s0, idx as int, parent as int);
            }
            swap_items(&mut self.items, idx, parent);
            idx = parent;
        }
    }

    /// Remove and return the element the policy ranks highest, or `None` on
    /// an empty heap, which is left untouched.  The contents afterwards are
    /// the old contents minus one occurrence of the old root, and no element
    /// left behind outranks the one returned.
    pub fn take_next(&mut self) -> (r: Option<T>)
        requires
            old(self).well_formed(),
        ensures
            final(self).well_formed(),
            old(self)@.len() == 0 ==> r is None && final(self)@ == old(self)@,
            old(self)@.len() > 0 ==> {
                &&& r == Some(old(self)@[0])
                &&& final(self)@.len() == old(self)@.len() - 1
                &&& final(self)@.to_multiset() == old(self)@.to_multiset().remove(old(self)@[0])
                &&& forall|x: T|
                    final(self)@.to_multiset().contains(x) ==> !P::higher(x, old(self)@[0])
            },
    {
        if self.items.len() == 0 {
            return None;
        }
        let ghost orig = self@;
        proof {
            lemma_root_minimal::<T, P>(orig);
            lemma_remove_root_multiset(orig);
        }
        let result = self.items.swap_remove(0);
        let mut current: usize = 0;
        loop
            invariant
                self@.len() == orig.len() - 1,
                self@.len() > 0 ==> (current as int) < self@.len(),
                self@.len() == 0 ==> current == 0,
                self@.to_multiset() == orig.to_multiset().remove(orig[0]),
                forall|j: int|
                    1 <= j < self@.len() && parent_of(j) != current as int ==> !P::higher(
                        #[trigger] self@[j],
                        self@[parent_of(j)],
                    ),
                current > 0 ==> forall|c: int|
                    1 <= c < self@.len() && parent_of(c) == current as int ==> !P::higher(
                        #[trigger] self@[c],
                        self@[parent_of(current as int)],
                    ),
            ensures
                self@.len() == orig.len() - 1,
                self@.to_multiset() == orig.to_multiset().remove(orig[0]),
                heap_ordered::<T, P>(self@),
            decreases self@.len() - current,
        {
            if !self.children_present(current) {
                proof {
                    assert forall|j: int| 1 <= j < self@.len() implies !P::higher(
                        #[trigger] self@[j],
                        self@[parent_of(j)],
                    ) by {
                        if parent_of(j) == current as int {
                            lemma_child_slots(current as int, j);
                        }
                    }
                }
                break ;
            }
            let child = self.smallest_child_idx(current);
            let stop = self.policy.higher_priority(&self.items[current], &self.items[child]);
            if stop {
                proof {
                    lemma_sift_down_done::<T, P>(self@, current as int, child as int);
                }
                break ;
            }
            let ghost s0 = self@;
            proof {
                lemma_sift_down_step::<T, P>(s0, current as int, child as int);
                lemma_swap_preserves_multiset(s0, current as int, child as int);
            }
            swap_items(&mut self.items, current, child);
            current = child;
        }
        proof {
            assert forall|x: T| self@.to_multiset().contains(x) implies !P::higher(
                x,
                orig[0],
            ) by {
                orig.to_multiset_ensures();
                lemma_root_minimal::<T, P>(orig);
                assert(orig.to_multiset().count(x) > 0);
                assert(orig.contains(x));
                let i = choose|i: int| 0 <= i < orig.len() && orig[i] == x;
                assert(!P::higher(orig[i], orig[0]));
            }
        }
        Some(result)
    }
}

impl Heap<i32, MinOrder> {
    /// An empty min-heap over `i32`: `take_next` drains in ascending order.
    pub fn new_min() -> (h: Self)
        ensures
            h.well_formed(),
            h@.len() == 0,
    {
        Heap::new(MinOrder)
    }
}

impl Heap<i32, MaxOrder> {
    /// An empty max-heap over `i32`: `take_next` drains in descending order.
    pub fn new_max() -> (h: Self)
        ensures
            h.well_formed(),
            h@.len() == 0,
    {
        Heap::new(MaxOrder)
    }
}

/// Convenience constructor type for min-heaps.
pub struct MinHeap;

impl MinHeap {
    /// An empty min-heap over `i32`.
    pub fn new() -> (h: Heap<i32, MinOrder>)
        ensures
            h.well_formed(),
            h@.len() == 0,
    {
        Heap::new(MinOrder)
    }
}

/// Convenience constructor type for max-heaps.
pub struct MaxHeap;

impl MaxHeap {
    /// An empty max-heap over `i32`.
    pub fn new() -> (h: Heap<i32, MaxOrder>)
        ensures
            h.well_formed(),
            h@.len() == 0,
    {
        Heap::new(MaxOrder)
    }
}

} // verus!
