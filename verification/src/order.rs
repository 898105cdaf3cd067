use vstd::prelude::*;

verus! {

/// An ordering policy fixed at heap construction.  `higher(a, b)` says that
/// `a` outranks `b`, i.e. `a` must sit above `b` in the tree.  A min-heap
/// supplies `a < b`, a max-heap `a > b`.
///
/// The two proof obligations are the laws every policy must satisfy for the
/// heap to be meaningful: `higher` is asymmetric, and its negation is
/// transitive (as it is for any strict total or strict weak order).
pub trait Order<T>: Sized {
    /// The mathematical relation the executable comparison implements.
    spec fn higher(a: T, b: T) -> bool;

    /// `higher` never holds in both directions at once.
    proof fn lemma_asymmetric(a: T, b: T)
        requires
            Self::higher(a, b),
        ensures
            !Self::higher(b, a),
    ;

    /// "Does not outrank" is transitive.
    proof fn lemma_transitive(a: T, b: T, c: T)
        requires
            !Self::higher(b, a),
            !Self::higher(c, b),
        ensures
            !Self::higher(c, a),
    ;

    /// The executable comparison, exactly the spec relation.
    fn higher_priority(&self, a: &T, b: &T) -> (r: bool)
        ensures
            r == Self::higher(*a, *b),
    ;
}

/// Ascending policy on `i32`: smaller values outrank larger ones, so the heap
/// drains in ascending order (a min-heap).
pub struct MinOrder;

impl Order<i32> for MinOrder {
    open spec fn higher(a: i32, b: i32) -> bool {
        a < b
    }

    proof fn lemma_asymmetric(a: i32, b: i32) {
    }

    proof fn lemma_transitive(a: i32, b: i32, c: i32) {
    }

    fn higher_priority(&self, a: &i32, b: &i32) -> (r: bool) {
        *a < *b
    }
}

/// Descending policy on `i32`: larger values outrank smaller ones, so the
/// heap drains in descending order (a max-heap).
pub struct MaxOrder;

impl Order<i32> for MaxOrder {
    open spec fn higher(a: i32, b: i32) -> bool {
        a > b
    }

    proof fn lemma_asymmetric(a: i32, b: i32) {
    }

    proof fn lemma_transitive(a: i32, b: i32, c: i32) {
    }

    fn higher_priority(&self, a: &i32, b: &i32) -> (r: bool) {
        *a > *b
    }
}

} // verus!
