use algokit::heap::{Heap, MaxHeap, MinHeap};
use algokit::order::{MaxOrder, MinOrder};

#[test]
fn test_empty_heap() {
    let mut heap = MaxHeap::new();
    assert_eq!(heap.take_next(), None);
}

#[test]
fn test_min_heap() {
    let mut heap = MinHeap::new();
    heap.add(4);
    heap.add(2);
    heap.add(9);
    heap.add(11);
    assert_eq!(heap.len(), 4);
    assert_eq!(heap.take_next(), Some(2));
    assert_eq!(heap.take_next(), Some(4));
    assert_eq!(heap.take_next(), Some(9));
    heap.add(1);
    assert_eq!(heap.take_next(), Some(1));
}

#[test]
fn test_max_heap() {
    let mut heap = MaxHeap::new();
    heap.add(4);
    heap.add(2);
    heap.add(9);
    heap.add(11);
    assert_eq!(heap.len(), 4);
    assert_eq!(heap.take_next(), Some(11));
    assert_eq!(heap.take_next(), Some(9));
    assert_eq!(heap.take_next(), Some(4));
    heap.add(1);
    assert_eq!(heap.take_next(), Some(2));
}

#[test]
fn drain_is_sorted_ascending() {
    let mut heap = Heap::new(MinOrder);
    for v in [31, -4, 17, 0, 17, 99, -250, 8] {
        heap.add(v);
    }
    let mut drained: Vec<i32> = Vec::new();
    while let Some(v) = heap.take_next() {
        drained.push(v);
    }
    assert_eq!(drained, vec![-250, -4, 0, 8, 17, 17, 31, 99]);
}

#[test]
fn drain_is_sorted_descending() {
    let mut heap = Heap::new(MaxOrder);
    for v in [31, -4, 17, 0, 17, 99, -250, 8] {
        heap.add(v);
    }
    let mut drained: Vec<i32> = Vec::new();
    while let Some(v) = heap.take_next() {
        drained.push(v);
    }
    assert_eq!(drained, vec![99, 31, 17, 17, 8, 0, -4, -250]);
}

#[test]
fn len_tracks_inserts_and_extractions() {
    let mut heap = MinHeap::new();
    assert_eq!(heap.len(), 0);
    assert!(heap.is_empty());
    for v in 0..6 {
        heap.add(v);
    }
    assert_eq!(heap.len(), 6);
    assert!(!heap.is_empty());
    for k in 0..3 {
        assert!(heap.take_next().is_some());
        assert_eq!(heap.len(), 6 - k - 1);
    }
    assert_eq!(heap.len(), 3);
}

#[test]
fn empty_signal_is_idempotent() {
    let mut heap = Heap::new(MinOrder);
    assert_eq!(heap.take_next(), None);
    assert_eq!(heap.take_next(), None);
    heap.add(7);
    assert_eq!(heap.take_next(), Some(7));
    assert_eq!(heap.take_next(), None);
    assert_eq!(heap.take_next(), None);
    assert_eq!(heap.len(), 0);
    assert!(heap.is_empty());
}

#[test]
fn duplicate_priorities_all_come_out() {
    let mut heap = MinHeap::new();
    heap.add(5);
    heap.add(5);
    heap.add(5);
    assert_eq!(heap.take_next(), Some(5));
    assert_eq!(heap.take_next(), Some(5));
    assert_eq!(heap.take_next(), Some(5));
    assert_eq!(heap.len(), 0);
    assert_eq!(heap.take_next(), None);
}

#[test]
fn churn_returns_exactly_what_went_in() {
    let mut heap = MinHeap::new();
    let mut returned: Vec<i32> = Vec::new();
    heap.add(10);
    heap.add(3);
    returned.extend(heap.take_next());
    heap.add(14);
    heap.add(-2);
    returned.extend(heap.take_next());
    returned.extend(heap.take_next());
    heap.add(6);
    while let Some(v) = heap.take_next() {
        returned.push(v);
    }
    assert_eq!(heap.take_next(), None);
    returned.sort();
    assert_eq!(returned, vec![-2, 3, 6, 10, 14]);
}

#[test]
fn convenience_constructors_agree() {
    let mut a = Heap::new_min();
    let mut b = MinHeap::new();
    for v in [3, 1, 2] {
        a.add(v);
        b.add(v);
    }
    assert_eq!(a.take_next(), b.take_next());
    let mut c = Heap::new_max();
    let mut d = MaxHeap::new();
    for v in [3, 1, 2] {
        c.add(v);
        d.add(v);
    }
    assert_eq!(c.take_next(), d.take_next());
}
