use algograph::updatable_heap::UpdateableHeap;
use algograph::updatable_heap::UpdateableHeapElem;
use algograph::updatable_heap::BIGGEST_NUMBER;

#[test]
fn heap_pops_keys_in_order_and_each_idx_once() {
    let mut heap: UpdateableHeap<usize> = UpdateableHeap::new(6);
    heap.insert(UpdateableHeapElem::new(0, 7, 0));
    heap.insert(UpdateableHeapElem::new(1, 3, 0));
    heap.insert(UpdateableHeapElem::new(2, 9, 0));
    heap.insert(UpdateableHeapElem::new(3, 1, 0));
    heap.insert(UpdateableHeapElem::new(4, 5, 0));
    heap.insert(UpdateableHeapElem::new(5, 5, 0));

    let mut last_key = i64::MIN;
    let mut seen = [false; 6];
    for _ in 0..6 {
        let elem = heap.get_and_remove_min();
        assert!(elem.ordering_key >= last_key);
        assert!(!seen[elem.idx]);
        seen[elem.idx] = true;
        last_key = elem.ordering_key;
    }
    assert!(seen.iter().all(|s| *s));
}

#[test]
fn heap_decrease_key_changes_the_minimum() {
    let mut heap: UpdateableHeap<usize> = UpdateableHeap::new(3);
    heap.fill();
    heap.decrease_by_idx(1, 10, 7);
    heap.decrease_by_idx(2, 4, 9);
    let first = heap.get_and_remove_min();
    assert_eq!(first.idx, 2);
    assert_eq!(first.ordering_key, 4);
    assert_eq!(first.payload, 9);
    let second = heap.get_and_remove_min();
    assert_eq!(second.idx, 1);
    assert_eq!(second.ordering_key, 10);
    let third = heap.get_and_remove_min();
    assert_eq!(third.ordering_key, BIGGEST_NUMBER);
}

#[test]
fn heap_decrease_key_ignores_larger_and_removed_keys() {
    let mut heap: UpdateableHeap<usize> = UpdateableHeap::new(2);
    heap.fill();
    heap.decrease_by_idx(0, 5, 0);
    heap.decrease_by_idx(0, 8, 0);
    let first = heap.get_and_remove_min();
    assert_eq!(first.idx, 0);
    assert_eq!(first.ordering_key, 5);
    // decreasing a popped identifier is a no-op
    heap.decrease_by_idx(0, 1, 0);
    let second = heap.get_and_remove_min();
    assert_eq!(second.idx, 1);
    assert_eq!(second.ordering_key, BIGGEST_NUMBER);
}

#[test]
fn heap_fill_gives_every_identifier_an_infinite_key() {
    let mut heap: UpdateableHeap<u32> = UpdateableHeap::new(4);
    heap.fill();
    let mut seen = [false; 4];
    for _ in 0..4 {
        let elem = heap.get_and_remove_min();
        assert_eq!(elem.ordering_key, BIGGEST_NUMBER);
        assert!(!seen[elem.idx]);
        seen[elem.idx] = true;
    }
}
