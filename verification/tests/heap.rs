use alda::heap::{Heap, MaxHeap, MinHeap};

fn sample() -> Vec<i32> {
    vec![16, 4, 10, 14, 7, 9, 3, 2, 8, 1]
}

#[test]
fn max_heapify() {
    let mut heap: Heap<i32, MaxHeap> = Heap::new(sample());
    heap.update_size();
    heap.max_heapify(1);
    assert_eq!(heap.buffer(), &vec![16, 14, 10, 8, 7, 9, 3, 2, 4, 1])
}

#[test]
fn build_max_heap() {
    let mut heap: Heap<i32, MaxHeap> = Heap::new(sample());
    heap.build_max_heap();
    assert_eq!(heap.size(), heap.buffer().len());
    assert_eq!(heap.buffer(), &vec![16, 14, 10, 8, 7, 9, 3, 2, 4, 1])
}

#[test]
fn sort_heap() {
    let mut heap: Heap<i32, MaxHeap> = Heap::new(sample());
    heap.sort();
    assert_eq!(heap.buffer(), &vec![1, 2, 3, 4, 7, 8, 9, 10, 14, 16])
}

#[test]
fn min_heapify() {
    let mut heap: Heap<i32, MinHeap> = Heap::new(sample());
    heap.update_size();
    heap.min_heapify(0);
    assert_eq!(heap.buffer(), &vec![4, 7, 10, 14, 1, 9, 3, 2, 8, 16])
}

#[test]
fn extract_max() {
    let mut heap: Heap<i32, MaxHeap> = Heap::new(sample());
    heap.build_max_heap();
    let max = heap.extract_max();
    assert_eq!(max, Some(16));
    assert_eq!(heap.buffer(), &vec![14, 8, 10, 4, 7, 9, 3, 2, 1])
}

#[test]
fn increase_key() {
    let mut heap: Heap<i32, MaxHeap> = Heap::new(sample());
    heap.build_max_heap();
    let prev = heap.increase_key(1, 25);
    assert_eq!(prev, Some(14));
    assert_eq!(heap.buffer(), &vec![25, 16, 10, 8, 7, 9, 3, 2, 4, 1])
}

fn is_max_heap(items: &[i32]) -> bool {
    (1..items.len()).all(|c| items[(c - 1) / 2] >= items[c])
}

fn is_min_heap(items: &[i32]) -> bool {
    (1..items.len()).all(|c| items[(c - 1) / 2] <= items[c])
}

fn sorted(mut items: Vec<i32>) -> Vec<i32> {
    items.sort();
    items
}

fn arrangements() -> Vec<Vec<i32>> {
    vec![
        vec![16, 4, 10, 14, 7, 9, 3, 2, 8, 1],
        vec![1, 2, 3, 4, 7, 8, 9, 10, 14, 16],
        vec![16, 14, 10, 9, 8, 7, 4, 3, 2, 1],
        vec![7, 1, 16, 3, 14, 2, 10, 4, 9, 8],
        vec![8, 9, 4, 10, 2, 14, 3, 16, 1, 7],
    ]
}

#[test]
fn every_arrangement_builds_a_heap_of_the_same_elements() {
    for items in arrangements() {
        let mut max: Heap<i32, MaxHeap> = Heap::new(items.clone());
        max.build_max_heap();
        assert_eq!(max.size(), items.len());
        assert!(is_max_heap(max.buffer()));
        assert_eq!(sorted(max.buffer().clone()), sorted(items.clone()));
        assert_eq!(max.max(), Some(&16));
        let mut min: Heap<i32, MinHeap> = Heap::new(items.clone());
        min.build_min_heap();
        assert_eq!(min.size(), items.len());
        assert!(is_min_heap(min.buffer()));
        assert_eq!(sorted(min.buffer().clone()), sorted(items));
        assert_eq!(min.min(), Some(&1));
    }
}

#[test]
fn build_min_heap_of_the_sample() {
    let mut heap: Heap<i32, MinHeap> = Heap::new(sample());
    heap.build_min_heap();
    assert_eq!(heap.buffer(), &vec![1, 2, 3, 8, 4, 9, 10, 14, 16, 7]);
}

#[test]
fn sort_keeps_the_elements_and_their_number() {
    for items in arrangements() {
        let mut heap: Heap<i32, MaxHeap> = Heap::new(items.clone());
        heap.sort();
        assert_eq!(heap.buffer(), &sorted(items));
        assert_eq!(heap.size(), 1);
    }
    let mut heap: Heap<i32, MaxHeap> = Heap::new(vec![3, 3, 1, 3, 1]);
    heap.sort();
    assert_eq!(heap.buffer(), &vec![1, 1, 3, 3, 3]);
}

#[test]
fn sort_of_nothing_and_of_one_element_changes_nothing() {
    let mut heap: Heap<i32, MaxHeap> = Heap::new(vec![]);
    heap.sort();
    assert_eq!(heap.buffer(), &Vec::<i32>::new());
    assert_eq!(heap.size(), 0);
    let mut heap: Heap<i32, MaxHeap> = Heap::new(vec![5]);
    heap.sort();
    assert_eq!(heap.buffer(), &vec![5]);
    assert_eq!(heap.size(), 1);
}

#[test]
fn the_elements_leave_a_heap_in_order() {
    for items in arrangements() {
        let mut max: Heap<i32, MaxHeap> = Heap::new(items.clone());
        max.build_max_heap();
        let mut out = Vec::new();
        while let Some(x) = max.extract_max() {
            assert!(is_max_heap(max.buffer()));
            out.push(x);
        }
        let mut down = sorted(items.clone());
        down.reverse();
        assert_eq!(out, down);
        let mut min: Heap<i32, MinHeap> = Heap::new(items.clone());
        min.build_min_heap();
        let mut out = Vec::new();
        while let Some(x) = min.extract_min() {
            assert!(is_min_heap(min.buffer()));
            out.push(x);
        }
        assert_eq!(out, sorted(items));
    }
}

#[test]
fn extract_min_of_the_sample() {
    let mut heap: Heap<i32, MinHeap> = Heap::new(sample());
    heap.build_min_heap();
    assert_eq!(heap.extract_min(), Some(1));
    assert_eq!(heap.buffer(), &vec![2, 4, 3, 8, 7, 9, 10, 14, 16]);
}

#[test]
fn a_smaller_key_is_refused_and_nothing_changes() {
    let mut heap: Heap<i32, MaxHeap> = Heap::new(sample());
    heap.build_max_heap();
    let before = heap.buffer().clone();
    assert_eq!(heap.increase_key(1, 13), None);
    assert_eq!(heap.increase_key(10, 99), None);
    assert_eq!(heap.increase_key(usize::MAX, 99), None);
    assert_eq!(heap.buffer(), &before);
    assert_eq!(heap.size(), 10);
    assert_eq!(heap.increase_key(1, 14), Some(14));
    assert_eq!(heap.buffer(), &before);
}

#[test]
fn a_larger_key_climbs_on_the_left_spine() {
    let mut heap: Heap<i32, MaxHeap> = Heap::new(sample());
    heap.build_max_heap();
    assert_eq!(heap.increase_key(7, 15), Some(2));
    assert_eq!(heap.buffer(), &vec![16, 15, 10, 14, 7, 9, 3, 8, 4, 1]);
    assert!(is_max_heap(heap.buffer()));
    assert_eq!(heap.increase_key(3, 20), Some(14));
    assert_eq!(heap.buffer(), &vec![20, 16, 10, 15, 7, 9, 3, 8, 4, 1]);
    assert!(is_max_heap(heap.buffer()));
    assert_eq!(heap.increase_key(0, 21), Some(20));
    assert!(is_max_heap(heap.buffer()));
}

#[test]
fn a_key_climbs_by_halving_its_position() {
    let mut heap: Heap<i32, MaxHeap> = Heap::new(vec![10, 3, 9, 2, 1]);
    heap.build_max_heap();
    assert_eq!(heap.buffer(), &vec![10, 3, 9, 2, 1]);
    assert_eq!(heap.increase_key(4, 5), Some(1));
    assert_eq!(heap.buffer(), &vec![10, 3, 9, 2, 5]);
    assert_eq!(heap.increase_key(2, 11), Some(9));
    assert_eq!(heap.buffer(), &vec![11, 10, 3, 2, 5]);
    assert_eq!(heap.parent(4), 2);
    assert_eq!(heap.parent(1), 0);
    assert_eq!(heap.parent(0), 0);
    assert_eq!(heap.left_child(3), 7);
    assert_eq!(heap.right_child(3), 8);
}

#[test]
fn decrease_key_in_a_min_heap() {
    let mut heap: Heap<i32, MinHeap> = Heap::new(sample());
    heap.build_min_heap();
    let before = heap.buffer().clone();
    assert_eq!(heap.decrease_key(3, 9), None);
    assert_eq!(heap.decrease_key(10, 0), None);
    assert_eq!(heap.buffer(), &before);
    assert_eq!(heap.decrease_key(7, 0), Some(14));
    assert_eq!(heap.buffer(), &vec![0, 1, 3, 2, 4, 9, 10, 8, 16, 7]);
    assert!(is_min_heap(heap.buffer()));
}

#[test]
fn delete_takes_one_element_out() {
    for index in 0..10 {
        let mut heap: Heap<i32, MaxHeap> = Heap::new(sample());
        heap.build_max_heap();
        let before = heap.buffer().clone();
        let gone = heap.delete_max(index);
        assert_eq!(gone, Some(before[index]));
        assert_eq!(heap.size(), 9);
        let mut rest = before.clone();
        rest.remove(index);
        assert_eq!(sorted(heap.buffer().clone()), sorted(rest));
    }
    let mut heap: Heap<i32, MinHeap> = Heap::new(sample());
    heap.build_min_heap();
    assert_eq!(heap.delete_min(9), Some(7));
    assert!(is_min_heap(heap.buffer()));
    assert_eq!(heap.delete_min(3), Some(8));
    assert_eq!(heap.buffer(), &vec![1, 2, 3, 16, 4, 9, 10, 14]);
    assert_eq!(heap.delete_min(7), Some(14));
    assert!(is_min_heap(heap.buffer()));
}

#[test]
fn delete_where_the_last_element_fits() {
    let mut heap: Heap<i32, MaxHeap> = Heap::new(sample());
    heap.build_max_heap();
    assert_eq!(heap.delete_max(7), Some(2));
    assert_eq!(heap.buffer(), &vec![16, 14, 10, 8, 7, 9, 3, 1, 4]);
    assert!(is_max_heap(heap.buffer()));
    assert_eq!(heap.delete_max(8), Some(4));
    assert!(is_max_heap(heap.buffer()));
    assert_eq!(heap.delete_max(6), Some(3));
    assert_eq!(heap.buffer(), &vec![16, 14, 10, 8, 7, 9, 1]);
    assert!(is_max_heap(heap.buffer()));
}

#[test]
fn an_empty_heap_gives_nothing_and_stays_as_it_is() {
    let mut max: Heap<i32, MaxHeap> = Heap::new(vec![]);
    assert_eq!(max.max(), None);
    assert_eq!(max.extract_max(), None);
    assert_eq!(max.delete_max(0), None);
    assert_eq!(max.increase_key(0, 1), None);
    assert_eq!(max.size(), 0);
    assert!(max.buffer().is_empty());
    let mut min: Heap<i32, MinHeap> = Heap::new(vec![4, 2]);
    assert_eq!(min.min(), None);
    assert_eq!(min.extract_min(), None);
    assert_eq!(min.delete_min(0), None);
    assert_eq!(min.decrease_key(0, 1), None);
    assert_eq!(min.size(), 0);
    assert_eq!(min.buffer(), &vec![4, 2]);
    assert_eq!(max.delete_max(3), None);
}

#[test]
fn insert_grows_the_heap() {
    let mut max: Heap<i32, MaxHeap> = Heap::new(vec![]);
    for x in [3, 9, 1, 7, 7, 12, 0, 5] {
        max.max_insert_key(x);
        assert!(is_max_heap(max.buffer()));
    }
    assert_eq!(max.size(), 8);
    assert_eq!(max.buffer(), &vec![12, 7, 9, 5, 7, 1, 0, 3]);
    let mut min: Heap<i32, MinHeap> = Heap::new(vec![8, 8, 8]);
    for x in [3, 9, 1, 7] {
        min.min_insert_key(x);
    }
    assert_eq!(min.size(), 4);
    assert_eq!(min.buffer(), &vec![1, 7, 3, 9]);
    assert!(is_min_heap(min.buffer()));
}

#[test]
fn iter_walks_over_the_heap_only() {
    let mut heap: Heap<i32, MaxHeap> = Heap::new(vec![2, 9, 4]);
    assert!(heap.iter().next().is_none());
    heap.build_max_heap();
    let mut iter = heap.iter();
    assert_eq!(iter.next(), Some(&9));
    assert_eq!(iter.next(), Some(&2));
    assert_eq!(iter.next(), Some(&4));
    assert_eq!(iter.next(), None);
    assert_eq!(iter.next(), None);
    heap.sort();
    assert_eq!(heap[0], 2);
    assert_eq!(heap[2], 9);
    let kept: Vec<i32> = heap.clone().buffer().clone();
    assert_eq!(kept, vec![2, 4, 9]);
    let mut iter = heap.iter();
    assert_eq!(iter.next(), Some(&2));
    assert_eq!(iter.next(), None);
}

#[test]
fn a_min_heap_sorts_in_descending_order() {
    let mut heap: Heap<i32, MinHeap> = Heap::new(sample());
    heap.sort();
    assert_eq!(heap.buffer(), &vec![16, 14, 10, 9, 8, 7, 4, 3, 2, 1]);
    assert_eq!(heap.size(), 1);
    assert_eq!(heap.peek_root(), Some(&16));
    heap.build();
    assert_eq!(heap.peek_root(), Some(&1));
    assert!(is_min_heap(heap.buffer()));
}

#[test]
fn the_operations_of_either_orientation() {
    let mut heap: Heap<i32, MaxHeap> = Heap::new(sample());
    assert_eq!(heap.peek_root(), None);
    assert_eq!(heap.extract_root(), None);
    assert_eq!(heap.delete_at(0), None);
    heap.update_size();
    heap.heapify_down(1);
    assert_eq!(heap.buffer(), &vec![16, 14, 10, 8, 7, 9, 3, 2, 4, 1]);
    heap.heapify_down(10);
    heap.heapify_down(usize::MAX);
    assert_eq!(heap.buffer(), &vec![16, 14, 10, 8, 7, 9, 3, 2, 4, 1]);
    heap.build();
    assert_eq!(heap.peek_root(), Some(&16));
    assert_eq!(heap.extract_root(), Some(16));
    assert_eq!(heap.buffer(), &vec![14, 8, 10, 4, 7, 9, 3, 2, 1]);
    assert_eq!(heap.delete_at(8), Some(1));
    assert_eq!(heap.delete_at(8), None);
    heap.insert(11);
    assert_eq!(heap.buffer(), &vec![14, 11, 10, 8, 7, 9, 3, 2, 4]);
    assert!(is_max_heap(heap.buffer()));
    let mut heap: Heap<i32, MinHeap> = Heap::new(vec![5, 3, 8]);
    heap.build();
    assert_eq!(heap.extract_root(), Some(3));
    assert_eq!(heap.extract_root(), Some(5));
    assert_eq!(heap.extract_root(), Some(8));
    assert_eq!(heap.extract_root(), None);
}

#[test]
fn delete_puts_the_last_element_in_the_place() {
    let mut heap: Heap<i32, MaxHeap> = Heap::new(sample());
    heap.build_max_heap();
    assert_eq!(heap.delete_max(1), Some(14));
    assert_eq!(heap.buffer(), &vec![16, 1, 10, 8, 7, 9, 3, 2, 4]);
    heap.build_max_heap();
    assert!(is_max_heap(heap.buffer()));
    assert_eq!(heap.delete_max(3), Some(4));
    assert_eq!(heap.size(), 8);
}
