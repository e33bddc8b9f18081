use alda::node_heap::{Heap, Kind, Node};

fn nodes(keys: &[isize]) -> Vec<Node<isize>> {
    keys.iter().map(|&x| Node::new(x)).collect()
}

#[test]
fn test_min() {
    let mut h = Heap::from(nodes(&[1, -9, 11, -3, 0, 7]), Kind::Min);
    assert_eq!(h.min(), Some(Node { key: -9 }));
    h.sort();
    assert_eq!(h.min(), Some(Node { key: -9 }));
}

#[test]
fn test_min_max_heap() {
    let mut h = Heap::from(nodes(&[1, -9, 11, -3, 0, 7]), Kind::Max);
    assert_eq!(h.min(), Some(Node { key: -9 }));
    h.sort();
    assert_eq!(h.min(), Some(Node { key: -9 }));
}

#[test]
fn test_max() {
    let mut h = Heap::from(nodes(&[1, -21, 17, 0, 11, 4]), Kind::Min);

    assert_eq!(h.max(), Some(Node { key: 17 }));
    h.sort();
    assert_eq!(h.max(), Some(Node { key: 17 }));
}

#[test]
fn test_extract_max() {
    let mut h = Heap::from(nodes(&[-7, 9, 0, 3]), Kind::Min);

    let max = h.extract_max();
    assert_eq!(max, Some(Node { key: 9 }));
    assert_eq!(h.size, 3);
}

#[test]
fn extracting_from_a_max_heap_gives_descending_keys() {
    let mut h = Heap::from(nodes(&[4, 1, 9, 9, -2, 7, 0]), Kind::Max);
    let mut out = Vec::new();
    while let Some(node) = h.extract_max() {
        out.push(node.key);
    }
    assert_eq!(out, vec![9, 9, 7, 4, 1, 0, -2]);
    assert_eq!(h.size, 0);
    assert_eq!(h.max(), None);
    assert_eq!(h.min(), None);
}

#[test]
fn sorted_heaps_hand_out_their_largest_key() {
    let mut h = Heap::from(nodes(&[4, 1, 9, -2]), Kind::Max);
    h.sort();
    assert!(h.is_sorted);
    assert_eq!(h.extract_max(), Some(Node { key: 9 }));
    assert_eq!(h.max(), Some(Node { key: 4 }));
    assert_eq!(h.size, 3);
    let mut h = Heap::from(nodes(&[4, 1, 9, -2]), Kind::Min);
    h.sort();
    assert_eq!(h.extract_max(), Some(Node { key: 9 }));
    assert_eq!(h.max(), Some(Node { key: 4 }));
    assert_eq!(h.min(), Some(Node { key: -2 }));
}

#[test]
fn node_heap_increase_key() {
    let mut h = Heap::from(nodes(&[16, 14, 10, 8, 7, 9, 3, 2, 4, 1]), Kind::Max);
    assert_eq!(h.increase_key(3, 3), Err("new key smaller than current key"));
    assert_eq!(h.increase_key(15, 3), Ok(()));
    assert_eq!(h.max(), Some(Node { key: 16 }));
    assert_eq!(h.increase_key(25, 1), Ok(()));
    assert_eq!(h.max(), Some(Node { key: 25 }));
    assert_eq!(h.increase_key(99, 10), Err("position outside the heap"));
    assert_eq!(h.increase_key(99, usize::MAX), Err("position outside the heap"));
    assert_eq!(h.max(), Some(Node { key: 25 }));
    assert_eq!(h.size, 10);
}

#[test]
fn a_sorted_heap_is_a_heap_again_once_built() {
    let mut h = Heap::from(nodes(&[4, 1, 9, -2, 7]), Kind::Max);
    h.sort();
    assert!(h.is_sorted);
    h.build();
    assert!(!h.is_sorted);
    assert_eq!(h.max(), Some(Node { key: 9 }));
    assert_eq!(h.min(), Some(Node { key: -2 }));
    assert_eq!(h.extract_max(), Some(Node { key: 9 }));
    assert_eq!(h.extract_max(), Some(Node { key: 7 }));
    assert_eq!(h.size, 3);
    let mut h = Heap::from(nodes(&[4, 1, 9, -2, 7]), Kind::Min);
    h.sort();
    h.build();
    assert!(!h.is_sorted);
    assert_eq!(h.min(), Some(Node { key: -2 }));
    assert_eq!(h.extract_max(), Some(Node { key: 9 }));
    assert_eq!(h.max(), Some(Node { key: 7 }));
    let mut e: Heap<isize> = Heap::new(Kind::Max);
    assert_eq!(e.increase_key(1, 0), Err("position outside the heap"));
}

#[test]
fn empty_node_heap() {
    let mut h: Heap<isize> = Heap::new(Kind::Max);
    h.build();
    assert_eq!(h.size, 0);
    assert_eq!(h.extract_max(), None);
    let mut e: Heap<isize> = Heap::from(Vec::new(), Kind::Min);
    assert_eq!(e.size, 0);
    assert_eq!(e.min(), None);
    e.sort();
    assert_eq!(e.extract_max(), None);
}
