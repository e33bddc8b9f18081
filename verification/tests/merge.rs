use alda::merge_all_into;
use alda::Container;

#[test]
fn merge_sorted_list() {
    let list = &[
        &Container::new(vec![1, 3, 5, 7]),
        &Container::new(vec![-12, -11, -10, -9, 0]),
        &Container::new(vec![2, 4, 6, 8]),
    ];

    let merge = merge_all_into(list);
    assert_eq!(
        merge,
        Container::new(vec![-12, -11, -10, -9, 0, 1, 2, 3, 4, 5, 6, 7, 8])
    )
}

#[test]
fn merge_of_nothing_is_empty() {
    let none: [&Container<i64>; 0] = [];
    assert_eq!(merge_all_into(&none), Container::new(vec![]));
    let empty = Container::new(vec![]);
    assert_eq!(merge_all_into(&[&empty, &empty]), Container::new(vec![]));
}

#[test]
fn merge_skips_empty_sources_and_keeps_duplicates() {
    let a = Container::new(vec![1, 1, 4]);
    let b = Container::new(vec![]);
    let c = Container::new(vec![1, 2, 2, 9]);
    let d = Container::new(vec![0]);
    let merged = merge_all_into(&[&a, &b, &c, &d]);
    assert_eq!(merged, Container::new(vec![0, 1, 1, 1, 2, 2, 4, 9]));
    assert_eq!(merged.len(), a.len() + b.len() + c.len() + d.len());
}

#[test]
fn merge_of_many_sources_is_ascending() {
    let mut sources = Vec::new();
    for s in 0..9i64 {
        let mut data = Vec::new();
        for k in 0..7i64 {
            data.push((k * 13 + s * 5) % 31 + k * 31);
        }
        sources.push(Container::new(data));
    }
    let refs: Vec<&Container<i64>> = sources.iter().collect();
    let merged = merge_all_into(&refs);
    let mut expected: Vec<i64> = sources.iter().flat_map(|c| c.inner().to_vec()).collect();
    expected.sort();
    assert_eq!(merged.inner(), &expected[..]);
}

#[test]
fn container_basics() {
    let mut container = Container::new(vec![3, 1, 2]);
    assert!(!container.is_empty());
    assert_eq!(container.len(), 3);
    container.swap(0, 2);
    assert_eq!(container.inner(), &[2, 1, 3]);
    let mut iter = container.iter();
    assert_eq!(iter.next(), Some(&2));
    assert_eq!(iter.next(), Some(&1));
    assert_eq!(iter.next(), Some(&3));
    assert_eq!(iter.next(), None);
    assert!(Container::<i32>::default().is_empty());
    assert_eq!(container[0], 2);
    assert_eq!(container[2], 3);
}

#[test]
fn merge_of_sources_out_of_order_follows_the_heap() {
    let first = Container::new(vec![3, 1]);
    let second = Container::new(vec![2]);
    let merge = merge_all_into(&[&first, &second]);
    assert_eq!(merge, Container::new(vec![2, 3, 1]));
}
