use alda::rod::Rod;

#[test]
fn test_recursive_maximum() {
    let v = vec![0, 1, 5, 8, 9, 10, 17, 17, 20, 24, 30];
    let rod = Rod::new(&v);

    assert_eq!(rod.recursive_maximum(1), 1);
    assert_eq!(rod.recursive_maximum(2), 5);
    assert_eq!(rod.recursive_maximum(3), 8);
    assert_eq!(rod.recursive_maximum(4), 10);
    assert_eq!(rod.recursive_maximum(5), 13);
    assert_eq!(rod.recursive_maximum(6), 17);
    assert_eq!(rod.recursive_maximum(7), 18);
    assert_eq!(rod.recursive_maximum(8), 22);
    assert_eq!(rod.recursive_maximum(9), 25);
    assert_eq!(rod.recursive_maximum(10), 30);
}

#[test]
fn test_recursive_maximum_empty() {
    let v = vec![];
    let rod = Rod::new(&v);

    assert_eq!(rod.recursive_maximum(1), 0);
}

#[test]
fn test_memoized_maximum() {
    let v = vec![0, 1, 5, 8, 9, 10, 17, 17, 20, 24, 30];
    let rod = Rod::new(&v);

    assert_eq!(rod.maximum_with_memoization(1), 1);
    assert_eq!(rod.maximum_with_memoization(2), 5);
    assert_eq!(rod.maximum_with_memoization(3), 8);
    assert_eq!(rod.maximum_with_memoization(4), 10);
    assert_eq!(rod.maximum_with_memoization(5), 13);
    assert_eq!(rod.maximum_with_memoization(6), 17);
    assert_eq!(rod.maximum_with_memoization(7), 18);
    assert_eq!(rod.maximum_with_memoization(8), 22);
    assert_eq!(rod.maximum_with_memoization(9), 25);
    assert_eq!(rod.maximum_with_memoization(10), 30);
}

#[test]
fn test_list_size() {
    let v = vec![0, 1, 5, 8, 9, 10, 17, 17, 20, 24, 30];
    let rod = Rod::new(&v);

    assert_eq!(rod.list_size(1), [1]);
    assert_eq!(rod.list_size(2), [2]);
    assert_eq!(rod.list_size(3), [3]);
    assert_eq!(rod.list_size(4), [2, 2]);
    assert_eq!(rod.list_size(5), [2, 3]);
    assert_eq!(rod.list_size(6), [6]);
    assert_eq!(rod.list_size(7), [1, 6]);
    assert_eq!(rod.list_size(8), [2, 6]);
    assert_eq!(rod.list_size(9), [3, 6]);
    assert_eq!(rod.list_size(10), [10]);
}

#[test]
fn bottom_up_agrees_with_recursion() {
    let v = vec![0, 1, 5, 8, 9, 10, 17, 17, 20, 24, 30];
    let rod = Rod::new(&v);
    let expected = [0, 1, 5, 8, 10, 13, 17, 18, 22, 25, 30, 31, 35];
    for (size, best) in expected.iter().enumerate() {
        assert_eq!(rod.maximum_with_bottom_up(size), *best);
        assert_eq!(rod.recursive_maximum(size), *best);
    }
    assert_eq!(rod.list_size(0), Vec::<usize>::new());
    assert_eq!(rod.list_size(12), [2, 10]);
}

#[test]
fn cut_cost_is_paid_for_every_piece() {
    let v = vec![0, 1, 5, 8, 9, 10, 17, 17, 20, 24, 30];
    let rod = Rod::new(&v);
    assert_eq!(rod.maximum_with_cut_cost(0, 1), 0);
    assert_eq!(rod.maximum_with_cut_cost(1, 1), 0);
    assert_eq!(rod.maximum_with_cut_cost(2, 1), 4);
    assert_eq!(rod.maximum_with_cut_cost(4, 1), 8);
    assert_eq!(rod.maximum_with_cut_cost(10, 1), 29);
    assert_eq!(rod.maximum_with_cut_cost(10, 0), 30);
}
