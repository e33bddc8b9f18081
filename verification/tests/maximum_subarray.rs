use alda::maximum_subarray::MaxSubarray;
use alda::Container;
use std::ops::Range;

#[test]
fn find_maximum_crossing_subarray() {
    let container = Container::new(vec![1, -2, 3, 1, -3, 7, 3]);
    let value = container.find_max_crossing_subarray(0, 3, 7);
    assert_eq!(
        Some(MaxSubarray {
            range: Range { start: 2, end: 6 },
            sum: 11
        }),
        value
    )
}

#[test]
fn find_maximum_subarray() {
    let container = Container::new(vec![1, -2, 3, 1, -3, 7, 3]);
    let value = container.find_max_subarray(0, 7);
    assert_eq!(
        Some(MaxSubarray {
            range: Range { start: 2, end: 6 },
            sum: 11
        }),
        value
    )
}

#[test]
fn brute_force_maximum_subarray() {
    let container = Container::new(vec![1, -2, 3, 1, -3, 7, 3]);
    let value = container.brute_force_max_subarray(0, 7);
    assert_eq!(
        Some(MaxSubarray {
            range: Range { start: 2, end: 6 },
            sum: 11
        }),
        value
    )
}

#[test]
fn iteratively_find_maximum_subarray() {
    let container = Container::new(vec![1, -2, 3, 1, -3, 7, 3]);
    let value = container.iteratively_find_max_subarray(0, 7);
    assert_eq!(
        Some(MaxSubarray {
            range: Range { start: 2, end: 6 },
            sum: 11
        }),
        value
    )
}

#[test]
fn the_three_searches_find_the_same_run() {
    let container = Container::new(vec![-99, -1, 2, 9, -11, -3, 4, 89, -2]);
    let halving = container.find_max_subarray(0, 9).unwrap();
    let trying = container.brute_force_max_subarray(0, 9).unwrap();
    let passing = container.iteratively_find_max_subarray(0, 9).unwrap();
    for run in [halving, trying, passing] {
        assert_eq!(run.sum, 93);
        assert_eq!(run.range, Range { start: 6, end: 7 });
    }
    let crossing = container.find_max_crossing_subarray(0, 4, 9).unwrap();
    assert_eq!(crossing.sum, 90);
    assert_eq!(crossing.range, Range { start: 2, end: 7 });
}

#[test]
fn runs_of_negative_elements_and_of_one_element() {
    let container = Container::new(vec![-5, -2, -8]);
    assert_eq!(container.find_max_subarray(0, 3).unwrap().sum, -2);
    assert_eq!(container.brute_force_max_subarray(0, 3).unwrap().sum, -2);
    assert_eq!(container.iteratively_find_max_subarray(0, 3).unwrap().sum, -2);
    assert_eq!(container.find_max_subarray(2, 3).unwrap().range, Range { start: 2, end: 2 });
    let empty = Container::new(vec![]);
    assert_eq!(empty.find_max_subarray(0, 0), None);
    assert_eq!(empty.brute_force_max_subarray(0, 0), None);
    assert_eq!(empty.find_max_crossing_subarray(0, 0, 0), None);
    assert_eq!(empty.iteratively_find_max_subarray(0, 0).unwrap().sum, i64::MIN);
}
