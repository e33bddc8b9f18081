use alda::sort::Sort;
use alda::Container;

fn samples() -> Vec<Vec<i32>> {
    vec![
        vec![],
        vec![7],
        vec![2, 1],
        vec![-9, 0, 1, 3, 2],
        vec![5, 5, 5, 5],
        vec![9, 8, 7, 6, 5, 4, 3, 2, 1, 0],
        vec![3, -1, 3, 0, 12, -7, 3, 0, 44, 1, 1],
    ]
}

fn ascending(mut data: Vec<i32>) -> Vec<i32> {
    data.sort();
    data
}

fn descending(mut data: Vec<i32>) -> Vec<i32> {
    data.sort_by(|a, b| b.cmp(a));
    data
}

#[test]
fn rec_insertion_sort_ascending() {
    let mut container = Container::new(vec![-9, 0, 1, 3, 2]);
    let mut data = container.data.clone();
    data.sort();
    container.rec_insertion_sort();
    assert_eq!(Container { data }, container);
}

#[test]
fn quicksort() {
    let mut container = Container::new(vec![-9, 0, 1, 3, 2]);
    let mut data = container.data.clone();
    data.sort();
    container.quick_sort(0, data.len());
    assert_eq!(Container { data }, container);
}

#[test]
fn naive_insertion_sort_both_ways() {
    for data in samples() {
        let mut container = Container::new(data.clone());
        container.naive_insertion_sort(|a, b| a > b);
        assert_eq!(container.data, ascending(data.clone()));
        let mut container = Container::new(data.clone());
        container.naive_insertion_sort(|a, b| a < b);
        assert_eq!(container.data, descending(data));
    }
}

#[test]
fn insertion_sort_both_ways() {
    for data in samples() {
        let mut container = Container::new(data.clone());
        container.insertion_sort(|a, b| a > b);
        assert_eq!(container.data, ascending(data.clone()));
        let mut container = Container::new(data.clone());
        container.insertion_sort(|a, b| a < b);
        assert_eq!(container.data, descending(data));
    }
}

#[test]
fn selection_sort_both_ways() {
    for data in samples() {
        let mut container = Container::new(data.clone());
        container.selection_sort(|a, b| a < b);
        assert_eq!(container.data, ascending(data.clone()));
        let mut container = Container::new(data.clone());
        container.selection_sort(|a, b| a > b);
        assert_eq!(container.data, descending(data));
    }
}

#[test]
fn merge_sort_ascending() {
    for data in samples() {
        let mut container = Container::new(data.clone());
        container.merge_sort(0, data.len());
        assert_eq!(container.data, ascending(data));
    }
}

#[test]
fn merge_sort_of_a_range_leaves_the_rest() {
    let mut container = Container::new(vec![9, 8, 7, 6, 5, 4, 3]);
    container.merge_sort(2, 6);
    assert_eq!(container.data, vec![9, 8, 4, 5, 6, 7, 3]);
    container.merge_sort(3, 3);
    container.merge_sort(5, 2);
    assert_eq!(container.data, vec![9, 8, 4, 5, 6, 7, 3]);
}

#[test]
fn rec_insertion_sort_of_samples() {
    for data in samples() {
        let mut container = Container::new(data.clone());
        container.rec_insertion_sort();
        assert_eq!(container.data, ascending(data));
    }
}

#[test]
fn quick_sorts_of_samples() {
    for data in samples() {
        let mut container = Container::new(data.clone());
        container.quick_sort(0, data.len());
        assert_eq!(container.data, ascending(data.clone()));
        if !data.is_empty() {
            let mut container = Container::new(data.clone());
            container.randomize_quick_sort(0, data.len());
            assert_eq!(container.data, ascending(data));
        }
    }
}

#[test]
fn merge_and_partition() {
    let mut container = Container::new(vec![5, -1, 3, 0, 4, 2]);
    container.merge(1, 3, 5);
    assert_eq!(container.data, vec![5, -1, 0, 3, 4, 2]);
    let mut container = Container::new(vec![8, 1, 9, 3, 7, 5]);
    let at = container.partition(0, 6);
    assert_eq!(at, 2);
    assert_eq!(container.data, vec![1, 3, 5, 8, 7, 9]);
}
