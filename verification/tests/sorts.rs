use alda::sorts::Container;

fn samples() -> Vec<Vec<isize>> {
    vec![
        vec![],
        vec![7],
        vec![2, 1],
        vec![3, 11, 0, 7, -1, 9, 31],
        vec![5, 5, 5, 5],
        vec![9, 8, 7, 6, 5, 4, 3, 2, 1, 0],
        vec![3, -1, 3, 0, 12, -7, 3, 0, 44, 1, 1],
    ]
}

fn sorted(mut data: Vec<isize>) -> Vec<isize> {
    data.sort();
    data
}

#[test]
fn test_clrs_insertion_sort_empty() {
    let mut c: Container<&[i32]> = Container::new(&mut []);
    c.clrs_insertion_sort();
    assert!(c.is_empty())
}

#[test]
fn test_merge() {
    let mut xs = vec![5, -1, 3, 0, 4, 2];
    let mut c = Container(&mut xs);
    c.clrs_merge(1, 3, 4);
    assert_eq!(c.0, [5, -1, 0, 3, 4, 2]);
}

#[test]
fn insertion_sorts_of_samples() {
    for data in samples() {
        let want = sorted(data.clone());
        let mut xs = data.clone();
        Container::new(&mut xs).clrs_insertion_sort();
        assert_eq!(xs, want);
        let mut xs = data.clone();
        Container::new(&mut xs).insertion_sort();
        assert_eq!(xs, want);
        let mut xs = data.clone();
        Container::new(&mut xs).reverse_insertion_sort();
        let mut down = want.clone();
        down.reverse();
        assert_eq!(xs, down);
        let mut xs = data.clone();
        let n = xs.len();
        Container::new(&mut xs).recursive_insort(n);
        assert_eq!(xs, want);
    }
}

#[test]
fn selection_merge_and_quick_sorts_of_samples() {
    for data in samples() {
        let want = sorted(data.clone());
        let n = data.len();
        let mut xs = data.clone();
        Container::new(&mut xs).selection_sort();
        assert_eq!(xs, want);
        let mut xs = data.clone();
        Container::new(&mut xs).mergesort(0, n);
        assert_eq!(xs, want);
        let mut xs = data.clone();
        Container::new(&mut xs).qsort(0, n);
        assert_eq!(xs, want);
    }
}

#[test]
fn merge_of_halves_and_partition() {
    let mut xs = vec![9, 1, 4, 6, 2, 3, 8, 0];
    let mut c = Container::new(&mut xs);
    c.merge(1, 7);
    assert_eq!(c.len(), 8);
    assert_eq!(xs, vec![9, 1, 2, 3, 4, 6, 8, 0]);
    let mut xs = vec![8, 1, 9, 3, 7, 5];
    let at = Container::new(&mut xs).partition(0, 6);
    assert_eq!(at, 2);
    assert_eq!(xs, vec![1, 3, 5, 8, 7, 9]);
}
