use alda::search::{binsearch, linear, recursive_binsearch, Search};
use alda::Container;

#[test]
fn linear_searching_a_value_in_empty_container_return_none() {
    let container = Container::default();
    assert!(
        container.linear(4).is_none(),
        "empty container returned index"
    )
}

#[test]
fn linear_searching_existing_value_return_the_index() {
    let container = Container {
        data: vec![1, 2, 3, 4, 5],
    };
    assert_eq!(container.linear(3), Some(2), "failed to return the index");
}

#[test]
fn linear_searching_missing_value_return_none() {
    let container = Container {
        data: vec![1, 2, 3, 4, 5],
    };
    assert!(container.linear(7).is_none(), "failed to return the index");
}

#[test]
fn binsearch_missing_value_return_none() {
    let container = Container {
        data: vec![1, 2, 3, 4, 5],
    };
    assert!(
        container.binsearch(&7).is_none(),
        "failed to return the index"
    );
}

#[test]
fn binsearch_existing_value_return_the_index() {
    let container = Container {
        data: vec![1, 2, 3, 4, 5],
    };
    assert_eq!(
        container.binsearch(&3),
        Some(2),
        "failed to return the index"
    );
}

#[test]
fn rec_binsearch_existing_value_return_the_index() {
    let container = Container {
        data: vec![1, 2, 3, 4, 5],
    };
    assert_eq!(
        container.rec_binsearch(&3),
        Some(2),
        "failed to return the index"
    );
}

#[test]
fn test_linear_search_str() {
    let s = ["foo", "bar"];
    let item = &"spam";
    assert_eq!(linear(&s, item), None)
}

#[test]
fn test_binsearch_str() {
    let s = ["foo", "bar", "foobar"];
    let item = &"foobar";
    assert_eq!(linear(&s, item), Some(2))
}

#[test]
fn linear_returns_the_first_of_equal_elements() {
    assert_eq!(linear(&[4, 7, 7, 7], &7), Some(1));
    assert_eq!(linear::<i32>(&[], &7), None);
}

#[test]
fn binsearch_finds_every_element_and_no_other() {
    let c = [-9, -1, 0, 7, 11, 40];
    for (i, x) in c.iter().enumerate() {
        assert_eq!(binsearch(&c, x), Some(i));
        assert_eq!(recursive_binsearch(&c, x), Some(i));
    }
    for x in [-10, -5, 1, 8, 12, 41] {
        assert_eq!(binsearch(&c, &x), None);
        assert_eq!(recursive_binsearch(&c, &x), None);
    }
    assert_eq!(binsearch::<i32>(&[], &1), None);
    assert_eq!(recursive_binsearch::<i32>(&[], &1), None);
}

#[test]
fn test_maximum_cross_array() {
    let a = &[9, -1, 2, 9, -11, -3, 4, 9, -2];
    assert_eq!(
        alda::search::find_maximum_cross_subarray(a, 0, a.len() / 2, a.len()),
        (0, 7, 18)
    )
}

#[test]
fn test_recursive_find_maximum_subarray() {
    let a = &[9, -1, 2, 9, -11, -3, 4, 9, -2];
    assert_eq!(
        alda::search::recursive_find_maximum_subarray(a, 0, 6),
        (0, 3, 19)
    )
}

#[test]
fn maximum_subarrays_of_a_whole_array() {
    let a = &[-99, -1, 2, 9, -11, -3, 4, 89, -2];
    assert_eq!(
        alda::search::recursive_find_maximum_subarray(a, 0, a.len()),
        (6, 7, 93)
    );
    assert_eq!(alda::search::brute_force_maximum_subarray(a), (6, 7, 93));
    assert_eq!(alda::search::find_maximum_subarray(a), (6, 7, 93));
    assert_eq!(alda::search::find_maximum_subarray(&[-4]), (0, 0, -4));
}

#[test]
fn binsearch_halves_whatever_the_order() {
    let c = [1, -1, 9, 0];
    assert_eq!(binsearch(&c, &9), Some(2));
    assert_eq!(binsearch(&c, &2), None);
    assert_eq!(recursive_binsearch(&c, &9), Some(2));
    assert_eq!(recursive_binsearch(&c, &2), None);
    assert_eq!(binsearch(&c, &1), None);
    assert_eq!(binsearch(&c, &0), None);
    assert_eq!(binsearch(&c, &-1), Some(1));
    let a = [-9, -1, 0, 7];
    assert_eq!(recursive_binsearch(&a, &8), None);
    assert_eq!(recursive_binsearch(&a, &0), Some(2));
    let container = Container::new(vec![1, -1, 9, 0]);
    assert_eq!(container.binsearch(&9), Some(2));
    assert_eq!(container.rec_binsearch(&-1), Some(1));
}
