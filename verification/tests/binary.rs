#[test]
fn test_add_array_of_same_len() {
    let a = [1, 0, 1, 0];
    let b = [0, 0, 1, 0];
    let c = alda::binary::add(&a, &b);
    assert_eq!(c, vec![1, 0, 0, 1]);
}

#[test]
fn add_carries_into_a_new_digit() {
    let a = [1, 1, 0, 1, 0];
    let b = [0, 0, 1, 1, 0];
    assert_eq!(alda::binary::add(&a, &b), vec![1, 1, 1, 0, 1]);
    assert_eq!(alda::binary::add(&[1, 1], &[1, 1]), vec![0, 1, 1]);
    assert_eq!(alda::binary::add(&[], &[]), Vec::<u8>::new());
}
