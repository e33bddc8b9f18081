use alda::fib::Fib;

#[test]
fn test_fib() {
    let mut fib = Fib::new(5);
    fib.compute();
    assert_eq!(fib.value, Some(5));

    fib = Fib::new(6);
    fib.compute();
    assert_eq!(fib.value, Some(8));
}

#[test]
fn fib_of_small_ranks() {
    let expected = [0usize, 1, 1, 2, 3, 5, 8, 13, 21, 34, 55];
    for (rank, value) in expected.iter().enumerate() {
        let mut fib = Fib::new(rank);
        assert_eq!(fib.value, None);
        fib.compute();
        assert_eq!(fib.rank, rank);
        assert_eq!(fib.value, Some(*value));
    }
}
