use alda::lcs::LongSubSequence;

#[test]
fn test_has_common_lcs() {
    let s1 = String::from("ACCGGTCGAGTGCGCGGAAGCCGGCCGAA");
    let s2 = String::from("GTCGTTCGGAATGCCGTTGCTCTGTAAA");
    let mut lcs = LongSubSequence::new(&s1, &s2);
    lcs.substr();
    assert_eq!(lcs.result().clone().unwrap(), "GTCGTCGGAAGCCGGCCGAA");
}

#[test]
fn test_one_empty_lcs() {
    let s1 = String::from("ACCGGTCGAGTGCGCGGAAGCCGGCCGAA");
    let s2 = String::new();
    let mut lcs = LongSubSequence::new(&s1, &s2);
    lcs.substr();
    assert_eq!(*lcs.result(), None);
}

#[test]
fn test_no_lcs() {
    let s1 = String::from("ACCGGTCGAGTGCGCGGAAGCCGGCCGAA");
    let s2 = String::from("ZKZKHPRSUVWHKQSZXOPLMNXYW");
    let mut lcs = LongSubSequence::new(&s1, &s2);
    lcs.substr();
    assert_eq!(*lcs.result(), None);
}

#[test]
fn test_empty_string() {
    let s1 = String::new();
    let s2 = String::new();
    let mut lcs = LongSubSequence::new(&s1, &s2);
    lcs.substr();
    assert_eq!(*lcs.result(), None);
}

#[test]
fn test_without_aux_common_lcs() {
    let s1 = String::from("ACCGGTCGAGTGCGCGGAAGCCGGCCGAA");
    let s2 = String::from("GTCGTTCGGAATGCCGTTGCTCTGTAAA");
    let mut lcs = LongSubSequence::new(&s1, &s2);
    lcs.substr_without_aux();
    assert_eq!(lcs.result().clone().unwrap(), "GTCGTCGGAAGCCGGCCGAA");
}

#[test]
fn test_memoize_length() {
    let s1 = String::from("ACCGGTCGAGTGCGCGGAAGCCGGCCGAA");
    let s2 = String::from("GTCGTTCGGAATGCCGTTGCTCTGTAAA");
    let lcs = LongSubSequence::new(&s1, &s2);
    let c = lcs.memoize_length().unwrap();
    assert_eq!(c[s1.len()][s2.len()], 20);
}

#[test]
fn tables_of_a_small_pair() {
    let lcs = LongSubSequence::new("ABCB", "BDCAB");
    let (lengths, marks) = lcs.length_with_aux().unwrap();
    assert_eq!(lengths.len(), 5);
    assert_eq!(*lengths[0], vec![0, 0, 0, 0, 0, 0]);
    assert_eq!(*lengths[1], vec![0, 0, 0, 0, 1, 1]);
    assert_eq!(*lengths[2], vec![0, 1, 1, 1, 1, 2]);
    assert_eq!(*lengths[3], vec![0, 1, 1, 2, 2, 2]);
    assert_eq!(*lengths[4], vec![0, 1, 1, 2, 2, 3]);
    assert_eq!(*marks[0], vec![' ', ' ', ' ', ' ', ' ', ' ']);
    assert_eq!(*marks[1], vec![' ', '>', '>', '>', '|', '<']);
    assert_eq!(*marks[4], vec![' ', '|', '>', '>', '>', '|']);
    let memo = lcs.memoize_length().unwrap();
    assert_eq!(memo[4][5], 3);
    assert_eq!(memo[0][5], -1);
    assert!(LongSubSequence::new("AB", "CD").length_with_aux().is_none());
    assert!(LongSubSequence::new("AB", "CD").memoize_length().is_none());
    assert!(LongSubSequence::new("", "CD").memoize_length().is_none());
}

#[test]
fn the_two_ways_back_may_differ() {
    let mut by_marks = LongSubSequence::new("ABCB", "BDCAB");
    by_marks.substr();
    assert_eq!(by_marks.result().clone().unwrap(), "BCB");
    let mut by_lengths = LongSubSequence::new("AB", "BA");
    by_lengths.substr_without_aux();
    assert_eq!(by_lengths.result().clone().unwrap(), "B");
    let mut by_marks = LongSubSequence::new("AB", "BA");
    by_marks.substr();
    assert_eq!(by_marks.result().clone().unwrap(), "A");
}
