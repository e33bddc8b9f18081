use alda::bits::BitArray;

#[test]
fn add_two_bit_array_with_result_of_same_length() {
    let arr1 = BitArray([0, 1, 0, 1, 1]);
    let arr2 = BitArray([0, 1, 0, 1, 1]);
    let res = arr1.add(arr2);
    assert_eq!(res, BitArray([1, 0, 1, 1, 0]))
}

#[test]
fn add_two_bit_array_with_result_of_larger_length() {
    let arr1 = BitArray([1, 1, 1, 1, 1]);
    let arr2 = BitArray([0, 1, 0, 1, 1]);
    let res = arr1.add(arr2);
    assert_eq!(res, BitArray([1, 0, 1, 0, 1, 0]))
}

#[test]
fn a_carry_into_an_array_of_the_same_length_loses_the_last_digit() {
    let res: BitArray<3> = BitArray([1, 1, 1]).add(BitArray([0, 0, 1]));
    assert_eq!(res, BitArray([1, 0, 0]));
    let res: BitArray<3> = BitArray([1, 1, 1]).add(BitArray([1, 1, 1]));
    assert_eq!(res, BitArray([1, 1, 1]));
    let res: BitArray<5> = BitArray([0, 1, 1]).add(BitArray([0, 0, 1]));
    assert_eq!(res, BitArray([1, 0, 0, 0, 0]));
    let res: BitArray<0> = BitArray([]).add(BitArray([]));
    assert_eq!(res, BitArray([]));
}
