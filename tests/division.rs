use dec2bin::decimal::{decimal_vec_div2, is_zero};

#[test]
fn vector_div2_works() {
    let v = vec![1_u8, 2, 3, 4, 5];
    let (rv, rm) = decimal_vec_div2(&v);
    assert_eq!(rv, vec![6, 1, 7, 2], "invalid div result");
    assert_eq!(rm, 1, "invalid div remainder");
}

#[test]
fn vector_div2_0() {
    let (rv, rm) = decimal_vec_div2(&vec![]);
    assert_eq!(rv, vec![0]);
    assert_eq!(rm, 0);
}

#[test]
fn vector_div2_1() {
    let (rv, rm) = decimal_vec_div2(&vec![1]);
    assert_eq!(rv, vec![0]);
    assert_eq!(rm, 1);
}

#[test]
fn vector_div2_other() {
    let (rv, rm) = decimal_vec_div2(&vec![1, 0, 1]);
    assert_eq!(rv, vec![5, 0]);
    assert_eq!(rm, 1);
}

#[test]
fn div2_keeps_value_and_drops_leading_zeros() {
    // 2 * value(Q) + r == value(D), for a few inputs including leading zeros
    let (rv, rm) = decimal_vec_div2(&[0, 0, 7]);
    assert_eq!(rv, vec![3]);
    assert_eq!(rm, 1);
    let (rv, rm) = decimal_vec_div2(&[0, 0]);
    assert_eq!(rv, vec![0]);
    assert_eq!(rm, 0);
    let (rv, rm) = decimal_vec_div2(&[2, 0, 0]);
    assert_eq!(rv, vec![1, 0, 0]);
    assert_eq!(rm, 0);
    let (rv, rm) = decimal_vec_div2(&[9, 9, 9, 9]);
    assert_eq!(rv, vec![4, 9, 9, 9]);
    assert_eq!(rm, 1);
}

#[test]
fn div2_of_a_large_number() {
    // 18446744073709551617 = 2^64 + 1
    let d: Vec<u8> = "18446744073709551617".bytes().map(|b| b - b'0').collect();
    let (rv, rm) = decimal_vec_div2(&d);
    let q: Vec<u8> = "9223372036854775808".bytes().map(|b| b - b'0').collect();
    assert_eq!(rv, q);
    assert_eq!(rm, 1);
}

#[test]
fn is_zero_only_for_single_zero() {
    assert!(is_zero(&[0]));
    assert!(!is_zero(&[]));
    assert!(!is_zero(&[0, 0]));
    assert!(!is_zero(&[1]));
}
