use learn_rs::my_lib::{mul2, mul21, sum2};

#[test]
fn test_sum2() {
    let a: i32 = 3;
    let b: i32 = 4;
    let s1: i32 = sum2(a, b);

    assert_eq!(s1, 7);
}

#[test]
fn test_mul2() {
    let a: i32 = 3;
    let b: i32 = 4;
    let m1: i32 = mul2(a, b);

    assert_eq!(m1, 12);
}

#[test]
fn mul21_test() {
    assert_eq!(mul21(8, 4), 32);
}
