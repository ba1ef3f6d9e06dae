use learn_rs::fibo::fibo;
use learn_rs::fibonacci::{fibonacci_iterative, fibonacci_recursive};

#[test]
fn fibo_test() {
    let s = [0, 1, 1, 2, 3, 5, 8, 13, 21, 34, 55];
    let r: Vec<_> = (0..s.len()).map(|n| fibo(n as u32)).collect();
    assert_eq!(&s[..], &r[..]);
}

#[test]
fn fibonacci_recursive_test() {
    let s = [0, 1, 1, 2, 3, 5, 8, 13, 21, 34, 55];
    let r: Vec<_> = (0..s.len()).map(|n| fibonacci_recursive(n as u32)).collect();
    assert_eq!(r, s);
}

#[test]
fn fibonacci_iterative_test() {
    let s = [0, 1, 1, 2, 3, 5, 8, 13, 21, 34, 55];
    let r: Vec<_> = (0..s.len()).map(|n| fibonacci_iterative(n as u32)).collect();
    assert_eq!(r, s);
}

#[test]
fn fibonacci_largest_u32_argument() {
    assert_eq!(fibonacci_iterative(47), 2971215073);
    assert_eq!(fibonacci_recursive(30), fibonacci_iterative(30));
}
