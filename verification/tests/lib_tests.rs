use euler::frontier_reduce;
use euler::greatest_common_divisor;
use euler::is_palindrome;
use euler::lowest_common_multiple;
use euler::Fibonacci;

#[test]
fn frontier_reduce_using_sample() {
    let triangle = vec![vec![3], vec![7, 4], vec![2, 4, 6], vec![8, 5, 9, 3]];
    let should_be = 23;
    let got = frontier_reduce(triangle);
    assert_eq!(should_be, got);
}

#[test]
fn basic_fib() {
    let should_be = vec![1, 1, 2, 3, 5, 8, 13];
    let mut fib = Fibonacci::new();
    let mut got: Vec<usize> = vec![];
    for _ in 0..should_be.len() {
        got.push(fib.next().unwrap());
    }
    assert_eq!(got, should_be);
}

#[test]
fn odd_palindrome_check() {
    let n = 12321;
    assert!(is_palindrome(n));
}

#[test]
fn even_palindrome_check() {
    let n = 123321;
    assert!(is_palindrome(n));
}

#[test]
fn not_a_palindrome() {
    let n = 1234;
    assert!(!is_palindrome(n));
}

#[test]
fn basic_gcm() {
    let (a, b) = (10, 8);
    let should_be = 2;
    let got = greatest_common_divisor(a, b);
    assert_eq!(got, should_be);
}

#[test]
fn basic_lcm() {
    let a = 5;
    let b = 6;
    let should_be = 30;
    let got = lowest_common_multiple(a, b);
    assert_eq!(got, should_be);
}
