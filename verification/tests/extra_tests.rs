use euler::frontier_reduce;
use euler::greatest_common_divisor;
use euler::is_palindrome;
use euler::lowest_common_multiple;
use euler::parse_number;
use euler::prime_sum;
use euler::primes;
use euler::sum_square_difference;
use euler::ErosthenesSeive;
use euler::Fibonacci;
use euler::SeiveRangeError;

#[test]
fn single_digit_palindromes() {
    assert!(is_palindrome(0));
    assert!(is_palindrome(7));
    assert!(is_palindrome(9));
}

#[test]
fn two_digit_palindromes() {
    assert!(is_palindrome(11));
    assert!(!is_palindrome(10));
    assert!(!is_palindrome(21));
}

#[test]
fn largest_palindrome_of_two_digit_products() {
    // 9009 = 91 * 99 is the largest palindrome that is a product of two
    // two-digit numbers.
    let mut largest = 0;
    for i in 10..100 {
        for j in 10..100 {
            let n = i * j;
            if is_palindrome(n) && n > largest {
                largest = n;
            }
        }
    }
    assert_eq!(largest, 9009);
}

#[test]
fn gcd_with_zero() {
    assert_eq!(greatest_common_divisor(0, 5), 5);
    assert_eq!(greatest_common_divisor(5, 0), 5);
    assert_eq!(greatest_common_divisor(0, 0), 0);
}

#[test]
fn gcd_of_equal_numbers() {
    assert_eq!(greatest_common_divisor(12, 12), 12);
}

#[test]
fn gcd_of_coprime_numbers() {
    assert_eq!(greatest_common_divisor(35, 64), 1);
}

#[test]
fn lcm_with_zero() {
    assert_eq!(lowest_common_multiple(0, 5), 0);
}

#[test]
fn lcm_of_divisor_pair() {
    assert_eq!(lowest_common_multiple(4, 12), 12);
}

#[test]
fn smallest_number_divisible_by_one_to_ten() {
    let smallest = (1..=10).fold(1, lowest_common_multiple);
    assert_eq!(smallest, 2520);
}

#[test]
fn fib_starts_with_two_ones() {
    let mut fib = Fibonacci::new();
    assert_eq!(fib.next(), Some(1));
    assert_eq!(fib.next(), Some(1));
    assert_eq!(fib.next(), Some(2));
}

#[test]
fn fib_default_matches_new() {
    let mut a = Fibonacci::new();
    let mut b = Fibonacci::default();
    for _ in 0..20 {
        assert_eq!(a.next(), b.next());
    }
}

#[test]
fn tenth_fibonacci_number() {
    let mut fib = Fibonacci::new();
    let mut value = 0;
    for _ in 0..10 {
        value = fib.next().unwrap();
    }
    assert_eq!(value, 55);
}

#[test]
fn single_row_triangle() {
    assert_eq!(frontier_reduce(vec![vec![42]]), 42);
}

#[test]
fn two_row_triangle_takes_larger_branch() {
    assert_eq!(frontier_reduce(vec![vec![1], vec![2, 3]]), 4);
}

#[test]
fn triangle_with_equal_entries() {
    let triangle = vec![vec![5], vec![5, 5], vec![5, 5, 5]];
    assert_eq!(frontier_reduce(triangle), 15);
}

#[test]
fn sum_square_difference_of_one_is_zero() {
    assert_eq!(sum_square_difference(1), 0);
}

#[test]
fn sum_square_difference_of_hundred() {
    assert_eq!(sum_square_difference(100), 25164150);
}

#[test]
fn primes_up_to_one_is_empty() {
    assert_eq!(primes(1), Vec::<usize>::new());
}

#[test]
fn primes_up_to_two() {
    assert_eq!(primes(2), vec![2]);
}

#[test]
fn seive_error_reports_both_numbers() {
    let mut seive = ErosthenesSeive::new(5);
    seive.solve();
    let got = seive.is_prime(100);
    assert_eq!(
        got,
        Err(SeiveRangeError {
            limit: 6,
            requested: 100,
        })
    );
}

#[test]
fn seive_marks_zero_and_one_as_composite() {
    let mut seive = ErosthenesSeive::new(2);
    seive.solve();
    assert_eq!(seive.is_prime(0), Ok(false));
    assert_eq!(seive.is_prime(1), Ok(false));
    assert_eq!(seive.is_prime(2), Ok(true));
}

#[test]
fn parse_plain_numbers() {
    assert_eq!(parse_number("0".as_bytes()), Some(0));
    assert_eq!(parse_number("95".as_bytes()), Some(95));
    assert_eq!(parse_number("600851475143".as_bytes()), Some(600851475143));
}

#[test]
fn parse_keeps_leading_zeroes_harmless() {
    assert_eq!(parse_number("007".as_bytes()), Some(7));
}

#[test]
fn parse_rejects_empty_and_non_digits() {
    assert_eq!(parse_number("".as_bytes()), None);
    assert_eq!(parse_number("12a".as_bytes()), None);
    assert_eq!(parse_number("-3".as_bytes()), None);
    assert_eq!(parse_number("4 2".as_bytes()), None);
}

#[test]
fn parse_rejects_numbers_too_large() {
    assert_eq!(parse_number("99999999999999999999999".as_bytes()), None);
}

#[test]
fn parse_accepts_largest_number() {
    let max = format!("{}", usize::MAX);
    assert_eq!(parse_number(max.as_bytes()), Some(usize::MAX));
}

#[test]
fn prime_sum_of_two() {
    assert_eq!(prime_sum(2), 2);
}

#[test]
fn prime_sum_below_two_million() {
    let sum = prime_sum(1_999_999);
    assert_eq!(sum, 142913828922);
}
