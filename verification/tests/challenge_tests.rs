use euler::prime_sum;
use euler::sum_square_difference;

#[test]
fn prime_sum_check() {
    let should_be = 17;
    let primes = euler::primes(10);
    println!("{:?}", primes);
    let got = prime_sum(10);
    assert_eq!(got, should_be);
}

#[test]
fn check_provided_sum_square() {
    let should_be = 2640;
    let got = sum_square_difference(10);
    assert_eq!(got, should_be);
}
