use euler::primes;
use euler::ErosthenesSeive;

#[test]
fn test_seive() {
    let mut seive = ErosthenesSeive::new(5);
    seive.solve();
    let should_be = vec![false, false, true, true, false, true];
    assert_eq!(seive.numbers(), should_be.as_slice());
}

#[test]
fn get_primes() {
    let should_be = vec![2, 3, 5, 7, 11, 13, 17, 19, 23];
    let got = primes(23);
    assert_eq!(got, should_be);
}

#[test]
fn seive_out_of_range() {
    let mut seive = ErosthenesSeive::new(5);
    seive.solve();

    // Check an invalid number
    let got = seive.is_prime(6);
    assert!(got.is_err());

    // Check a valid number
    let got = seive.is_prime(5);
    assert_eq!(got, Ok(true));
}
