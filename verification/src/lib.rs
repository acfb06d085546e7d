//! Utility functions for small numerical puzzles: greatest common divisors
//! and lowest common multiples, palindromic numbers, Fibonacci numbers, a
//! sieve of Erosthenes, and maximum path sums through triangles of numbers.

pub mod arith;
pub mod fib;
pub mod palindrome;
pub mod parse;
pub mod primes;
pub mod series;
pub mod triangle;

pub use arith::greatest_common_divisor;
pub use arith::lowest_common_multiple;
pub use fib::Fibonacci;
pub use palindrome::is_palindrome;
pub use parse::parse_number;
pub use primes::prime_sum;
pub use primes::primes;
pub use primes::ErosthenesSeive;
pub use primes::SeiveRangeError;
pub use series::sum_square_difference;
pub use triangle::frontier_reduce;
