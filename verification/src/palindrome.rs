//! Palindromic numbers: numbers whose decimal digits read the same both ways.

use vstd::prelude::*;

verus! {

/// The decimal digits of `n`, least significant first. Zero has the single
/// digit `0`.
pub open spec fn spec_digits(n: nat) -> Seq<usize>
    decreases n,
{
    if n < 10 {
        seq![n as usize]
    } else {
        seq![(n % 10) as usize] + spec_digits(n / 10)
    }
}

/// A number is a palindrome when its digit sequence equals its own reverse.
pub open spec fn spec_is_palindrome(n: nat) -> bool {
    spec_digits(n) == spec_digits(n).reverse()
}

/// Check if a number is a palindrome.
pub fn is_palindrome(n: usize) -> (r: bool)
    ensures
        r == spec_is_palindrome(n as nat),
{
    let mut digits: Vec<usize> = Vec::new();
    let mut m: usize = n;

    while m >= 10
        invariant
            spec_digits(n as nat) =~= digits@ + spec_digits(m as nat),
        decreases m,
    {
        let ghost before = digits@;
        digits.push(m % 10);
        assert(digits@ + spec_digits((m / 10) as nat) =~= before + spec_digits(m as nat));
        m = m / 10;
    }
    digits.push(m);
    assert(digits@ =~= spec_digits(n as nat));

    let len = digits.len();
    let mut i: usize = 0;
    while i < len
        invariant
            0 <= i <= len,
            len == digits@.len(),
            digits@ == spec_digits(n as nat),
            forall|j: int| 0 <= j < i ==> #[trigger] digits@[j] == digits@[len - 1 - j],
        decreases len - i,
    {
        if digits[i] != digits[len - 1 - i] {
            assert(spec_digits(n as nat)[i as int] != spec_digits(n as nat).reverse()[i as int]);
            return false;
        }
        i = i + 1;
    }
    assert(digits@ =~= digits@.reverse());
    true
}

} // verus!
