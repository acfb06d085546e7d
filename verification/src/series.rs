//! Sums of the first natural numbers and of their squares.

use vstd::prelude::*;

verus! {

/// The sum 1 + 2 + ... + n.
pub open spec fn spec_sum(n: nat) -> nat
    decreases n,
{
    if n == 0 {
        0
    } else {
        spec_sum((n - 1) as nat) + n
    }
}

/// The sum 1*1 + 2*2 + ... + n*n.
pub open spec fn spec_sum_squares(n: nat) -> nat
    decreases n,
{
    if n == 0 {
        0
    } else {
        spec_sum_squares((n - 1) as nat) + n * n
    }
}

/// Twice the sum of the first `n` natural numbers is `n * (n + 1)`.
pub proof fn lemma_sum_closed_form(n: nat)
    ensures
        spec_sum(n) * 2 == n * (n + 1),
    decreases n,
{
    if n > 0 {
        lemma_sum_closed_form((n - 1) as nat);
        let s = spec_sum((n - 1) as nat);
        assert(spec_sum(n) * 2 == n * (n + 1)) by (nonlinear_arith)
            requires
                spec_sum(n) == s + n,
                s * 2 == (n - 1) * n,
                n >= 1,
        ;
    } else {
        assert(spec_sum(n) * 2 == n * (n + 1)) by (nonlinear_arith)
            requires
                n == 0,
                spec_sum(n) == 0,
        ;
    }
}

/// Both sums grow with their argument.
pub proof fn lemma_sums_monotonic(i: nat, n: nat)
    requires
        i <= n,
    ensures
        spec_sum(i) <= spec_sum(n),
        spec_sum_squares(i) <= spec_sum_squares(n),
    decreases n,
{
    if i < n {
        lemma_sums_monotonic(i, (n - 1) as nat);
    }
}

/// The sum of the squares never exceeds the square of the sum.
pub proof fn lemma_sum_squares_le_square_sum(n: nat)
    ensures
        spec_sum_squares(n) <= spec_sum(n) * spec_sum(n),
    decreases n,
{
    if n > 0 {
        lemma_sum_squares_le_square_sum((n - 1) as nat);
        let s = spec_sum((n - 1) as nat);
        assert((s + n) * (s + n) >= s * s + n * n) by (nonlinear_arith)
            requires
                s >= 0 && n >= 0,
        ;
        assert(spec_sum(n) * spec_sum(n) == (s + n) * (s + n));
    }
}

/// The difference between the square of the sum of the first `n` natural
/// numbers and the sum of their squares.
pub fn sum_square_difference(n: usize) -> (r: usize)
    requires
        spec_sum(n as nat) * spec_sum(n as nat) <= usize::MAX,
    ensures
        r == spec_sum(n as nat) * spec_sum(n as nat) - spec_sum_squares(n as nat),
{
    proof {
        lemma_sum_squares_le_square_sum(n as nat);
        if n > 0 {
            lemma_sums_monotonic(1, n as nat);
            let s = spec_sum(n as nat);
            assert(s <= s * s) by (nonlinear_arith)
                requires
                    s >= 1,
            ;
        }
    }

    let mut sum: usize = 0;
    let mut i: usize = 0;
    while i < n
        invariant
            i <= n,
            sum == spec_sum(i as nat),
            spec_sum(n as nat) <= usize::MAX,
        decreases n - i,
    {
        i = i + 1;
        proof {
            lemma_sums_monotonic(i as nat, n as nat);
        }
        sum = sum + i;
    }

    let sum_square = sum * sum;

    let mut square_sum: usize = 0;
    let mut j: usize = 0;
    while j < n
        invariant
            j <= n,
            square_sum == spec_sum_squares(j as nat),
            spec_sum_squares(n as nat) <= usize::MAX,
        decreases n - j,
    {
        j = j + 1;
        proof {
            lemma_sums_monotonic(j as nat, n as nat);
        }
        square_sum = square_sum + j * j;
    }

    proof {
        lemma_sum_squares_le_square_sum(n as nat);
    }
    sum_square - square_sum
}

} // verus!
