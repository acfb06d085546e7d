//! Greatest common divisors and lowest common multiples.

use vstd::prelude::*;
use vstd::arithmetic::div_mod::lemma_small_mod;
use vstd::arithmetic::div_mod::lemma_mod_self_0;
use vstd::arithmetic::div_mod::lemma_fundamental_div_mod;
use vstd::arithmetic::div_mod::lemma_add_mod_noop;
use vstd::arithmetic::div_mod::lemma_sub_mod_noop;
use vstd::arithmetic::div_mod::lemma_mul_mod_noop_left;
use vstd::arithmetic::div_mod::lemma_div_pos_is_pos;
use vstd::arithmetic::div_mod::lemma_div_by_multiple;
use vstd::arithmetic::div_mod::lemma_mod_multiples_basic;
use vstd::arithmetic::mul::lemma_mul_is_commutative;

verus! {

/// The greatest common divisor, by Euclid's recursion.
pub open spec fn spec_gcd(a: nat, b: nat) -> nat
    decreases b,
{
    if b == 0 {
        a
    } else {
        spec_gcd(b, a % b)
    }
}

/// The greatest common divisor does not depend on the order of its arguments.
pub proof fn lemma_gcd_comm(a: nat, b: nat)
    ensures
        spec_gcd(a, b) == spec_gcd(b, a),
{
    if a < b {
        lemma_small_mod(a, b);
        assert(spec_gcd(a, b) == spec_gcd(b, a % b));
    } else if b < a {
        lemma_small_mod(b, a);
        assert(spec_gcd(b, a) == spec_gcd(a, b % a));
    }
}

/// The greatest common divisor divides both of its arguments, and is zero
/// only when both arguments are zero.
pub proof fn lemma_gcd_divides(a: nat, b: nat)
    ensures
        spec_gcd(a, b) == 0 ==> a == 0 && b == 0,
        spec_gcd(a, b) != 0 ==> a % spec_gcd(a, b) == 0,
        spec_gcd(a, b) != 0 ==> b % spec_gcd(a, b) == 0,
    decreases b,
{
    if b == 0 {
        if a != 0 {
            lemma_mod_self_0(a as int);
            lemma_small_mod(0, a);
        }
    } else {
        let g = spec_gcd(b, a % b);
        lemma_gcd_divides(b, a % b);
        if g != 0 {
            // a == b * (a / b) + a % b, and g divides both summands.
            lemma_fundamental_div_mod(a as int, b as int);
            lemma_small_mod(0, g);
            lemma_mul_mod_noop_left(b as int, a as int / b as int, g as int);
            assert((b as int % g as int) * (a as int / b as int) == 0);
            assert((b as int * (a as int / b as int)) % g as int == 0);
            lemma_add_mod_noop(b as int * (a as int / b as int), (a % b) as int, g as int);
        }
    }
}

/// Every common divisor of the two arguments divides their greatest common
/// divisor.
pub proof fn lemma_gcd_is_greatest(a: nat, b: nat, d: nat)
    requires
        d != 0,
        a % d == 0,
        b % d == 0,
    ensures
        spec_gcd(a, b) % d == 0,
    decreases b,
{
    if b == 0 {
    } else {
        // a % b == a - b * (a / b), and d divides both terms.
        lemma_fundamental_div_mod(a as int, b as int);
        lemma_mul_mod_noop_left(b as int, a as int / b as int, d as int);
        lemma_sub_mod_noop(a as int, b as int * (a as int / b as int), d as int);
        lemma_small_mod(0, d);
        assert((a % b) % d == 0);
        lemma_gcd_is_greatest(b, a % b, d);
    }
}

/// The lowest common multiple of two positive numbers is a multiple of both.
pub proof fn lemma_lcm_is_common_multiple(a: nat, b: nat)
    requires
        a > 0,
        b > 0,
    ensures
        (a * b / spec_gcd(a, b)) % a == 0,
        (a * b / spec_gcd(a, b)) % b == 0,
{
    let ai = a as int;
    let bi = b as int;
    let g = spec_gcd(a, b) as int;
    lemma_gcd_divides(a, b);
    lemma_fundamental_div_mod(ai, g);
    lemma_fundamental_div_mod(bi, g);
    lemma_div_pos_is_pos(ai, g);
    lemma_div_pos_is_pos(bi, g);
    let aq = ai / g;
    let bq = bi / g;
    assert(ai == g * aq && bi == g * bq);

    assert(ai * bi == (aq * bi) * g && ai * bi == (ai * bq) * g) by (nonlinear_arith)
        requires
            ai == g * aq,
            bi == g * bq,
    ;
    lemma_div_by_multiple(aq * bi, g);
    lemma_div_by_multiple(ai * bq, g);
    assert(ai * bi / g == aq * bi && ai * bi / g == ai * bq);

    lemma_mod_multiples_basic(bq, ai);
    lemma_mul_is_commutative(ai, bq);
    lemma_mod_multiples_basic(aq, bi);
}

/// Calculate the greatest common divisor of two numbers.
pub fn greatest_common_divisor(a: usize, b: usize) -> (r: usize)
    ensures
        r == spec_gcd(a as nat, b as nat),
{
    let mut x: usize = if a <= b { a } else { b };
    let mut y: usize = if a <= b { b } else { a };
    proof {
        lemma_gcd_comm(a as nat, b as nat);
    }

    while y > 0
        invariant
            spec_gcd(x as nat, y as nat) == spec_gcd(a as nat, b as nat),
        decreases y,
    {
        let tmp = x;
        x = y;
        y = tmp % y;
    }
    x
}

/// Calculate the lowest common multiple of two numbers.
pub fn lowest_common_multiple(a: usize, b: usize) -> (r: usize)
    requires
        a > 0 || b > 0,
        a * b <= usize::MAX,
    ensures
        r == a as int * b as int / spec_gcd(a as nat, b as nat) as int,
{
    let g = greatest_common_divisor(a, b);
    proof {
        lemma_gcd_divides(a as nat, b as nat);
    }
    a * b / g
}

} // verus!
