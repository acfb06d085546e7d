//! Miscellaneous functions and structs for working with prime numbers.

use vstd::prelude::*;
use vstd::arithmetic::div_mod::lemma_fundamental_div_mod;
use vstd::arithmetic::div_mod::lemma_mod_multiples_basic;
use vstd::arithmetic::div_mod::lemma_div_pos_is_pos;
use vstd::arithmetic::mul::lemma_mul_inequality;
use vstd::arithmetic::mul::lemma_mul_is_commutative;
use vstd::arithmetic::mul::lemma_mul_basics;
use vstd::arithmetic::mul::lemma_mul_is_associative;
use vstd::arithmetic::mul::lemma_mul_is_distributive_add;

verus! {

/// A number is prime when it is at least two and none of the numbers from
/// two up to it divides it.
pub open spec fn spec_is_prime(p: int) -> bool {
    p >= 2 && forall|d: int| 2 <= d < p ==> #[trigger] (p % d) != 0
}

/// `k` is a product of two factors, both at least two, the first below
/// `bound`.
pub open spec fn has_factor_below(k: int, bound: int) -> bool {
    exists|m: int, j: int| 2 <= m < bound && 2 <= j && #[trigger] (m * j) == k
}

/// For `k` up to `bound`, having such a factorization is the same as not
/// being prime.
pub proof fn lemma_factor_iff_composite(k: int, bound: int)
    requires
        2 <= k <= bound,
    ensures
        has_factor_below(k, bound) <==> !spec_is_prime(k),
{
    if has_factor_below(k, bound) {
        let (m, j) = choose|m: int, j: int| 2 <= m < bound && 2 <= j && #[trigger] (m * j) == k;
        lemma_mul_inequality(2, j, m);
        lemma_mul_is_commutative(j, m);
        assert(2 * m <= m * j);
        assert(m < k);
        lemma_mod_multiples_basic(j, m);
        assert(k % m == 0);
        assert(!spec_is_prime(k));
    }
    if !spec_is_prime(k) {
        let d = choose|d: int| 2 <= d < k && #[trigger] (k % d) == 0;
        lemma_fundamental_div_mod(k, d);
        let j = k / d;
        lemma_div_pos_is_pos(k, d);
        lemma_mul_is_commutative(d, j);
        lemma_mul_basics(d);
        assert(d * j == k);
        assert(j != 0);
        assert(j != 1);
        assert(2 <= d < bound && 2 <= j && d * j == k);
        assert(has_factor_below(k, bound));
    }
}

/// A multiple (by at least two) of a number that itself has a small
/// factorization has a factorization below that same number.
pub proof fn lemma_multiple_of_composite(i: int, j: int, k: int)
    requires
        has_factor_below(i, i),
        2 <= j,
        i * j == k,
    ensures
        has_factor_below(k, i),
{
    let (m0, j0) = choose|m0: int, j0: int| 2 <= m0 < i && 2 <= j0 && #[trigger] (m0 * j0) == i;
    lemma_mul_is_associative(m0, j0, j);
    assert(m0 * (j0 * j) == k);
    lemma_mul_inequality(2, j0, j);
    assert(2 * j <= j0 * j);
    assert(2 <= m0 < i && 2 <= j0 * j && m0 * (j0 * j) == k);
}

/// `k` is `i` times some factor at least two and below `j`.
pub open spec fn multiple_below(k: int, i: int, j: int) -> bool {
    exists|jj: int| 2 <= jj < j && #[trigger] (i * jj) == k
}

/// The sieve's marking invariant: entry `k` is still set exactly when `k` is
/// at least two and has no factorization whose first factor lies below
/// `bound`.
pub open spec fn marked_up_to(s: Seq<bool>, bound: int) -> bool {
    forall|k: int| 0 <= k < s.len() ==> (#[trigger] s[k] <==> (k >= 2 && !has_factor_below(
        k,
        bound,
    )))
}

/// A seive of Erosthenes. Modelled as a vector of bools where the index
/// indicates whether that number is prime or not.
#[derive(Debug)]
pub struct ErosthenesSeive {
    numbers: Vec<bool>,
}

impl ErosthenesSeive {
    /// The entries of the seive: entry `k` records whether `k` has survived
    /// the marking done so far.
    pub closed spec fn nums(&self) -> Seq<bool> {
        self.numbers@
    }

    /// Create a seive which will find primes up to and including `n`.
    pub fn new(n: usize) -> (r: ErosthenesSeive)
        requires
            n <= 10_000_000_000,
            n < usize::MAX,
        ensures
            r.nums().len() == n + 1,
            forall|k: int| 0 <= k <= n ==> r.nums()[k],
    {
        let mut numbers: Vec<bool> = Vec::new();
        let mut i: usize = 0;
        while i <= n
            invariant
                n < usize::MAX,
                i <= n + 1,
                numbers@.len() == i,
                forall|k: int| 0 <= k < i ==> numbers@[k],
            decreases n + 1 - i,
        {
            numbers.push(true);
            i = i + 1;
        }
        ErosthenesSeive { numbers }
    }

    /// Iterate through the seive, marking all composite numbers as false.
    pub fn solve(&mut self)
        requires
            2 <= old(self).nums().len(),
            old(self).nums().len() <= usize::MAX as int / 2,
            forall|k: int| 0 <= k < old(self).nums().len() ==> old(self).nums()[k],
        ensures
            final(self).nums().len() == old(self).nums().len(),
            forall|k: int|
                0 <= k < final(self).nums().len()
                    ==> (#[trigger] final(self).nums()[k] <==> spec_is_prime(k)),
    {
        let ghost glen: int = self.nums().len() as int;

        // Set 0 and 1 to false because they aren't prime
        self.numbers[0] = false;
        self.numbers[1] = false;

        assert forall|k: int| 0 <= k < glen implies (#[trigger] self.nums()[k] <==> (k >= 2
            && !has_factor_below(k, 2))) by {
            if has_factor_below(k, 2) {
                let (m, j) = choose|m: int, j: int|
                    2 <= m < 2 && 2 <= j && #[trigger] (m * j) == k;
                assert(false);
            }
        }
        assert(marked_up_to(self.nums(), 2));

        let mut i: usize = 2;
        while i < self.numbers.len()
            invariant
                self.nums().len() == glen,
                2 <= glen <= usize::MAX as int / 2,
                2 <= i <= glen,
                marked_up_to(self.nums(), i as int),
            decreases glen - i,
        {
            // Skip composite numbers; otherwise, mark the multiples of this
            // number as false.
            if self.numbers[i] {
                let mut j: usize = 2;
                proof {
                    assert(i * 2 == i + i) by (nonlinear_arith);
                    assert forall|k: int| 0 <= k < glen implies (#[trigger] self.nums()[k] <==> (k
                        >= 2 && !has_factor_below(k, i as int) && !multiple_below(
                        k,
                        i as int,
                        2,
                    ))) by {
                        if multiple_below(k, i as int, 2) {
                            let jj = choose|jj: int|
                                2 <= jj < 2 && #[trigger] (i as int * jj) == k;
                            assert(false);
                        }
                    }
                }

                while i * j < self.numbers.len()
                    invariant
                        self.nums().len() == glen,
                        2 <= glen <= usize::MAX as int / 2,
                        2 <= i < glen,
                        2 <= j,
                        i * j <= usize::MAX,
                        forall|k: int|
                            0 <= k < glen ==> (#[trigger] self.nums()[k] <==> (k >= 2
                                && !has_factor_below(k, i as int) && !multiple_below(
                                k,
                                i as int,
                                j as int,
                            ))),
                    decreases glen + i - i * j,
                {
                    let idx = i * j;
                    let ghost pre = self.nums();
                    self.numbers[idx] = false;

                    proof {
                        lemma_mul_is_distributive_add(i as int, j as int, 1);
                        assert(i as int * (j as int + 1) == i * j + i);
                        lemma_mul_inequality(1, i as int, j as int);
                        assert(j <= i * j);

                        assert forall|k: int| 0 <= k < glen implies (#[trigger] self.nums()[k]
                            <==> (k >= 2 && !has_factor_below(k, i as int) && !multiple_below(
                            k,
                            i as int,
                            j as int + 1,
                        ))) by {
                            if k == idx {
                                assert(i as int * (j as int) == k);
                                assert(multiple_below(k, i as int, j as int + 1));
                            } else {
                                assert(self.nums()[k] == pre[k]);
                                if multiple_below(k, i as int, j as int + 1) {
                                    let jj = choose|jj: int|
                                        2 <= jj < j as int + 1 && #[trigger] (i as int * jj) == k;
                                    assert(jj != j);
                                    assert(multiple_below(k, i as int, j as int));
                                }
                                if multiple_below(k, i as int, j as int) {
                                    let jj = choose|jj: int|
                                        2 <= jj < j as int && #[trigger] (i as int * jj) == k;
                                    assert(multiple_below(k, i as int, j as int + 1));
                                }
                            }
                        }
                    }
                    j = j + 1;
                }

                proof {
                    assert forall|k: int| 0 <= k < glen implies (#[trigger] self.nums()[k] <==> (k
                        >= 2 && !has_factor_below(k, i as int + 1))) by {
                        if has_factor_below(k, i as int + 1) {
                            let (m, jj) = choose|m: int, jj: int|
                                2 <= m < i as int + 1 && 2 <= jj && #[trigger] (m * jj) == k;
                            if m == i as int {
                                assert(jj < j) by (nonlinear_arith)
                                    requires
                                        i as int * jj == k,
                                        k < glen,
                                        glen <= i as int * j as int,
                                        i >= 2,
                                        jj >= 2,
                                ;
                                assert(multiple_below(k, i as int, j as int));
                            } else {
                                assert(has_factor_below(k, i as int));
                            }
                        }
                        if has_factor_below(k, i as int) {
                            let (m, jj) = choose|m: int, jj: int|
                                2 <= m < i as int && 2 <= jj && #[trigger] (m * jj) == k;
                            assert(has_factor_below(k, i as int + 1));
                        }
                        if multiple_below(k, i as int, j as int) {
                            let jj = choose|jj: int|
                                2 <= jj < j as int && #[trigger] (i as int * jj) == k;
                            assert(has_factor_below(k, i as int + 1));
                        }
                    }
                    assert(marked_up_to(self.nums(), i as int + 1));
                }
            } else {
                proof {
                    assert(has_factor_below(i as int, i as int));
                    assert forall|k: int| 0 <= k < glen implies (#[trigger] self.nums()[k] <==> (k
                        >= 2 && !has_factor_below(k, i as int + 1))) by {
                        if has_factor_below(k, i as int + 1) {
                            let (m, jj) = choose|m: int, jj: int|
                                2 <= m < i as int + 1 && 2 <= jj && #[trigger] (m * jj) == k;
                            if m == i as int {
                                lemma_multiple_of_composite(i as int, jj, k);
                            } else {
                                assert(has_factor_below(k, i as int));
                            }
                        }
                        if has_factor_below(k, i as int) {
                            let (m, jj) = choose|m: int, jj: int|
                                2 <= m < i as int && 2 <= jj && #[trigger] (m * jj) == k;
                            assert(has_factor_below(k, i as int + 1));
                        }
                    }
                    assert(marked_up_to(self.nums(), i as int + 1));
                }
            }
            i = i + 1;
        }

        proof {
            assert forall|k: int| 0 <= k < glen implies (#[trigger] self.nums()[k]
                <==> spec_is_prime(k)) by {
                if k >= 2 {
                    lemma_factor_iff_composite(k, glen);
                }
            }
        }
    }

    /// Get the contents of the seive.
    pub fn numbers(&self) -> (r: &[bool])
        ensures
            r@ == self.nums(),
    {
        self.numbers.as_slice()
    }

    /// Check if a number is prime, by looking its entry up. The answer is
    /// about the current entries: after `solve` it means primality.
    pub fn is_prime(&self, n: usize) -> (r: Result<bool, SeiveRangeError>)
        ensures
            n < self.nums().len() ==> r == Ok::<bool, SeiveRangeError>(self.nums()[n as int]),
            n >= self.nums().len() ==> r == Err::<bool, SeiveRangeError>(
                (SeiveRangeError { limit: self.nums().len() as usize, requested: n }),
            ),
    {
        if n < self.numbers.len() {
            Ok(self.numbers[n])
        } else {
            Err(SeiveRangeError { limit: self.numbers.len(), requested: n })
        }
    }
}

/// The primes up to and including `n`, in increasing order.
pub open spec fn spec_primes_up_to(n: int) -> Seq<usize>
    decreases n,
{
    if n < 2 {
        Seq::empty()
    } else if spec_is_prime(n) {
        spec_primes_up_to(n - 1).push(n as usize)
    } else {
        spec_primes_up_to(n - 1)
    }
}

/// Generate a vector of all the primes up to and including `n`.
pub fn primes(n: usize) -> (r: Vec<usize>)
    requires
        1 <= n,
        n <= 10_000_000_000,
        n + 1 <= usize::MAX as int / 2,
    ensures
        r@ == spec_primes_up_to(n as int),
{
    let mut seive = ErosthenesSeive::new(n);
    seive.solve();

    // Collect all prime numbers
    let mut v: Vec<usize> = Vec::new();
    let mut i: usize = 0;
    while i < seive.numbers.len()
        invariant
            seive.nums().len() == n + 1,
            n < usize::MAX,
            forall|k: int|
                0 <= k < seive.nums().len() ==> (#[trigger] seive.nums()[k] <==> spec_is_prime(k)),
            i <= n + 1,
            v@ == spec_primes_up_to(i as int - 1),
        decreases n + 1 - i,
    {
        if seive.numbers[i] {
            v.push(i);
        }
        assert(v@ == spec_primes_up_to(i as int));
        i = i + 1;
    }
    v
}

/// The list of primes up to `n` is strictly increasing, holds nothing but
/// primes at most `n`, and misses no prime at most `n`.
pub proof fn lemma_primes_up_to_correct(n: int)
    requires
        n <= usize::MAX,
    ensures
        forall|a: int, b: int|
            #![trigger spec_primes_up_to(n)[a], spec_primes_up_to(n)[b]]
            0 <= a < b < spec_primes_up_to(n).len()
                ==> spec_primes_up_to(n)[a] < spec_primes_up_to(n)[b],
        forall|a: int|
            0 <= a < spec_primes_up_to(n).len()
                ==> spec_is_prime(#[trigger] spec_primes_up_to(n)[a] as int)
                    && spec_primes_up_to(n)[a] <= n,
        forall|p: int|
            2 <= p <= n && spec_is_prime(p) ==> spec_primes_up_to(n).contains(p as usize),
    decreases n,
{
    if n >= 2 {
        lemma_primes_up_to_correct(n - 1);
        let s = spec_primes_up_to(n - 1);
        if spec_is_prime(n) {
            assert forall|p: int| 2 <= p <= n && spec_is_prime(p) implies spec_primes_up_to(
                n,
            ).contains(p as usize) by {
                if p == n {
                    assert(spec_primes_up_to(n)[s.len() as int] == n as usize);
                } else {
                    let a = choose|a: int| 0 <= a < s.len() && s[a] == p as usize;
                    assert(spec_primes_up_to(n)[a] == p as usize);
                }
            }
        } else {
            assert forall|p: int| 2 <= p <= n && spec_is_prime(p) implies spec_primes_up_to(
                n,
            ).contains(p as usize) by {
                let a = choose|a: int| 0 <= a < s.len() && s[a] == p as usize;
                assert(spec_primes_up_to(n)[a] == p as usize);
            }
        }
    }
}

/// The sum of a sequence of numbers.
pub open spec fn seq_sum(s: Seq<usize>) -> int
    decreases s.len(),
{
    if s.len() == 0 {
        0
    } else {
        seq_sum(s.drop_last()) + s.last()
    }
}

/// The sum of all the primes up to and including `n`.
pub open spec fn spec_prime_sum(n: int) -> int {
    seq_sum(spec_primes_up_to(n))
}

/// A prefix sum never exceeds the sum of the whole sequence.
proof fn lemma_seq_sum_prefix(s: Seq<usize>, j: int)
    requires
        0 <= j <= s.len(),
    ensures
        seq_sum(s.take(j)) <= seq_sum(s),
    decreases s.len() - j,
{
    if j == s.len() {
        assert(s.take(j) =~= s);
    } else {
        assert(s.take(j + 1).drop_last() =~= s.take(j));
        assert(s.take(j + 1).last() == s[j]);
        assert(seq_sum(s.take(j + 1)) == seq_sum(s.take(j)) + s[j]);
        lemma_seq_sum_prefix(s, j + 1);
    }
}

/// The sum of the primes up to `n` is never more than `n * n`: there are
/// fewer than `n` of them and each is at most `n`.
pub proof fn lemma_prime_sum_bound(n: int)
    requires
        0 <= n <= usize::MAX,
    ensures
        0 <= spec_prime_sum(n) <= n * n,
    decreases n,
{
    if n < 2 {
        assert(n * n >= 0) by (nonlinear_arith);
    } else {
        lemma_prime_sum_bound(n - 1);
        if spec_is_prime(n) {
            let s = spec_primes_up_to(n - 1);
            assert(s.push(n as usize).drop_last() =~= s);
            assert(s.push(n as usize).last() == n as usize);
            assert(seq_sum(s.push(n as usize)) == seq_sum(s) + n);
        }
        assert((n - 1) * (n - 1) + n <= n * n) by (nonlinear_arith)
            requires
                n >= 2,
        ;
    }
}

/// The sum of all the primes up to and including `n`.
pub fn prime_sum(n: usize) -> (r: usize)
    requires
        1 <= n,
        n <= 10_000_000_000,
        n + 1 <= usize::MAX as int / 2,
        n as int * n as int <= usize::MAX,
    ensures
        r == spec_prime_sum(n as int),
{
    let list = primes(n);
    let ghost s = spec_primes_up_to(n as int);
    proof {
        lemma_prime_sum_bound(n as int);
    }

    let mut total: usize = 0;
    let mut idx: usize = 0;
    while idx < list.len()
        invariant
            list@ == s,
            s == spec_primes_up_to(n as int),
            n as int * n as int <= usize::MAX,
            spec_prime_sum(n as int) <= n as int * n as int,
            idx <= list@.len(),
            total == seq_sum(s.take(idx as int)),
        decreases list@.len() - idx,
    {
        proof {
            assert(s.take(idx as int + 1).drop_last() =~= s.take(idx as int));
            assert(s.take(idx as int + 1).last() == s[idx as int]);
            lemma_seq_sum_prefix(s, idx as int + 1);
        }
        total = total + list[idx];
        idx = idx + 1;
    }
    proof {
        assert(s.take(list@.len() as int) =~= s);
    }
    total
}

/// The error returned when a number beyond the seive's range is looked up:
/// the seive holds entries for the numbers below `limit` only.
#[derive(Debug, Clone, Copy, PartialEq, Eq, Structural)]
pub struct SeiveRangeError {
    /// One past the largest number the seive has an entry for.
    pub limit: usize,
    /// The number whose entry was asked for.
    pub requested: usize,
}

} // verus!
