//! An iterator over the Fibonacci numbers.

use vstd::prelude::*;

verus! {

/// The Fibonacci numbers, starting 1, 1, 2, 3, 5, ...
pub open spec fn spec_fib(k: nat) -> nat
    decreases k,
{
    if k <= 1 {
        1
    } else {
        spec_fib((k - 1) as nat) + spec_fib((k - 2) as nat)
    }
}

/// An iterator over the fibonacci numbers.
#[derive(Debug, Copy, Clone)]
pub struct Fibonacci {
    first: usize,
    second: usize,
}

impl Fibonacci {
    /// The next number this iterator will produce.
    pub closed spec fn spec_first(&self) -> usize {
        self.first
    }

    /// The number this iterator will produce after the next one.
    pub closed spec fn spec_second(&self) -> usize {
        self.second
    }

    /// The iterator holds the `k`-th and the following Fibonacci number.
    pub open spec fn tracks(&self, k: nat) -> bool {
        self.spec_first() == spec_fib(k) && self.spec_second() == spec_fib(k + 1)
    }

    /// Create a new fibonacci
    pub fn new() -> (r: Fibonacci)
        ensures
            r.spec_first() == 1,
            r.spec_second() == 1,
    {
        Self::default()
    }

    /// Produce the next number and advance the pair the iterator holds.
    pub fn next(&mut self) -> (r: Option<usize>)
        requires
            old(self).spec_first() + old(self).spec_second() <= usize::MAX,
        ensures
            r == Some(old(self).spec_first()),
            final(self).spec_first() == old(self).spec_second(),
            final(self).spec_second() == old(self).spec_first() + old(self).spec_second(),
    {
        let ret = self.first;
        self.first = self.second;
        self.second = ret + self.first;
        Some(ret)
    }
}

impl Default for Fibonacci {
    fn default() -> (r: Fibonacci)
        ensures
            r.spec_first() == 1,
            r.spec_second() == 1,
    {
        Fibonacci { first: 1, second: 1 }
    }
}

/// A fresh iterator holds the first two Fibonacci numbers, and each call of
/// `next` moves the pair it holds one place along the sequence.
pub proof fn lemma_fib_tracking(pre: Fibonacci, post: Fibonacci, k: nat)
    requires
        pre.tracks(k),
        post.spec_first() == pre.spec_second(),
        post.spec_second() == pre.spec_first() + pre.spec_second(),
    ensures
        post.tracks(k + 1),
{
}

} // verus!
