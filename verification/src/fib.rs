//! Fibonacci numbers.

use std::collections::HashMap;
use vstd::prelude::*;

verus! {

/// The Fibonacci number of rank `n`: 0, 1, 1, 2, 3, 5, ...
pub open spec fn fib(n: nat) -> nat
    decreases n,
{
    if n == 0 {
        0
    } else if n == 1 {
        1
    } else {
        fib((n - 1) as nat) + fib((n - 2) as nat)
    }
}

/// The Fibonacci numbers do not fall as the rank grows.
pub proof fn lemma_fib_grows(i: nat, j: nat)
    requires
        i <= j,
    ensures
        fib(i) <= fib(j),
    decreases j,
{
    if i < j {
        if j >= 2 {
            lemma_fib_grows(i, (j - 1) as nat);
        }
    }
}

/// A rank and, once it is computed, the Fibonacci number of that rank.
pub struct Fib {
    /// The rank.
    pub rank: usize,
    /// The Fibonacci number of the rank, where it has been computed.
    pub value: Option<usize>,
}

impl Fib {
    /// Creates the rank `rank` without its number.
    pub fn new(rank: usize) -> (f: Self)
        ensures
            f.rank == rank,
            f.value is None,
    {
        Fib { rank, value: None }
    }

    /// Computes the Fibonacci number of the rank.
    pub fn compute(&mut self)
        requires
            fib(old(self).rank as nat) <= usize::MAX,
        ensures
            final(self).rank == old(self).rank,
            final(self).value == Some(fib(old(self).rank as nat) as usize),
    {
        broadcast use vstd::std_specs::hash::group_hash_axioms;

        let n = self.rank;
        let mut cache = HashMap::<usize, usize>::new();
        cache.insert(0, 0);
        cache.insert(1, 1);
        let mut i: usize = 1;
        while i < n
            invariant
                1 <= i,
                i <= n || n == 0,
                fib(n as nat) <= usize::MAX,
                forall|k: usize| k <= i ==> #[trigger] cache@.contains_key(k),
                forall|k: usize| #[trigger] cache@.contains_key(k) ==> cache@[k] == fib(k as nat),
            decreases n - i,
        {
            i += 1;
            proof {
                lemma_fib_grows(i as nat, n as nat);
            }
            let one: usize = i - 1;
            let two: usize = i - 2;
            assert(cache@.contains_key(one) && cache@.contains_key(two));
            let next = *cache.get(&one).unwrap() + *cache.get(&two).unwrap();
            cache.insert(i, next);
        }
        assert(cache@.contains_key(n));
        self.value = Some(*cache.get(&n).unwrap());
    }
}

} // verus!
