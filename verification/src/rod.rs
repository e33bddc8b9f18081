//! Cutting a rod into pieces so that the pieces sell for the most.
//!
//! `prices[i]` is the price of a piece of length `i`; the entry at 0 is not
//! used, and a piece that is longer than the list of prices cannot be sold.

use std::collections::HashMap;
use vstd::prelude::*;

verus! {

/// The most that a rod of length `n` sells for when its first piece is no
/// longer than `longest`.
pub open spec fn best_upto(prices: Seq<usize>, n: nat, longest: nat) -> nat
    decreases n, longest,
{
    if longest == 0 {
        0
    } else {
        let rest = best_upto(prices, n, (longest - 1) as nat);
        if longest <= n && longest < prices.len() {
            let cut = (prices[longest as int] + best_upto(
                prices,
                (n - longest) as nat,
                (n - longest) as nat,
            )) as nat;
            if cut > rest {
                cut
            } else {
                rest
            }
        } else {
            rest
        }
    }
}

/// The most that a rod of length `n` sells for.
pub open spec fn best(prices: Seq<usize>, n: nat) -> nat {
    best_upto(prices, n, n)
}

/// The length of the first piece of the best way to cut a rod of length `n`
/// when that piece is no longer than `longest`: the shortest such piece, and
/// 0 where the rod sells for nothing.
pub open spec fn first_cut_upto(prices: Seq<usize>, n: nat, longest: nat) -> nat
    decreases longest,
{
    if longest == 0 {
        0
    } else {
        let rest = best_upto(prices, n, (longest - 1) as nat);
        if longest <= n && longest < prices.len() && prices[longest as int] + best(
            prices,
            (n - longest) as nat,
        ) > rest {
            longest
        } else {
            first_cut_upto(prices, n, (longest - 1) as nat)
        }
    }
}

/// The length of the first piece of the best way to cut a rod of length `n`.
pub open spec fn first_cut(prices: Seq<usize>, n: nat) -> nat {
    first_cut_upto(prices, n, n)
}

/// The pieces of the best way to cut a rod of length `n`, the first piece
/// first.
pub open spec fn pieces(prices: Seq<usize>, n: nat) -> Seq<usize>
    decreases n,
{
    let cut = first_cut(prices, n);
    if n == 0 || cut == 0 || cut > n {
        Seq::empty()
    } else {
        Seq::empty().push(cut as usize) + pieces(prices, (n - cut) as nat)
    }
}

/// A longer first piece cannot make the rod sell for less, and a first piece
/// of length `i` makes it sell for at least its price and the best of the
/// rest.
pub proof fn lemma_best_upto(prices: Seq<usize>, n: nat, longest: nat, i: nat)
    requires
        i <= longest,
    ensures
        best_upto(prices, n, i) <= best_upto(prices, n, longest),
        1 <= i <= n && i < prices.len() ==> prices[i as int] + best(prices, (n - i) as nat)
            <= best_upto(prices, n, longest),
    decreases longest,
{
    if i < longest {
        lemma_best_upto(prices, n, (longest - 1) as nat, i);
    }
}

/// Pieces that are longer than the rod or than the list of prices do not
/// count.
pub proof fn lemma_best_capped(prices: Seq<usize>, n: nat, longest: nat, m: nat)
    requires
        m <= longest,
        m >= n || m + 1 >= prices.len(),
    ensures
        best_upto(prices, n, longest) == best_upto(prices, n, m),
        first_cut_upto(prices, n, longest) == first_cut_upto(prices, n, m),
    decreases longest,
{
    if m < longest {
        lemma_best_capped(prices, n, (longest - 1) as nat, m);
    }
}

/// A longer rod sells for no less.
pub proof fn lemma_best_grows(prices: Seq<usize>, m: nat, n: nat)
    requires
        m <= n,
    ensures
        best(prices, m) <= best(prices, n),
    decreases n,
{
    if m < n {
        lemma_best_grows(prices, m, (n - 1) as nat);
        if prices.len() >= 2 {
            lemma_best_upto(prices, n, n, 1);
        } else {
            lemma_best_capped(prices, n, n, 0);
            lemma_best_capped(prices, (n - 1) as nat, (n - 1) as nat, 0);
        }
    }
}

/// The first piece of a rod that sells for something is a piece of the rod
/// that has a price, and with the best of the rest it makes the best of the
/// rod.
pub proof fn lemma_first_cut(prices: Seq<usize>, n: nat, longest: nat)
    requires
        best_upto(prices, n, longest) > 0,
    ensures
        1 <= first_cut_upto(prices, n, longest) <= longest,
        first_cut_upto(prices, n, longest) <= n,
        first_cut_upto(prices, n, longest) < prices.len(),
        prices[first_cut_upto(prices, n, longest) as int] + best(
            prices,
            (n - first_cut_upto(prices, n, longest)) as nat,
        ) == best_upto(prices, n, longest),
    decreases longest,
{
    if longest > 0 {
        let rest = best_upto(prices, n, (longest - 1) as nat);
        if longest <= n && longest < prices.len() && prices[longest as int] + best(
            prices,
            (n - longest) as nat,
        ) > rest {
        } else {
            lemma_first_cut(prices, n, (longest - 1) as nat);
        }
    }
}

/// The most that a rod of length `n` earns when every piece costs `cost`
/// to cut off and the first piece is no longer than `longest`.
pub open spec fn net_upto(prices: Seq<usize>, cost: nat, n: nat, longest: nat) -> int
    decreases n, longest,
{
    if longest == 0 {
        0
    } else {
        let rest = net_upto(prices, cost, n, (longest - 1) as nat);
        if longest <= n && longest < prices.len() {
            let cut = prices[longest as int] + net_upto(
                prices,
                cost,
                (n - longest) as nat,
                (n - longest) as nat,
            ) - cost;
            if cut > rest {
                cut
            } else {
                rest
            }
        } else {
            rest
        }
    }
}

/// The most that a rod of length `n` earns when every piece costs `cost` to
/// cut off.
pub open spec fn net(prices: Seq<usize>, cost: nat, n: nat) -> int {
    net_upto(prices, cost, n, n)
}

/// What a rod of length `n` earns with a first piece of length `i`, before
/// the cost of cutting that piece off.
pub open spec fn with_piece(prices: Seq<usize>, cost: nat, n: nat, i: nat) -> int {
    prices[i as int] + net(prices, cost, (n - i) as nat)
}

/// No piece of a rod up to the length `size` earns less than it costs to
/// cut off, or more than can be counted.
pub open spec fn affordable(prices: Seq<usize>, cost: nat, size: nat) -> bool {
    forall|n: nat, i: nat|
        1 <= i <= n <= size && i < prices.len() ==> cost <= #[trigger] with_piece(
            prices,
            cost,
            n,
            i,
        ) <= usize::MAX
}

/// Pieces that are longer than the rod or than the list of prices do not
/// count, and what a rod earns is not negative.
pub proof fn lemma_net_capped(prices: Seq<usize>, cost: nat, n: nat, longest: nat, m: nat)
    requires
        m <= longest,
        m >= n || m + 1 >= prices.len(),
    ensures
        net_upto(prices, cost, n, longest) == net_upto(prices, cost, n, m),
        net_upto(prices, cost, n, longest) >= 0,
    decreases longest,
{
    if m < longest {
        lemma_net_capped(prices, cost, n, (longest - 1) as nat, m);
    } else {
        lemma_net_floor(prices, cost, n, m);
    }
}

/// What a rod earns is not negative.
pub proof fn lemma_net_floor(prices: Seq<usize>, cost: nat, n: nat, longest: nat)
    ensures
        net_upto(prices, cost, n, longest) >= 0,
    decreases longest,
{
    if longest > 0 {
        lemma_net_floor(prices, cost, n, (longest - 1) as nat);
    }
}

/// The prices of the pieces of a rod.
pub struct Rod<'a> {
    prices: &'a Vec<usize>,
}

/// Every entry of the cache is the best of its length.
pub open spec fn cached(prices: Seq<usize>, cache: Map<usize, usize>) -> bool {
    forall|k: usize| #[trigger] cache.contains_key(k) ==> cache[k] == best(prices, k as nat)
}

/// The most that a rod of length `size` sells for, by trying every first
/// piece and cutting the rest in the same way.
fn compute_maximum(prices: &Vec<usize>, size: usize) -> (max: usize)
    requires
        best(prices@, size as nat) <= usize::MAX,
    ensures
        max == best(prices@, size as nat),
    decreases size,
{
    let mut max: usize = 0;
    let mut i: usize = 1;
    while i < prices.len() && i <= size
        invariant
            1 <= i,
            i <= size + 1,
            i <= prices@.len() || prices@.len() == 0,
            best(prices@, size as nat) <= usize::MAX,
            max == best_upto(prices@, size as nat, (i - 1) as nat),
        decreases prices@.len() - i,
    {
        proof {
            lemma_best_upto(prices@, size as nat, size as nat, i as nat);
        }
        let rest = compute_maximum(prices, size - i);
        let cut = prices[i] + rest;
        if cut > max {
            max = cut;
        }
        i += 1;
    }
    proof {
        lemma_best_capped(prices@, size as nat, size as nat, (i - 1) as nat);
    }
    max
}

/// The most that a rod of length `size` sells for, looked up in the cache
/// or computed from shorter rods and written into it.
fn memoize_max(prices: &Vec<usize>, size: usize, cache: &mut HashMap<usize, usize>) -> (max: usize)
    requires
        best(prices@, size as nat) <= usize::MAX,
        cached(prices@, old(cache)@),
    ensures
        max == best(prices@, size as nat),
        cached(prices@, final(cache)@),
    decreases size,
{
    broadcast use vstd::std_specs::hash::group_hash_axioms;

    match cache.get(&size) {
        Some(known) => {
            return *known;
        },
        None => {},
    }
    let mut max: usize = 0;
    let mut i: usize = 1;
    while i < prices.len() && i <= size
        invariant
            1 <= i,
            i <= size + 1,
            i <= prices@.len() || prices@.len() == 0,
            best(prices@, size as nat) <= usize::MAX,
            cached(prices@, cache@),
            max == best_upto(prices@, size as nat, (i - 1) as nat),
        decreases prices@.len() - i,
    {
        proof {
            lemma_best_upto(prices@, size as nat, size as nat, i as nat);
        }
        let rest = memoize_max(prices, size - i, cache);
        let cut = prices[i] + rest;
        if cut > max {
            max = cut;
        }
        i += 1;
    }
    proof {
        lemma_best_capped(prices@, size as nat, size as nat, (i - 1) as nat);
    }
    cache.insert(size, max);
    max
}

impl<'a> Rod<'a> {
    /// The prices of the pieces.
    pub closed spec fn prices(&self) -> Seq<usize> {
        self.prices@
    }

    /// Creates a rod with the prices of its pieces.
    pub fn new(prices: &'a Vec<usize>) -> (rod: Rod<'a>)
        ensures
            rod.prices() == prices@,
    {
        Rod { prices }
    }

    /// The most that a rod of length `size` sells for, computed by
    /// recursion.
    pub fn recursive_maximum(&self, size: usize) -> (max: usize)
        requires
            best(self.prices(), size as nat) <= usize::MAX,
        ensures
            max == best(self.prices(), size as nat),
    {
        compute_maximum(self.prices, size)
    }

    /// The most that a rod of length `size` sells for, computed by
    /// recursion that remembers what it has computed.
    pub fn maximum_with_memoization(&self, size: usize) -> (max: usize)
        requires
            best(self.prices(), size as nat) <= usize::MAX,
        ensures
            max == best(self.prices(), size as nat),
    {
        let mut cache = HashMap::<usize, usize>::new();
        memoize_max(self.prices, size, &mut cache)
    }

    /// The most that a rod of length `size` sells for, computed for every
    /// length from 1 up to `size` in turn.
    pub fn maximum_with_bottom_up(&self, size: usize) -> (max: usize)
        requires
            best(self.prices(), size as nat) <= usize::MAX,
        ensures
            max == best(self.prices(), size as nat),
    {
        broadcast use vstd::std_specs::hash::group_hash_axioms;

        let prices = self.prices;
        let mut cache = HashMap::<usize, usize>::new();
        cache.insert(0, 0);
        let mut index: usize = 0;
        while index < size
            invariant
                index <= size,
                best(prices@, size as nat) <= usize::MAX,
                forall|k: usize| k <= index ==> #[trigger] cache@.contains_key(k),
                cached(prices@, cache@),
            decreases size - index,
        {
            index += 1;
            proof {
                lemma_best_grows(prices@, index as nat, size as nat);
            }
            let mut max: usize = 0;
            let mut ix: usize = 1;
            while ix < prices.len() && ix <= index
                invariant
                    1 <= ix,
                    1 <= index <= size,
                    ix <= index + 1,
                    ix <= prices@.len() || prices@.len() == 0,
                    best(prices@, index as nat) <= usize::MAX,
                    forall|k: usize| k < index ==> #[trigger] cache@.contains_key(k),
                    cached(prices@, cache@),
                    max == best_upto(prices@, index as nat, (ix - 1) as nat),
                decreases prices@.len() - ix,
            {
                proof {
                    lemma_best_upto(prices@, index as nat, index as nat, ix as nat);
                }
                let rest_at: usize = index - ix;
                assert(cache@.contains_key(rest_at));
                let rest = *cache.get(&rest_at).unwrap();
                let cut = prices[ix] + rest;
                if cut > max {
                    max = cut;
                }
                ix += 1;
            }
            proof {
                lemma_best_capped(prices@, index as nat, index as nat, (ix - 1) as nat);
            }
            cache.insert(index, max);
        }
        assert(cache@.contains_key(size));
        *cache.get(&size).unwrap()
    }

    /// The lengths of the pieces that a rod of length `size` sells best as,
    /// the first piece first. Of the first pieces that sell equally well the
    /// shortest is taken. Every rod up to that length must sell for
    /// something.
    pub fn list_size(&self, size: usize) -> (list: Vec<usize>)
        requires
            best(self.prices(), size as nat) <= usize::MAX,
            forall|n: nat| 1 <= n <= size ==> best(self.prices(), n) > 0,
        ensures
            list@ == pieces(self.prices(), size as nat),
    {
        broadcast use vstd::std_specs::hash::group_hash_axioms;

        let prices = self.prices;
        let mut sizes = HashMap::<usize, usize>::new();
        let mut cache = HashMap::<usize, usize>::new();
        cache.insert(0, 0);
        let mut index: usize = 0;
        while index < size
            invariant
                index <= size,
                best(prices@, size as nat) <= usize::MAX,
                forall|n: nat| 1 <= n <= size ==> best(prices@, n) > 0,
                forall|k: usize| k <= index ==> #[trigger] cache@.contains_key(k),
                cached(prices@, cache@),
                forall|k: usize| 1 <= k <= index ==> #[trigger] sizes@.contains_key(k),
                forall|k: usize| #[trigger]
                    sizes@.contains_key(k) ==> sizes@[k] == first_cut(prices@, k as nat),
            decreases size - index,
        {
            index += 1;
            proof {
                lemma_best_grows(prices@, index as nat, size as nat);
            }
            let mut max: usize = 0;
            let mut jx: usize = 1;
            let ghost kept = sizes@;
            while jx < prices.len() && jx <= index
                invariant
                    1 <= jx,
                    1 <= index <= size,
                    jx <= index + 1,
                    jx <= prices@.len() || prices@.len() == 0,
                    best(prices@, index as nat) <= usize::MAX,
                    forall|k: usize| k < index ==> #[trigger] cache@.contains_key(k),
                    cached(prices@, cache@),
                    max == best_upto(prices@, index as nat, (jx - 1) as nat),
                    forall|k: usize|
                        k != index ==> (#[trigger] sizes@.contains_key(k) <==> kept.contains_key(k)),
                    forall|k: usize|
                        k != index && #[trigger] sizes@.contains_key(k) ==> sizes@[k] == kept[k],
                    first_cut_upto(prices@, index as nat, (jx - 1) as nat) > 0
                        ==> sizes@.contains_key(index) && sizes@[index] == first_cut_upto(
                        prices@,
                        index as nat,
                        (jx - 1) as nat,
                    ),
                    max > 0 ==> first_cut_upto(prices@, index as nat, (jx - 1) as nat) > 0,
                decreases prices@.len() - jx,
            {
                proof {
                    lemma_best_upto(prices@, index as nat, index as nat, jx as nat);
                }
                let rest_at: usize = index - jx;
                assert(cache@.contains_key(rest_at));
                let rest = *cache.get(&rest_at).unwrap();
                if max < prices[jx] + rest {
                    max = prices[jx] + rest;
                    sizes.insert(index, jx);
                }
                jx += 1;
            }
            proof {
                lemma_best_capped(prices@, index as nat, index as nat, (jx - 1) as nat);
                assert(best(prices@, index as nat) > 0);
            }
            cache.insert(index, max);
        }
        let mut list: Vec<usize> = Vec::new();
        let mut n = size;
        assert(Seq::<usize>::empty() + pieces(prices@, n as nat) =~= pieces(prices@, n as nat));
        while n > 0
            invariant
                n <= size,
                forall|m: nat| 1 <= m <= size ==> best(prices@, m) > 0,
                forall|k: usize| 1 <= k <= size ==> #[trigger] sizes@.contains_key(k),
                forall|k: usize| #[trigger]
                    sizes@.contains_key(k) ==> sizes@[k] == first_cut(prices@, k as nat),
                list@ + pieces(prices@, n as nat) == pieces(prices@, size as nat),
            decreases n,
        {
            proof {
                assert(best(prices@, n as nat) > 0);
                lemma_first_cut(prices@, n as nat, n as nat);
            }
            assert(sizes@.contains_key(n));
            let cut = *sizes.get(&n).unwrap();
            let ghost before = list@;
            list.push(cut);
            assert(list@ + pieces(prices@, (n - cut) as nat) =~= before + pieces(
                prices@,
                n as nat,
            ));
            n -= cut;
        }
        assert(list@ + Seq::<usize>::empty() =~= list@);
        list
    }

    /// The most that a rod of length `size` earns when every piece costs
    /// `cost` to cut off, the last one too.
    pub fn maximum_with_cut_cost(&self, size: usize, cost: usize) -> (max: usize)
        requires
            affordable(self.prices(), cost as nat, size as nat),
        ensures
            max == net(self.prices(), cost as nat, size as nat),
    {
        broadcast use vstd::std_specs::hash::group_hash_axioms;

        let prices = self.prices;
        let mut cache = HashMap::<usize, usize>::new();
        cache.insert(0, 0);
        let mut index: usize = 0;
        while index < size
            invariant
                index <= size,
                affordable(prices@, cost as nat, size as nat),
                forall|k: usize| k <= index ==> #[trigger] cache@.contains_key(k),
                forall|k: usize| #[trigger]
                    cache@.contains_key(k) ==> cache@[k] == net(prices@, cost as nat, k as nat),
            decreases size - index,
        {
            index += 1;
            let mut max: usize = 0;
            let mut ix: usize = 1;
            while ix < prices.len() && ix <= index
                invariant
                    1 <= ix,
                    1 <= index <= size,
                    ix <= index + 1,
                    ix <= prices@.len() || prices@.len() == 0,
                    affordable(prices@, cost as nat, size as nat),
                    forall|k: usize| k < index ==> #[trigger] cache@.contains_key(k),
                    forall|k: usize| #[trigger]
                        cache@.contains_key(k) ==> cache@[k] == net(
                            prices@,
                            cost as nat,
                            k as nat,
                        ),
                    max == net_upto(prices@, cost as nat, index as nat, (ix - 1) as nat),
                decreases prices@.len() - ix,
            {
                let rest_at: usize = index - ix;
                assert(cache@.contains_key(rest_at));
                let rest = *cache.get(&rest_at).unwrap();
                proof {
                    let whole = with_piece(prices@, cost as nat, index as nat, ix as nat);
                    assert(cost <= whole <= usize::MAX);
                    assert(whole == prices@[ix as int] + rest);
                }
                let cut = prices[ix] + rest - cost;
                if cut > max {
                    max = cut;
                }
                ix += 1;
            }
            proof {
                lemma_net_capped(
                    prices@,
                    cost as nat,
                    index as nat,
                    index as nat,
                    (ix - 1) as nat,
                );
            }
            cache.insert(index, max);
        }
        assert(cache@.contains_key(size));
        *cache.get(&size).unwrap()
    }
}

} // verus!
