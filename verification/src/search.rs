//! Searching a sequence for a key: one element after the other, or by
//! halving a sequence that is in ascending order.

use crate::Container;
use crate::maximum_subarray::best_across;
use crate::maximum_subarray::best_by_halving;
use crate::maximum_subarray::best_by_trying;
use crate::maximum_subarray::best_in_one_pass;
use crate::maximum_subarray::fits;
use crate::maximum_subarray::is_best;
use crate::maximum_subarray::is_best_across;
use crate::order::decides_eq;
use crate::order::eq;
use crate::order::equal;
use crate::order::le;
use crate::order::lemma_le_trans;
use crate::order::lemma_total;
use crate::order::less;
use crate::order::lt;
use crate::order::same;
use crate::order::total_order;
use crate::seqs::ascending;
use vstd::prelude::*;

verus! {

/// `i` is the first position of `s` whose element equals `key`.
pub open spec fn first_match<T: PartialEq>(s: Seq<T>, key: T, i: int) -> bool {
    &&& 0 <= i < s.len()
    &&& eq(s[i], key)
    &&& forall|j: int| 0 <= j < i ==> !eq(#[trigger] s[j], key)
}

/// No element of `s` equals `key`.
pub open spec fn no_match<T: PartialEq>(s: Seq<T>, key: T) -> bool {
    forall|j: int| 0 <= j < s.len() ==> !eq(#[trigger] s[j], key)
}

/// No element of `s` takes the place of `key` in the order.
pub open spec fn none_same<T: Ord>(s: Seq<T>, key: T) -> bool {
    forall|j: int| 0 <= j < s.len() ==> !same(#[trigger] s[j], key)
}

/// Looks for `key` from the first element on. Returns the first position
/// that holds it.
pub fn linear<T>(container: &[T], key: &T) -> (found: Option<usize>) where T: Eq
    requires
        decides_eq::<T>(),
    ensures
        found is Some ==> first_match(container@, *key, found->0 as int),
        found is None ==> no_match(container@, *key),
{
    let mut i: usize = 0;
    while i < container.len()
        invariant
            decides_eq::<T>(),
            i <= container@.len(),
            forall|j: int| 0 <= j < i ==> !eq(#[trigger] container@[j], *key),
        decreases container@.len() - i,
    {
        if equal(&container[i], key) {
            return Some(i);
        }
        i += 1;
    }
    None
}

/// What a search by halving finds between the positions `lower` and
/// `upper`: the middle position where its element is neither smaller nor
/// larger than `key`; else what the search finds behind the middle where
/// the element there is smaller, and before the middle where it is larger.
pub open spec fn halved<T: Ord>(s: Seq<T>, key: T, lower: int, upper: int) -> Option<usize>
    decreases upper - lower,
{
    if lower >= upper {
        None
    } else {
        let mid = lower + (upper - lower) / 2;
        if lt(s[mid], key) {
            halved(s, key, mid + 1, upper)
        } else if lt(key, s[mid]) {
            halved(s, key, lower, mid)
        } else {
            Some(mid as usize)
        }
    }
}

/// Looks for `key` between the positions `lower` and `upper` of a sequence
/// by halving. Where the sequence is ascending, a key that is not found is
/// not there.
fn search_between<T>(container: &[T], key: &T, lower: usize, upper: usize) -> (found: Option<
    usize,
>) where T: Ord
    requires
        total_order::<T>(),
        lower <= upper <= container@.len(),
    ensures
        found == halved(container@, *key, lower as int, upper as int),
        found is Some ==> lower <= found->0 < upper && same(container@[found->0 as int], *key),
        found is None && ascending(container@) ==> forall|j: int|
            lower <= j < upper ==> !same(#[trigger] container@[j], *key),
    decreases upper - lower,
{
    if lower >= upper {
        return None;
    }
    let mid = lower + (upper - lower) / 2;
    proof {
        lemma_total(container@[mid as int], *key);
        lemma_total(*key, container@[mid as int]);
    }
    if less(&container[mid], key) {
        let found = search_between(container, key, mid + 1, upper);
        proof {
            if found is None && ascending(container@) {
                assert forall|j: int| lower <= j < upper implies !same(
                    #[trigger] container@[j],
                    *key,
                ) by {
                    if j <= mid {
                        lemma_total(container@[j], *key);
                        lemma_total(*key, container@[j]);
                        if le(*key, container@[j]) {
                            lemma_le_trans(*key, container@[j], container@[mid as int]);
                        }
                    }
                }
            }
        }
        found
    } else if less(key, &container[mid]) {
        let found = search_between(container, key, lower, mid);
        proof {
            if found is None && ascending(container@) {
                assert forall|j: int| lower <= j < upper implies !same(
                    #[trigger] container@[j],
                    *key,
                ) by {
                    if j >= mid {
                        lemma_total(container@[j], *key);
                        lemma_total(*key, container@[j]);
                        if le(container@[j], *key) {
                            lemma_le_trans(container@[mid as int], container@[j], *key);
                        }
                    }
                }
            }
        }
        found
    } else {
        Some(mid)
    }
}

/// Looks for `key` by halving, in a loop: the middle of what is left is
/// held against the key, and the search goes on behind it or before it.
/// Where the sequence is ascending, a key that is not found is not there.
pub fn binsearch<T>(container: &[T], key: &T) -> (found: Option<usize>) where T: Ord
    requires
        total_order::<T>(),
    ensures
        found == halved(container@, *key, 0, container@.len() as int),
        found is Some ==> found->0 < container@.len() && same(
            container@[found->0 as int],
            *key,
        ),
        found is None && ascending(container@) ==> none_same(container@, *key),
{
    let mut lower: usize = 0;
    let mut upper: usize = container.len();
    while lower < upper
        invariant
            total_order::<T>(),
            lower <= upper <= container@.len(),
            halved(container@, *key, lower as int, upper as int) == halved(
                container@,
                *key,
                0,
                container@.len() as int,
            ),
            ascending(container@) ==> forall|j: int|
                0 <= j < container@.len() && !(lower <= j < upper) ==> !same(
                    #[trigger] container@[j],
                    *key,
                ),
        decreases upper - lower,
    {
        let mid = lower + (upper - lower) / 2;
        proof {
            lemma_total(container@[mid as int], *key);
            lemma_total(*key, container@[mid as int]);
        }
        if less(&container[mid], key) {
            proof {
                if ascending(container@) {
                    assert forall|j: int|
                        0 <= j < container@.len() && !(mid + 1 <= j < upper) implies !same(
                        #[trigger] container@[j],
                        *key,
                    ) by {
                        if lower <= j <= mid {
                            lemma_total(container@[j], *key);
                            lemma_total(*key, container@[j]);
                            if le(*key, container@[j]) {
                                lemma_le_trans(*key, container@[j], container@[mid as int]);
                            }
                        }
                    }
                }
            }
            lower = mid + 1;
        } else if less(key, &container[mid]) {
            proof {
                if ascending(container@) {
                    assert forall|j: int|
                        0 <= j < container@.len() && !(lower <= j < mid) implies !same(
                        #[trigger] container@[j],
                        *key,
                    ) by {
                        if mid <= j < upper {
                            lemma_total(container@[j], *key);
                            lemma_total(*key, container@[j]);
                            if le(container@[j], *key) {
                                lemma_le_trans(container@[mid as int], container@[j], *key);
                            }
                        }
                    }
                }
            }
            upper = mid;
        } else {
            return Some(mid);
        }
    }
    None
}

/// Looks for `key` by halving, calling itself on the half that it goes on
/// with. Where the sequence is ascending, a key that is not found is not
/// there.
pub fn recursive_binsearch<T>(container: &[T], key: &T) -> (found: Option<usize>) where T: Ord
    requires
        total_order::<T>(),
    ensures
        found == halved(container@, *key, 0, container@.len() as int),
        found is Some ==> found->0 < container@.len() && same(
            container@[found->0 as int],
            *key,
        ),
        found is None && ascending(container@) ==> none_same(container@, *key),
{
    search_between(container, key, 0, container.len())
}

/// The best run of numbers that holds the elements at `mid - 1` and at
/// `mid`, between `lower` and `upper`: the positions of its first and of its
/// last element, and its sum.
pub fn find_maximum_cross_subarray(arr: &[i64], lower: usize, mid: usize, upper: usize) -> (best: (
    usize,
    usize,
    i64,
))
    requires
        lower < mid < upper <= arr@.len(),
        fits(arr@, lower as int, upper as int),
    ensures
        is_best_across(
            arr@,
            lower as int,
            mid as int,
            upper as int,
            best.0 as int,
            best.1 as int,
            best.2 as int,
        ),
{
    best_across(arr, lower, mid, upper)
}

/// The run of numbers between `lower` and `upper` with the largest sum,
/// found by halving: the positions of its first and of its last element,
/// and its sum.
pub fn recursive_find_maximum_subarray(array: &[i64], lower: usize, upper: usize) -> (best: (
    usize,
    usize,
    i64,
))
    requires
        lower < upper <= array@.len(),
        fits(array@, lower as int, upper as int),
    ensures
        is_best(array@, lower as int, upper as int, best.0 as int, best.1 as int, best.2 as int),
{
    best_by_halving(array, lower, upper)
}

/// The run of numbers with the largest sum, found by trying every run: the
/// positions of its first and of its last element, and its sum.
pub fn brute_force_maximum_subarray(array: &[i64]) -> (best: (usize, usize, i64))
    requires
        array@.len() > 0,
        fits(array@, 0, array@.len() as int),
    ensures
        is_best(array@, 0, array@.len() as int, best.0 as int, best.1 as int, best.2 as int),
{
    best_by_trying(array, 0, array.len())
}

/// The run of numbers with the largest sum, found in one pass: the
/// positions of its first and of its last element, and its sum.
pub fn find_maximum_subarray(array: &[i64]) -> (best: (usize, usize, i64))
    requires
        array@.len() > 0,
        fits(array@, 0, array@.len() as int),
    ensures
        is_best(array@, 0, array@.len() as int, best.0 as int, best.1 as int, best.2 as int),
{
    best_in_one_pass(array, 0, array.len())
}

/// The ways to search a container of `T`.
pub trait Search<T: Ord> {
    /// The elements that are searched, in their order.
    spec fn items(&self) -> Seq<T>;

    /// Looks for `needle` from the first element on. Returns the first
    /// position that holds it.
    fn linear(&self, needle: T) -> (found: Option<usize>)
        requires
            decides_eq::<T>(),
        ensures
            found is Some ==> first_match(self.items(), needle, found->0 as int),
            found is None ==> no_match(self.items(), needle),
    ;

    /// Looks for `needle` by halving, in a loop. Where the elements are
    /// ascending, a needle that is not found is not there.
    fn binsearch(&self, needle: &T) -> (found: Option<usize>)
        requires
            total_order::<T>(),
        ensures
            found == halved(self.items(), *needle, 0, self.items().len() as int),
            found is Some ==> found->0 < self.items().len() && same(
                self.items()[found->0 as int],
                *needle,
            ),
            found is None && ascending(self.items()) ==> none_same(self.items(), *needle),
    ;

    /// Looks for `needle` by halving, recursively. Where the elements are
    /// ascending, a needle that is not found is not there.
    fn rec_binsearch(&self, needle: &T) -> (found: Option<usize>)
        requires
            total_order::<T>(),
        ensures
            found == halved(self.items(), *needle, 0, self.items().len() as int),
            found is Some ==> found->0 < self.items().len() && same(
                self.items()[found->0 as int],
                *needle,
            ),
            found is None && ascending(self.items()) ==> none_same(self.items(), *needle),
    ;
}

impl<T> Search<T> for Container<T> where T: PartialEq + PartialOrd + Clone + Ord {
    open spec fn items(&self) -> Seq<T> {
        self@
    }

    fn linear(&self, needle: T) -> (found: Option<usize>) {
        self::linear(self.data.as_slice(), &needle)
    }

    fn binsearch(&self, needle: &T) -> (found: Option<usize>) {
        self::binsearch(self.data.as_slice(), needle)
    }

    fn rec_binsearch(&self, needle: &T) -> (found: Option<usize>) {
        self::recursive_binsearch(self.data.as_slice(), needle)
    }
}

} // verus!
