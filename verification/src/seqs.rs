//! Sequences as the algorithms of this crate see them: exchanging two
//! positions, arrangements of the same elements, and ascending order.

use crate::order::le;
use vstd::prelude::*;

verus! {

/// `s` with the elements at `i` and `j` exchanged.
pub open spec fn swapped<T>(s: Seq<T>, i: int, j: int) -> Seq<T> {
    s.update(i, s[j]).update(j, s[i])
}

/// `a` and `b` hold the same elements, each as often as the other.
pub open spec fn permutation<T>(a: Seq<T>, b: Seq<T>) -> bool {
    a.to_multiset() == b.to_multiset()
}

/// The positions `lo..hi` of `s` are in ascending order.
pub open spec fn ascending_in<T: Ord>(s: Seq<T>, lo: int, hi: int) -> bool {
    forall|i: int, j: int| lo <= i <= j < hi ==> le(#[trigger] s[i], #[trigger] s[j])
}

/// `s` is in ascending order.
pub open spec fn ascending<T: Ord>(s: Seq<T>) -> bool {
    ascending_in(s, 0, s.len() as int)
}

/// The positions `lo..hi` of `s` are in descending order.
pub open spec fn descending_in<T: Ord>(s: Seq<T>, lo: int, hi: int) -> bool {
    forall|i: int, j: int| lo <= i <= j < hi ==> le(#[trigger] s[j], #[trigger] s[i])
}

/// `s` is in descending order.
pub open spec fn descending<T: Ord>(s: Seq<T>) -> bool {
    descending_in(s, 0, s.len() as int)
}

/// `a` and `b` agree everywhere but on the positions `lo..hi`, which hold the
/// same elements in both.
pub open spec fn rearranged_in<T>(a: Seq<T>, b: Seq<T>, lo: int, hi: int) -> bool {
    &&& a.len() == b.len()
    &&& permutation(a.subrange(lo, hi), b.subrange(lo, hi))
    &&& forall|k: int| 0 <= k < a.len() && !(lo <= k < hi) ==> a[k] == b[k]
}

/// Exchanging two positions rearranges a sequence.
pub proof fn lemma_swapped_permutes<T>(s: Seq<T>, i: int, j: int)
    requires
        0 <= i < s.len(),
        0 <= j < s.len(),
    ensures
        permutation(swapped(s, i, j), s),
        swapped(s, i, j).len() == s.len(),
{
    broadcast use vstd::seq_lib::to_multiset_update;
    broadcast use vstd::multiset::group_multiset_axioms;

    let m = s.to_multiset();
    let s1 = s.update(i, s[j]);
    assert(s1.to_multiset() == m.insert(s[j]).remove(s[i]));
    assert(s1[j] == if i == j { s[j] } else { s[j] });
    assert(swapped(s, i, j).to_multiset() == s1.to_multiset().insert(s[i]).remove(s1[j]));
    s.to_multiset_ensures();
    assert(s.contains(s[i]));
    assert(s.contains(s[j]));
    assert(swapped(s, i, j).to_multiset() =~= m);
}

/// Every element of a sequence occurs in each of its rearrangements.
pub proof fn lemma_permutation_member<T>(a: Seq<T>, b: Seq<T>, i: int)
    requires
        permutation(a, b),
        0 <= i < a.len(),
    ensures
        b.contains(a[i]),
        a.len() == b.len(),
{
    a.to_multiset_ensures();
    b.to_multiset_ensures();
    assert(a.contains(a[i]));
    assert(a.to_multiset().count(a[i]) > 0);
    assert(b.to_multiset().count(a[i]) > 0);
}

/// Rearranging the first `k` elements rearranges every longer prefix.
pub proof fn lemma_prefix_rearranged<T>(a: Seq<T>, b: Seq<T>, k: int, n: int)
    requires
        0 <= k <= n <= a.len(),
        a.len() == b.len(),
        permutation(a.take(k), b.take(k)),
        a.subrange(k, n) == b.subrange(k, n),
    ensures
        permutation(a.take(n), b.take(n)),
{
    vstd::seq_lib::lemma_multiset_commutative(a.take(k), a.subrange(k, n));
    vstd::seq_lib::lemma_multiset_commutative(b.take(k), b.subrange(k, n));
    assert(a.take(n) =~= a.take(k) + a.subrange(k, n));
    assert(b.take(n) =~= b.take(k) + b.subrange(k, n));
}

/// Exchanging two positions of a range rearranges the range.
pub proof fn lemma_swapped_rearranges<T>(s: Seq<T>, i: int, j: int, lo: int, hi: int)
    requires
        0 <= lo <= i < hi <= s.len(),
        lo <= j < hi,
    ensures
        rearranged_in(swapped(s, i, j), s, lo, hi),
{
    lemma_swapped_permutes(s.subrange(lo, hi), i - lo, j - lo);
    assert(swapped(s, i, j).subrange(lo, hi) =~= swapped(s.subrange(lo, hi), i - lo, j - lo));
}

/// A sequence is a rearrangement of itself.
pub proof fn lemma_rearranged_same<T>(s: Seq<T>, lo: int, hi: int)
    ensures
        rearranged_in(s, s, lo, hi),
{
}

/// What rearranges a part of a range rearranges the range.
pub proof fn lemma_rearranged_wider<T>(a: Seq<T>, b: Seq<T>, lo: int, hi: int, from: int, to: int)
    requires
        0 <= from <= lo <= hi <= to <= a.len(),
        rearranged_in(a, b, lo, hi),
    ensures
        rearranged_in(a, b, from, to),
{
    vstd::seq_lib::lemma_multiset_commutative(a.subrange(from, lo), a.subrange(lo, hi));
    vstd::seq_lib::lemma_multiset_commutative(b.subrange(from, lo), b.subrange(lo, hi));
    vstd::seq_lib::lemma_multiset_commutative(a.subrange(from, hi), a.subrange(hi, to));
    vstd::seq_lib::lemma_multiset_commutative(b.subrange(from, hi), b.subrange(hi, to));
    assert(a.subrange(from, lo) =~= b.subrange(from, lo));
    assert(a.subrange(hi, to) =~= b.subrange(hi, to));
    assert(a.subrange(from, hi) =~= a.subrange(from, lo) + a.subrange(lo, hi));
    assert(b.subrange(from, hi) =~= b.subrange(from, lo) + b.subrange(lo, hi));
    assert(a.subrange(from, to) =~= a.subrange(from, hi) + a.subrange(hi, to));
    assert(b.subrange(from, to) =~= b.subrange(from, hi) + b.subrange(hi, to));
}

/// Every element of a rearranged range was in the range before.
pub proof fn lemma_rearranged_member<T>(a: Seq<T>, b: Seq<T>, lo: int, hi: int, k: int)
    requires
        0 <= lo <= k < hi <= a.len(),
        rearranged_in(a, b, lo, hi),
    ensures
        exists|m: int| lo <= m < hi && b[m] == a[k],
{
    lemma_permutation_member(a.subrange(lo, hi), b.subrange(lo, hi), k - lo);
    let m = choose|m: int| 0 <= m < b.subrange(lo, hi).len() && b.subrange(lo, hi)[m] == a.subrange(
        lo,
        hi,
    )[k - lo];
    assert(b[m + lo] == a[k]);
}

/// Rearranging the whole of a sequence rearranges the sequence.
pub proof fn lemma_rearranged_all<T>(a: Seq<T>, b: Seq<T>)
    requires
        rearranged_in(a, b, 0, a.len() as int),
    ensures
        permutation(a, b),
{
    assert(a.subrange(0, a.len() as int) =~= a);
    assert(b.subrange(0, b.len() as int) =~= b);
}

/// `swap` of the slices of std: the elements at `a` and `b` change
/// places and the others stay where they are. Both must be positions of the
/// slice, or the call panics.
pub assume_specification<E>[ <[E]>::swap ](slice: &mut [E], a: usize, b: usize)
    requires
        a < old(slice)@.len(),
        b < old(slice)@.len(),
    ensures
        final(slice)@ == old(slice)@.update(a as int, old(slice)@[b as int]).update(
            b as int,
            old(slice)@[a as int],
        ),
;

/// Exchanges the elements of `v` at `i` and `j`.
pub fn exchange<T>(v: &mut Vec<T>, i: usize, j: usize)
    requires
        i < old(v).len(),
        j < old(v).len(),
    ensures
        final(v)@ == swapped(old(v)@, i as int, j as int),
{
    v.swap(i, j);
}

} // verus!
