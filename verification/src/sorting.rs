//! Sorting a slice in place by a comparison that the caller hands in.
//!
//! A comparison answers whether its first argument has to change places
//! with its second. What the sorts achieve is stated for every relation
//! that such a comparison decides and that orders the elements.

use crate::order::at_most;
use crate::order::le;
use crate::order::lemma_le_trans;
use crate::order::lemma_total;
use crate::order::less;
use crate::order::lt;
use crate::order::total_order;
use crate::seqs::ascending;
use crate::seqs::ascending_in;
use crate::seqs::descending;
use crate::seqs::lemma_rearranged_member;
use crate::seqs::lemma_rearranged_wider;
use crate::seqs::lemma_swapped_permutes;
use crate::seqs::lemma_swapped_rearranges;
use crate::seqs::permutation;
use crate::seqs::rearranged_in;
use crate::seqs::swapped;
use vstd::prelude::*;

verus! {

/// `compare` can be called on all elements.
pub open spec fn total<T, F: Fn(&T, &T) -> bool>(compare: F) -> bool {
    forall|a: T, b: T| call_requires(compare, (&a, &b))
}

/// Whatever `compare` answers is what `rel` says.
pub open spec fn decided_by<T, F: Fn(&T, &T) -> bool>(
    compare: F,
    rel: spec_fn(T, T) -> bool,
) -> bool {
    forall|a: T, b: T, r: bool| #[trigger] call_ensures(compare, (&a, &b), r) ==> r == rel(a, b)
}

/// `rel` is the strict part of a total preorder: no element is in `rel`
/// with itself, no two elements are in `rel` both ways, and not being in
/// `rel` is transitive.
pub open spec fn weak_order<T>(rel: spec_fn(T, T) -> bool) -> bool {
    &&& forall|a: T| !#[trigger] rel(a, a)
    &&& forall|a: T, b: T| #[trigger] rel(a, b) ==> !rel(b, a)
    &&& forall|a: T, b: T, c: T| !#[trigger] rel(a, b) && !#[trigger] rel(b, c) ==> !rel(a, c)
}

/// No element of `s` is in `rel` with one that comes after it.
pub open spec fn settled<T>(rel: spec_fn(T, T) -> bool, s: Seq<T>) -> bool {
    forall|i: int, j: int| 0 <= i < j < s.len() ==> !rel(#[trigger] s[i], #[trigger] s[j])
}

/// No element of `s` is in `rel` with one that comes before it.
pub open spec fn chosen<T>(rel: spec_fn(T, T) -> bool, s: Seq<T>) -> bool {
    forall|i: int, j: int| 0 <= i < j < s.len() ==> !rel(#[trigger] s[j], #[trigger] s[i])
}

/// The first `j + 1` elements are settled but for the one at `at`, which no
/// element from `lo` on before it and no element after it is out of place
/// with.
pub open spec fn inserting<T>(
    rel: spec_fn(T, T) -> bool,
    s: Seq<T>,
    at: int,
    lo: int,
    j: int,
) -> bool {
    &&& 0 <= lo <= at <= j < s.len()
    &&& forall|p: int, q: int|
        0 <= p < q <= j && p != at && q != at ==> !rel(#[trigger] s[p], #[trigger] s[q])
    &&& forall|q: int| at < q <= j ==> !rel(s[at], #[trigger] s[q])
    &&& forall|p: int| lo <= p < at ==> !rel(#[trigger] s[p], s[at])
}

/// An insertion begins with the element behind a settled prefix.
pub proof fn lemma_insert_begins<T>(rel: spec_fn(T, T) -> bool, s: Seq<T>, j: int)
    requires
        0 <= j < s.len(),
        settled(rel, s.take(j)),
    ensures
        inserting(rel, s, j, j, j),
{
    assert forall|p: int, q: int| 0 <= p < q <= j && p != j && q != j implies !rel(
        #[trigger] s[p],
        #[trigger] s[q],
    ) by {
        assert(s.take(j)[p] == s[p]);
        assert(s.take(j)[q] == s[q]);
    }
}

/// The element that is inserted moves one place down where it has to
/// change places with its neighbour.
pub proof fn lemma_insert_moves<T>(rel: spec_fn(T, T) -> bool, s: Seq<T>, at: int, j: int)
    requires
        weak_order(rel),
        inserting(rel, s, at, at, j),
        at >= 1,
        rel(s[at - 1], s[at]),
    ensures
        inserting(rel, swapped(s, at - 1, at), at - 1, at - 1, j),
{
    let t = swapped(s, at - 1, at);
    assert forall|p: int, q: int| 0 <= p < q <= j && p != at - 1 && q != at - 1 implies !rel(
        #[trigger] t[p],
        #[trigger] t[q],
    ) by {
        if p == at {
            assert(!rel(s[at - 1], s[q]));
        } else if q == at {
            assert(!rel(s[p], s[at - 1]));
        } else {
            assert(!rel(s[p], s[q]));
        }
    }
    assert forall|q: int| at - 1 < q <= j implies !rel(t[at - 1], #[trigger] t[q]) by {
        if q == at {
        } else {
            assert(!rel(s[at], s[q]));
        }
    }
}

/// The element that is inserted stays where its neighbour need not change
/// places with it; nor need any element before that neighbour.
pub proof fn lemma_insert_holds<T>(rel: spec_fn(T, T) -> bool, s: Seq<T>, at: int, lo: int, j: int)
    requires
        weak_order(rel),
        inserting(rel, s, at, lo, j),
        lo >= 1,
        lo == at ==> !rel(s[lo - 1], s[at]),
    ensures
        inserting(rel, s, at, lo - 1, j),
        !rel(s[lo - 1], s[at]),
{
    if lo < at {
        assert(!rel(s[lo - 1], s[lo]));
        assert(!rel(s[lo], s[at]));
    }
}

/// When all elements before it have been held against the element that is
/// inserted, one more element is settled.
pub proof fn lemma_insert_ends<T>(rel: spec_fn(T, T) -> bool, s: Seq<T>, at: int, j: int)
    requires
        inserting(rel, s, at, 0, j),
    ensures
        settled(rel, s.take(j + 1)),
{
    let t = s.take(j + 1);
    assert forall|p: int, q: int| 0 <= p < q < t.len() implies !rel(
        #[trigger] t[p],
        #[trigger] t[q],
    ) by {
        if p == at {
            assert(!rel(s[at], s[q]));
        } else if q == at {
            assert(!rel(s[p], s[at]));
        } else {
            assert(!rel(s[p], s[q]));
        }
    }
}

/// Exchanges two elements of a slice.
pub fn exchange_in<T>(s: &mut [T], i: usize, j: usize)
    requires
        i < old(s)@.len(),
        j < old(s)@.len(),
    ensures
        final(s)@ == swapped(old(s)@, i as int, j as int),
        final(s)@.len() == old(s)@.len(),
        permutation(final(s)@, old(s)@),
{
    proof {
        lemma_swapped_permutes(s@, i as int, j as int);
    }
    s.swap(i, j);
}

/// `s` after the element at `at` has moved down: as long as the element
/// before it is in `rel` with it, the two change places.
pub open spec fn sunk<T>(rel: spec_fn(T, T) -> bool, s: Seq<T>, at: int) -> Seq<T>
    decreases at,
{
    if 0 < at < s.len() && rel(s[at - 1], s[at]) {
        sunk(rel, swapped(s, at - 1, at), at - 1)
    } else {
        s
    }
}

/// `s` after each of the elements from the second up to the one at `n - 1`
/// has moved down in turn.
pub open spec fn inserted_upto<T>(rel: spec_fn(T, T) -> bool, s: Seq<T>, n: int) -> Seq<T>
    decreases n,
{
    if n <= 1 {
        s
    } else {
        sunk(rel, inserted_upto(rel, s, n - 1), n - 1)
    }
}

/// Sorts by insertion: each element in turn moves down as long as the
/// element before it has to change places with it.
pub fn insertion_sort_by<T, F: Fn(&T, &T) -> bool>(s: &mut [T], compare: F)
    requires
        total(compare),
    ensures
        final(s)@.len() == old(s)@.len(),
        permutation(final(s)@, old(s)@),
        forall|rel: spec_fn(T, T) -> bool| #[trigger]
            decided_by(compare, rel) ==> final(s)@ == inserted_upto(
                rel,
                old(s)@,
                old(s)@.len() as int,
            ),
        forall|rel: spec_fn(T, T) -> bool| #[trigger]
            decided_by(compare, rel) && weak_order(rel) ==> settled(rel, final(s)@),
{
    let n = s.len();
    let mut j: usize = 1;
    if n <= 1 {
        return;
    }
    while j < n
        invariant
            total(compare),
            n == s@.len() == old(s)@.len(),
            1 <= j <= n,
            permutation(s@, old(s)@),
            forall|rel: spec_fn(T, T) -> bool| #[trigger]
                decided_by(compare, rel) ==> s@ == inserted_upto(rel, old(s)@, j as int),
            forall|rel: spec_fn(T, T) -> bool| #[trigger]
                decided_by(compare, rel) && weak_order(rel) ==> settled(rel, s@.take(j as int)),
        decreases n - j,
    {
        let mut at: usize = j;
        let mut moving = true;
        let ghost start = s@;
        proof {
            assert forall|rel: spec_fn(T, T) -> bool| #[trigger]
                decided_by(compare, rel) && weak_order(rel) implies inserting(
                rel,
                s@,
                at as int,
                at as int,
                j as int,
            ) by {
                lemma_insert_begins(rel, s@, j as int);
            }
        }
        while moving && at > 0
            invariant
                total(compare),
                n == s@.len() == old(s)@.len(),
                at <= j < n,
                permutation(s@, old(s)@),
                forall|rel: spec_fn(T, T) -> bool| #[trigger]
                    decided_by(compare, rel) ==> start == inserted_upto(rel, old(s)@, j as int),
                forall|rel: spec_fn(T, T) -> bool| #[trigger]
                    decided_by(compare, rel) ==> sunk(rel, s@, at as int) == sunk(
                        rel,
                        start,
                        j as int,
                    ) && (!moving ==> sunk(rel, s@, at as int) == s@),
                forall|rel: spec_fn(T, T) -> bool| #[trigger]
                    decided_by(compare, rel) && weak_order(rel) ==> inserting(
                        rel,
                        s@,
                        at as int,
                        if moving {
                            at as int
                        } else {
                            0
                        },
                        j as int,
                    ),
            decreases at + (if moving { 1int } else { 0int }),
        {
            let ghost before = s@;
            let r = compare(&s[at - 1], &s[at]);
            if r {
                exchange_in(s, at - 1, at);
                proof {
                    assert forall|rel: spec_fn(T, T) -> bool| #[trigger]
                        decided_by(compare, rel) implies sunk(rel, s@, at - 1) == sunk(
                        rel,
                        start,
                        j as int,
                    ) by {
                        assert(call_ensures(compare, (&before[at - 1], &before[at as int]), r));
                        assert(sunk(rel, before, at as int) == sunk(rel, s@, at - 1));
                    }
                    assert forall|rel: spec_fn(T, T) -> bool| #[trigger]
                        decided_by(compare, rel) && weak_order(rel) implies inserting(
                        rel,
                        s@,
                        at - 1,
                        at - 1,
                        j as int,
                    ) by {
                        assert(call_ensures(compare, (&before[at - 1], &before[at as int]), r));
                        lemma_insert_moves(rel, before, at as int, j as int);
                    }
                }
                at -= 1;
            } else {
                proof {
                    assert forall|rel: spec_fn(T, T) -> bool| #[trigger]
                        decided_by(compare, rel) implies sunk(rel, s@, at as int) == s@ by {
                        assert(call_ensures(compare, (&before[at - 1], &before[at as int]), r));
                    }
                    assert forall|rel: spec_fn(T, T) -> bool| #[trigger]
                        decided_by(compare, rel) && weak_order(rel) implies inserting(
                        rel,
                        s@,
                        at as int,
                        0,
                        j as int,
                    ) by {
                        assert(call_ensures(compare, (&before[at - 1], &before[at as int]), r));
                        lemma_insert_settles(rel, before, at as int, at as int, j as int);
                    }
                }
                moving = false;
            }
        }
        proof {
            assert forall|rel: spec_fn(T, T) -> bool| #[trigger]
                decided_by(compare, rel) implies s@ == inserted_upto(rel, old(s)@, j + 1) by {
                assert(sunk(rel, s@, at as int) == s@);
            }
            assert forall|rel: spec_fn(T, T) -> bool| #[trigger]
                decided_by(compare, rel) && weak_order(rel) implies settled(
                rel,
                s@.take(j + 1),
            ) by {
                lemma_insert_ends(rel, s@, at as int, j as int);
            }
        }
        j += 1;
    }
    assert(s@.take(n as int) =~= s@);
}

/// Where the next element before it need not change places with the
/// element that is inserted, none before that one needs to.
pub proof fn lemma_insert_settles<T>(
    rel: spec_fn(T, T) -> bool,
    s: Seq<T>,
    at: int,
    lo: int,
    j: int,
)
    requires
        weak_order(rel),
        inserting(rel, s, at, lo, j),
        lo >= 1 ==> !rel(s[lo - 1], s[at]),
    ensures
        inserting(rel, s, at, 0, j),
    decreases lo,
{
    if lo >= 1 {
        lemma_insert_holds(rel, s, at, lo, j);
        if lo >= 2 {
            assert(!rel(s[lo - 2], s[lo - 1]));
        }
        lemma_insert_settles(rel, s, at, lo - 1, j);
    }
}

/// `s` after the element at `at` has been held against the elements
/// before `lo`, the nearest first: where the element at a place is in `rel`
/// with it, that element changes places with the one after it.
pub open spec fn swept<T>(rel: spec_fn(T, T) -> bool, s: Seq<T>, at: int, lo: int) -> Seq<T>
    decreases lo,
{
    if 0 < lo <= at < s.len() {
        let i = lo - 1;
        if rel(s[i], s[at]) {
            swept(
                rel,
                swapped(s, i, i + 1),
                if at == i + 1 {
                    i
                } else {
                    at
                },
                i,
            )
        } else {
            swept(rel, s, at, i)
        }
    } else {
        s
    }
}

/// `s` after each of the elements from the second up to the one at `n - 1`
/// has been held against all before it in turn.
pub open spec fn swept_upto<T>(rel: spec_fn(T, T) -> bool, s: Seq<T>, n: int) -> Seq<T>
    decreases n,
{
    if n <= 1 {
        s
    } else {
        swept(rel, swept_upto(rel, s, n - 1), n - 1, n - 1)
    }
}

/// Inserts the element at `j` among the elements before it, holding every
/// one of them against it: it is compared with all that come before it, the
/// nearest first, and where the comparison says so the element at that
/// place changes places with the one after it.
pub fn insert_sweeping_by<T, F: Fn(&T, &T) -> bool>(s: &mut [T], j: usize, compare: &F)
    requires
        total(*compare),
        j < old(s)@.len(),
    ensures
        final(s)@.len() == old(s)@.len(),
        rearranged_in(final(s)@, old(s)@, 0, j + 1),
        forall|rel: spec_fn(T, T) -> bool| #[trigger]
            decided_by(*compare, rel) ==> final(s)@ == swept(rel, old(s)@, j as int, j as int),
        forall|rel: spec_fn(T, T) -> bool| #[trigger]
            decided_by(*compare, rel) && weak_order(rel) && settled(rel, old(s)@.take(j as int))
                ==> settled(rel, final(s)@.take(j + 1)),
{
    let ghost start = s@;
    let n = s.len();
    let mut at: usize = j;
    let mut lo: usize = j;
    proof {
        crate::seqs::lemma_rearranged_same(s@, 0, j + 1);
        assert forall|rel: spec_fn(T, T) -> bool| #[trigger]
            decided_by(*compare, rel) && weak_order(rel) && settled(
                rel,
                start.take(j as int),
            ) implies inserting(rel, s@, at as int, lo as int, j as int) by {
            lemma_insert_begins(rel, s@, j as int);
        }
    }
    while lo > 0
        invariant
            total(*compare),
            n == s@.len() == start.len(),
            lo <= at <= j < n,
            rearranged_in(s@, start, 0, j + 1),
            forall|rel: spec_fn(T, T) -> bool| #[trigger]
                decided_by(*compare, rel) ==> swept(rel, s@, at as int, lo as int) == swept(
                    rel,
                    start,
                    j as int,
                    j as int,
                ),
            forall|rel: spec_fn(T, T) -> bool| #[trigger]
                decided_by(*compare, rel) && weak_order(rel) && settled(rel, start.take(j as int))
                    ==> inserting(rel, s@, at as int, lo as int, j as int),
        decreases lo,
    {
        let ghost before = s@;
        let i = lo - 1;
        let r = compare(&s[i], &s[at]);
        if r {
            exchange_in(s, i + 1, i);
            assert(s@ =~= swapped(before, i as int, i + 1));
            proof {
                assert forall|rel: spec_fn(T, T) -> bool| #[trigger]
                    decided_by(*compare, rel) implies swept(
                    rel,
                    s@,
                    if at == i + 1 {
                        i as int
                    } else {
                        at as int
                    },
                    i as int,
                ) == swept(rel, start, j as int, j as int) by {
                    assert(call_ensures(*compare, (&before[i as int], &before[at as int]), r));
                    assert(swept(rel, before, at as int, lo as int) == swept(
                        rel,
                        swapped(before, i as int, i + 1),
                        if at == i + 1 {
                            i as int
                        } else {
                            at as int
                        },
                        i as int,
                    ));
                }
                lemma_swapped_rearranges(before, i + 1, i as int, 0, j + 1);
                assert forall|rel: spec_fn(T, T) -> bool| #[trigger]
                    decided_by(*compare, rel) && weak_order(rel) && settled(
                        rel,
                        start.take(j as int),
                    ) implies inserting(
                    rel,
                    s@,
                    if at == i + 1 {
                        i as int
                    } else {
                        at as int
                    },
                    i as int,
                    j as int,
                ) by {
                    assert(call_ensures(*compare, (&before[i as int], &before[at as int]), r));
                    if at == i + 1 {
                        lemma_insert_moves(rel, before, at as int, j as int);
                    } else {
                        lemma_insert_holds(rel, before, at as int, lo as int, j as int);
                    }
                }
            }
            if at == i + 1 {
                at = i;
            }
        } else {
            proof {
                assert forall|rel: spec_fn(T, T) -> bool| #[trigger]
                    decided_by(*compare, rel) implies swept(rel, s@, at as int, i as int)
                    == swept(rel, start, j as int, j as int) by {
                    assert(call_ensures(*compare, (&before[i as int], &before[at as int]), r));
                    assert(swept(rel, before, at as int, lo as int) == swept(
                        rel,
                        before,
                        at as int,
                        i as int,
                    ));
                }
                assert forall|rel: spec_fn(T, T) -> bool| #[trigger]
                    decided_by(*compare, rel) && weak_order(rel) && settled(
                        rel,
                        start.take(j as int),
                    ) implies inserting(rel, s@, at as int, i as int, j as int) by {
                    assert(call_ensures(*compare, (&before[i as int], &before[at as int]), r));
                    lemma_insert_holds(rel, before, at as int, lo as int, j as int);
                }
            }
        }
        lo = i;
    }
    proof {
        assert forall|rel: spec_fn(T, T) -> bool| #[trigger]
            decided_by(*compare, rel) && weak_order(rel) && settled(
                rel,
                start.take(j as int),
            ) implies settled(rel, s@.take(j + 1)) by {
            lemma_insert_ends(rel, s@, at as int, j as int);
        }
    }
}

/// Sorts by insertion, holding every element before it against the one that
/// is inserted.
pub fn sweeping_sort_by<T, F: Fn(&T, &T) -> bool>(s: &mut [T], compare: F)
    requires
        total(compare),
    ensures
        final(s)@.len() == old(s)@.len(),
        permutation(final(s)@, old(s)@),
        forall|rel: spec_fn(T, T) -> bool| #[trigger]
            decided_by(compare, rel) ==> final(s)@ == swept_upto(
                rel,
                old(s)@,
                old(s)@.len() as int,
            ),
        forall|rel: spec_fn(T, T) -> bool| #[trigger]
            decided_by(compare, rel) && weak_order(rel) ==> settled(rel, final(s)@),
{
    let n = s.len();
    if n <= 1 {
        return;
    }
    let mut j: usize = 1;
    while j < n
        invariant
            total(compare),
            n == s@.len() == old(s)@.len(),
            1 <= j <= n,
            permutation(s@, old(s)@),
            forall|rel: spec_fn(T, T) -> bool| #[trigger]
                decided_by(compare, rel) ==> s@ == swept_upto(rel, old(s)@, j as int),
            forall|rel: spec_fn(T, T) -> bool| #[trigger]
                decided_by(compare, rel) && weak_order(rel) ==> settled(rel, s@.take(j as int)),
        decreases n - j,
    {
        let ghost before = s@;
        insert_sweeping_by(s, j, &compare);
        proof {
            lemma_rearranged_wider(s@, before, 0, j + 1, 0, n as int);
            crate::seqs::lemma_rearranged_all(s@, before);
        }
        j += 1;
    }
    assert(s@.take(n as int) =~= s@);
}

/// Sorts the first `n` elements in ascending order: the first `n - 1` are
/// sorted in the same way, and the last is inserted among them.
pub fn recursive_insertion_sort<T: Ord>(s: &mut [T], n: usize)
    requires
        total_order::<T>(),
        n <= old(s)@.len(),
    ensures
        final(s)@.len() == old(s)@.len(),
        final(s)@ == swept_upto(larger::<T>(), old(s)@, n as int),
        rearranged_in(final(s)@, old(s)@, 0, n as int),
        ascending_in(final(s)@, 0, n as int),
    decreases n,
{
    if n <= 1 {
        proof {
            if n == 1 {
                lemma_total(s@[0], s@[0]);
            }
        }
        return;
    }
    let ghost before = s@;
    recursive_insertion_sort(s, n - 1);
    let ghost mid = s@;
    let compare = |a: &T, b: &T| -> (r: bool)
        requires
            total_order::<T>(),
        ensures
            r == lt(*b, *a),
        { less(b, a) };
    insert_sweeping_by(s, n - 1, &compare);
    proof {
        lemma_larger_smaller(mid.take(n - 1));
        lemma_larger_smaller(s@.take(n as int));
        assert(decided_by(compare, larger::<T>()));
        assert(ascending(mid.take(n - 1))) by {
            assert forall|a: int, b: int| 0 <= a <= b < n - 1 implies le(
                #[trigger] mid.take(n - 1)[a],
                #[trigger] mid.take(n - 1)[b],
            ) by {
                assert(le(mid[a], mid[b]));
            }
        }
        assert(ascending(s@.take(n as int)));
        assert forall|a: int, b: int| 0 <= a <= b < n implies le(
            #[trigger] s@[a],
            #[trigger] s@[b],
        ) by {
            assert(le(s@.take(n as int)[a], s@.take(n as int)[b]));
        }
        lemma_rearranged_wider(mid, before, 0, n - 1, 0, n as int);
    }
}

/// The first `j` elements are chosen: none of them is out of place with an
/// element that comes before it, and no element behind them is out of place
/// with one of them.
pub open spec fn picked<T>(rel: spec_fn(T, T) -> bool, s: Seq<T>, j: int) -> bool {
    &&& 0 <= j <= s.len()
    &&& forall|p: int, q: int| 0 <= p < q < s.len() && p < j ==> !rel(#[trigger] s[q], #[trigger] s[p])
}

/// The element at `m` is one that none of the elements from `j` up to `i`
/// is out of place with.
pub open spec fn best<T>(rel: spec_fn(T, T) -> bool, s: Seq<T>, j: int, i: int, m: int) -> bool {
    &&& 0 <= j <= m < i <= s.len()
    &&& forall|k: int| j <= k < i ==> !rel(#[trigger] s[k], s[m])
}

/// The best element stays the best, or the next element takes its place.
pub proof fn lemma_best_next<T>(rel: spec_fn(T, T) -> bool, s: Seq<T>, j: int, i: int, m: int)
    requires
        weak_order(rel),
        best(rel, s, j, i, m),
        i < s.len(),
    ensures
        best(rel, s, j, i + 1, if rel(s[i], s[m]) { i } else { m }),
{
    if rel(s[i], s[m]) {
        assert forall|k: int| j <= k < i + 1 implies !rel(#[trigger] s[k], s[i]) by {
            if k < i {
                assert(!rel(s[k], s[m]));
                assert(!rel(s[m], s[i]));
            }
        }
    }
}

/// Where the best of the elements from `j` on changes places with the one
/// at `j`, one more element is chosen.
pub proof fn lemma_pick<T>(rel: spec_fn(T, T) -> bool, s: Seq<T>, j: int, m: int)
    requires
        weak_order(rel),
        picked(rel, s, j),
        best(rel, s, j, s.len() as int, m),
    ensures
        picked(rel, swapped(s, m, j), j + 1),
{
    let t = swapped(s, m, j);
    assert forall|p: int, q: int| 0 <= p < q < t.len() && p < j + 1 implies !rel(
        #[trigger] t[q],
        #[trigger] t[p],
    ) by {
        if p < j {
            if q == j {
                assert(!rel(s[m], s[p]));
            } else if q == m {
                assert(!rel(s[j], s[p]));
            } else {
                assert(!rel(s[q], s[p]));
            }
        } else {
            if q == m {
                assert(!rel(s[j], s[m]));
            } else {
                assert(!rel(s[q], s[m]));
            }
        }
    }
}

/// The position of the element that is chosen when the elements from `i`
/// on are held against the one chosen so far, which is at `m`: an element
/// that is in `rel` with the chosen one is chosen in its place.
pub open spec fn best_from<T>(rel: spec_fn(T, T) -> bool, s: Seq<T>, i: int, m: int) -> int
    decreases s.len() - i,
{
    if 0 <= i < s.len() {
        best_from(
            rel,
            s,
            i + 1,
            if rel(s[i], s[m]) {
                i
            } else {
                m
            },
        )
    } else {
        m
    }
}

/// `s` after each of the first `n` places in turn has got the element that
/// is chosen from there on.
pub open spec fn selected_upto<T>(rel: spec_fn(T, T) -> bool, s: Seq<T>, n: int) -> Seq<T>
    decreases n,
{
    if n <= 0 {
        s
    } else {
        let t = selected_upto(rel, s, n - 1);
        swapped(t, best_from(rel, t, n, n - 1), n - 1)
    }
}

/// Sorts by selection: each place in turn, but the last, gets an element
/// from there on that the comparison puts before no other of them.
pub fn selection_sort_by<T, F: Fn(&T, &T) -> bool>(s: &mut [T], compare: F)
    requires
        total(compare),
    ensures
        final(s)@.len() == old(s)@.len(),
        permutation(final(s)@, old(s)@),
        forall|rel: spec_fn(T, T) -> bool| #[trigger]
            decided_by(compare, rel) ==> final(s)@ == selected_upto(
                rel,
                old(s)@,
                old(s)@.len() - 1,
            ),
        forall|rel: spec_fn(T, T) -> bool| #[trigger]
            decided_by(compare, rel) && weak_order(rel) ==> chosen(rel, final(s)@),
{
    let n = s.len();
    if n <= 1 {
        return;
    }
    let mut j: usize = 0;
    while j < n - 1
        invariant
            total(compare),
            n == s@.len() == old(s)@.len(),
            n >= 2,
            j <= n - 1,
            permutation(s@, old(s)@),
            forall|rel: spec_fn(T, T) -> bool| #[trigger]
                decided_by(compare, rel) ==> s@ == selected_upto(rel, old(s)@, j as int),
            forall|rel: spec_fn(T, T) -> bool| #[trigger]
                decided_by(compare, rel) && weak_order(rel) ==> picked(rel, s@, j as int),
        decreases n - j,
    {
        let mut index: usize = j;
        let mut i: usize = j + 1;
        while i < n
            invariant
                total(compare),
                n == s@.len(),
                j <= index < i <= n,
                forall|rel: spec_fn(T, T) -> bool| #[trigger]
                    decided_by(compare, rel) ==> best_from(rel, s@, i as int, index as int)
                        == best_from(rel, s@, j + 1, j as int),
                forall|rel: spec_fn(T, T) -> bool| #[trigger]
                    decided_by(compare, rel) && weak_order(rel) ==> best(
                        rel,
                        s@,
                        j as int,
                        i as int,
                        index as int,
                    ),
            decreases n - i,
        {
            let r = compare(&s[i], &s[index]);
            proof {
                assert forall|rel: spec_fn(T, T) -> bool| #[trigger]
                    decided_by(compare, rel) implies best_from(
                    rel,
                    s@,
                    i + 1,
                    if r {
                        i as int
                    } else {
                        index as int
                    },
                ) == best_from(rel, s@, j + 1, j as int) by {
                    assert(call_ensures(compare, (&s@[i as int], &s@[index as int]), r));
                    assert(best_from(rel, s@, i as int, index as int) == best_from(
                        rel,
                        s@,
                        i + 1,
                        if rel(s@[i as int], s@[index as int]) {
                            i as int
                        } else {
                            index as int
                        },
                    ));
                }
                assert forall|rel: spec_fn(T, T) -> bool| #[trigger]
                    decided_by(compare, rel) && weak_order(rel) implies best(
                    rel,
                    s@,
                    j as int,
                    i + 1,
                    if r {
                        i as int
                    } else {
                        index as int
                    },
                ) by {
                    assert(call_ensures(compare, (&s@[i as int], &s@[index as int]), r));
                    lemma_best_next(rel, s@, j as int, i as int, index as int);
                }
            }
            if r {
                index = i;
            }
            i += 1;
        }
        let ghost before = s@;
        exchange_in(s, index, j);
        proof {
            assert forall|rel: spec_fn(T, T) -> bool| #[trigger]
                decided_by(compare, rel) implies s@ == selected_upto(rel, old(s)@, j + 1) by {
                assert(best_from(rel, before, n as int, index as int) == index);
                assert(before == selected_upto(rel, old(s)@, j as int));
            }
            assert forall|rel: spec_fn(T, T) -> bool| #[trigger]
                decided_by(compare, rel) && weak_order(rel) implies picked(rel, s@, j + 1) by {
                lemma_pick(rel, before, j as int, index as int);
            }
        }
        j += 1;
    }
}

/// The relation of an element that is larger than another.
pub open spec fn larger<T: Ord>() -> spec_fn(T, T) -> bool {
    |a: T, b: T| lt(b, a)
}

/// The relation of an element that is smaller than another.
pub open spec fn smaller<T: Ord>() -> spec_fn(T, T) -> bool {
    |a: T, b: T| lt(a, b)
}

/// Being larger and being smaller are weak orders, and what they settle is
/// ascending or descending order.
pub proof fn lemma_larger_smaller<T: Ord>(s: Seq<T>)
    requires
        total_order::<T>(),
    ensures
        weak_order(larger::<T>()),
        weak_order(smaller::<T>()),
        settled(larger::<T>(), s) <==> ascending(s),
        settled(smaller::<T>(), s) <==> descending(s),
        chosen(smaller::<T>(), s) <==> ascending(s),
{
    let up = larger::<T>();
    let down = smaller::<T>();
    assert forall|a: T| !#[trigger] up(a, a) by {
        lemma_total(a, a);
    }
    assert forall|a: T| !#[trigger] down(a, a) by {
        lemma_total(a, a);
    }
    assert forall|a: T, b: T| #[trigger] up(a, b) implies !up(b, a) by {
        lemma_total(a, b);
        lemma_total(b, a);
    }
    assert forall|a: T, b: T| #[trigger] down(a, b) implies !down(b, a) by {
        lemma_total(a, b);
        lemma_total(b, a);
    }
    assert forall|a: T, b: T, c: T| !#[trigger] up(a, b) && !#[trigger] up(b, c) implies !up(
        a,
        c,
    ) by {
        lemma_total(b, a);
        lemma_total(c, b);
        lemma_total(c, a);
        lemma_le_trans(a, b, c);
    }
    assert forall|a: T, b: T, c: T| !#[trigger] down(a, b) && !#[trigger] down(b, c) implies !down(
        a,
        c,
    ) by {
        lemma_total(a, b);
        lemma_total(b, c);
        lemma_total(a, c);
        lemma_le_trans(c, b, a);
    }
    assert(weak_order(up));
    assert(weak_order(down));
    assert forall|i: int, j: int| 0 <= i < s.len() && 0 <= j < s.len() implies (!up(s[i], s[j])
        <==> le(#[trigger] s[i], #[trigger] s[j])) && (!down(s[j], s[i]) <==> le(s[i], s[j])) by {
        lemma_total(s[j], s[i]);
        lemma_total(s[i], s[j]);
    }
    if settled(up, s) {
        assert forall|i: int, j: int| 0 <= i <= j < s.len() implies le(
            #[trigger] s[i],
            #[trigger] s[j],
        ) by {
            if i < j {
                assert(!up(s[i], s[j]));
            }
        }
    }
    if chosen(down, s) {
        assert forall|i: int, j: int| 0 <= i <= j < s.len() implies le(
            #[trigger] s[i],
            #[trigger] s[j],
        ) by {
            if i < j {
                assert(!down(s[j], s[i]));
            }
        }
    }
    if settled(down, s) {
        assert forall|i: int, j: int| 0 <= i <= j < s.len() implies le(
            #[trigger] s[j],
            #[trigger] s[i],
        ) by {
            if i < j {
                assert(!down(s[i], s[j]));
                lemma_total(s[i], s[j]);
            }
        }
    }
    if descending(s) {
        assert forall|i: int, j: int| 0 <= i < j < s.len() implies !down(
            #[trigger] s[i],
            #[trigger] s[j],
        ) by {
            lemma_total(s[i], s[j]);
        }
    }
}

/// A clone of an element is the element.
pub open spec fn faithful_clone<T: Clone>() -> bool {
    forall|a: T, b: T| #[trigger] cloned(a, b) ==> a == b
}

/// A clone of a built-in integer is that integer.
pub proof fn lemma_integers_clone()
    ensures
        faithful_clone::<i32>(),
        faithful_clone::<i64>(),
        faithful_clone::<isize>(),
        faithful_clone::<usize>(),
        faithful_clone::<u8>(),
{
}

/// A copy of `x`.
pub fn copy_of<T: Clone>(x: &T) -> (y: T)
    requires
        faithful_clone::<T>(),
    ensures
        y == *x,
{
    let y = x.clone();
    assert(cloned(*x, y));
    y
}

/// Copies of the elements of `s` from `from` up to `to`.
fn copies<T: Clone>(s: &[T], from: usize, to: usize) -> (part: Vec<T>)
    requires
        faithful_clone::<T>(),
        from <= to <= s@.len(),
    ensures
        part@ == s@.subrange(from as int, to as int),
{
    let mut part: Vec<T> = Vec::new();
    let mut k = from;
    while k < to
        invariant
            faithful_clone::<T>(),
            from <= k <= to <= s@.len(),
            part@ == s@.subrange(from as int, k as int),
        decreases to - k,
    {
        part.push(copy_of(&s[k]));
        assert(part@ =~= s@.subrange(from as int, k + 1));
        k += 1;
    }
    part
}

/// Two sequences merged into one: as long as both have elements, the first
/// element of `a` is taken where it is no larger than the first of `b`, and
/// the first of `b` where it is; then what is left of the other follows.
pub open spec fn merged<T: Ord>(a: Seq<T>, b: Seq<T>) -> Seq<T>
    decreases a.len() + b.len(),
{
    if a.len() == 0 {
        b
    } else if b.len() == 0 {
        a
    } else if le(a[0], b[0]) {
        Seq::empty().push(a[0]) + merged(a.drop_first(), b)
    } else {
        Seq::empty().push(b[0]) + merged(a, b.drop_first())
    }
}

/// Merges two neighbouring ranges into one: the elements from `start` up
/// to `middle` with those from `middle` up to `end`. Where each of the two
/// is in ascending order, so is the whole.
pub fn merge_in<T: Ord + Clone>(s: &mut [T], start: usize, middle: usize, end: usize)
    requires
        total_order::<T>(),
        faithful_clone::<T>(),
        start <= middle <= end <= old(s)@.len(),
    ensures
        rearranged_in(final(s)@, old(s)@, start as int, end as int),
        final(s)@.subrange(start as int, end as int) == merged(
            old(s)@.subrange(start as int, middle as int),
            old(s)@.subrange(middle as int, end as int),
        ),
        ascending_in(old(s)@, start as int, middle as int) && ascending_in(
            old(s)@,
            middle as int,
            end as int,
        ) ==> ascending_in(final(s)@, start as int, end as int),
{
    let ghost before = s@;
    let lhs = copies(s, start, middle);
    let rhs = copies(s, middle, end);
    let ghost sorted = ascending_in(before, start as int, middle as int) && ascending_in(
        before,
        middle as int,
        end as int,
    );
    let mut i: usize = 0;
    let mut j: usize = 0;
    let mut k: usize = start;
    assert(s@.subrange(start as int, k as int) =~= Seq::<T>::empty());
    assert(lhs@.skip(0) =~= lhs@);
    assert(rhs@.skip(0) =~= rhs@);
    assert(Seq::<T>::empty() + merged(lhs@, rhs@) =~= merged(lhs@, rhs@));
    assert(lhs@.take(0) =~= Seq::<T>::empty());
    assert(rhs@.take(0) =~= Seq::<T>::empty());
    proof {
        broadcast use vstd::seq_lib::to_multiset_len;
        broadcast use vstd::multiset::group_multiset_axioms;

        assert(Seq::<T>::empty().to_multiset().len() == 0);
        assert(Seq::<T>::empty().to_multiset().add(Seq::<T>::empty().to_multiset())
            =~= Seq::<T>::empty().to_multiset());
    }
    while k < end
        invariant
            total_order::<T>(),
            faithful_clone::<T>(),
            start <= middle <= end <= before.len(),
            s@.len() == before.len(),
            lhs@ == before.subrange(start as int, middle as int),
            rhs@ == before.subrange(middle as int, end as int),
            i <= lhs@.len(),
            j <= rhs@.len(),
            k == start + i + j,
            k <= end,
            s@.subrange(start as int, k as int) + merged(lhs@.skip(i as int), rhs@.skip(j as int))
                == merged(lhs@, rhs@),
            sorted == (ascending_in(before, start as int, middle as int) && ascending_in(
                before,
                middle as int,
                end as int,
            )),
            forall|x: int| 0 <= x < s@.len() && !(start <= x < end) ==> s@[x] == before[x],
            s@.subrange(start as int, k as int).to_multiset() == lhs@.take(i as int).to_multiset().add(
                rhs@.take(j as int).to_multiset(),
            ),
            sorted ==> ascending_in(s@, start as int, k as int),
            sorted ==> forall|x: int|
                start <= x < k && i < lhs@.len() ==> le(#[trigger] s@[x], lhs@[i as int]),
            sorted ==> forall|x: int|
                start <= x < k && j < rhs@.len() ==> le(#[trigger] s@[x], rhs@[j as int]),
        decreases end - k,
    {
        let ghost prev = s@;
        let left = i < lhs.len() && (j == rhs.len() || at_most(&lhs[i], &rhs[j]));
        if left {
            s[k] = copy_of(&lhs[i]);
        } else {
            s[k] = copy_of(&rhs[j]);
        }
        proof {
            broadcast use vstd::seq_lib::to_multiset_build;
            broadcast use vstd::multiset::group_multiset_axioms;

            let x = s@[k as int];
            assert(s@.subrange(start as int, k + 1) =~= prev.subrange(start as int, k as int).push(
                x,
            ));
            let a = lhs@.skip(i as int);
            let b = rhs@.skip(j as int);
            if i < lhs@.len() && j < rhs@.len() {
                lemma_total(lhs@[i as int], rhs@[j as int]);
            }
            if left {
                assert(a.drop_first() =~= lhs@.skip(i + 1));
                assert(merged(a, b) =~= Seq::empty().push(x) + merged(lhs@.skip(i + 1), b)) by {
                    if b.len() == 0 {
                        assert(merged(a.drop_first(), b) =~= a.drop_first());
                    }
                }
                assert(s@.subrange(start as int, k + 1) + merged(lhs@.skip(i + 1), b)
                    =~= prev.subrange(start as int, k as int) + merged(a, b));
            } else {
                assert(b.drop_first() =~= rhs@.skip(j + 1));
                assert(merged(a, b) =~= Seq::empty().push(x) + merged(a, rhs@.skip(j + 1))) by {
                    if a.len() == 0 {
                        assert(merged(a, b.drop_first()) =~= b.drop_first());
                    }
                }
                assert(s@.subrange(start as int, k + 1) + merged(a, rhs@.skip(j + 1))
                    =~= prev.subrange(start as int, k as int) + merged(a, b));
            }
            if left {
                assert(lhs@.take(i + 1) =~= lhs@.take(i as int).push(x));
                assert(s@.subrange(start as int, k + 1).to_multiset() =~= lhs@.take(
                    i + 1,
                ).to_multiset().add(rhs@.take(j as int).to_multiset()));
            } else {
                assert(rhs@.take(j + 1) =~= rhs@.take(j as int).push(x));
                assert(s@.subrange(start as int, k + 1).to_multiset() =~= lhs@.take(
                    i as int,
                ).to_multiset().add(rhs@.take(j + 1).to_multiset()));
            }
            if sorted {
                lemma_total(x, x);
                assert forall|a: int, b: int| start <= a <= b < k + 1 implies le(
                    #[trigger] s@[a],
                    #[trigger] s@[b],
                ) by {
                    if b < k {
                        assert(le(prev[a], prev[b]));
                    } else if a < k {
                        assert(le(prev[a], x));
                    }
                }
                if i < lhs@.len() && j < rhs@.len() {
                    lemma_total(lhs@[i as int], rhs@[j as int]);
                }
                let ni = if left { i + 1 } else { i as int };
                let nj = if left { j as int } else { j + 1 };
                assert forall|y: int| start <= y < k + 1 && ni < lhs@.len() implies le(
                    #[trigger] s@[y],
                    lhs@[ni],
                ) by {
                    if left {
                        assert(le(before[start + i], before[start + ni]));
                        if y < k {
                            lemma_le_trans(prev[y], lhs@[i as int], lhs@[ni]);
                        }
                    } else {
                        if y < k {
                            assert(le(prev[y], lhs@[i as int]));
                        }
                    }
                }
                assert forall|y: int| start <= y < k + 1 && nj < rhs@.len() implies le(
                    #[trigger] s@[y],
                    rhs@[nj],
                ) by {
                    if !left {
                        assert(le(before[middle + j], before[middle + nj]));
                        if y < k {
                            lemma_le_trans(prev[y], rhs@[j as int], rhs@[nj]);
                        }
                    } else {
                        if y < k {
                            assert(le(prev[y], rhs@[j as int]));
                        }
                    }
                }
            }
        }
        if left {
            i += 1;
        } else {
            j += 1;
        }
        k += 1;
    }
    proof {
        assert(lhs@.skip(i as int) =~= Seq::<T>::empty());
        assert(rhs@.skip(j as int) =~= Seq::<T>::empty());
        assert(s@.subrange(start as int, end as int) + Seq::<T>::empty() =~= s@.subrange(
            start as int,
            end as int,
        ));
        assert(lhs@.take(i as int) =~= lhs@);
        assert(rhs@.take(j as int) =~= rhs@);
        vstd::seq_lib::lemma_multiset_commutative(lhs@, rhs@);
        assert(before.subrange(start as int, end as int) =~= lhs@ + rhs@);
    }
}

/// `s` sorted by merging: each half is sorted in the same way, the first
/// half being the shorter one where the number of elements is odd, and the
/// two are merged.
pub open spec fn merge_sorted<T: Ord>(s: Seq<T>) -> Seq<T>
    decreases s.len(),
{
    if s.len() <= 1 {
        s
    } else {
        let half = s.len() as int / 2;
        merged(merge_sorted(s.take(half)), merge_sorted(s.skip(half)))
    }
}

/// Sorts the elements from `start` up to `end` by merging: each half is
/// sorted, and the two are merged.
pub fn merge_sort_in<T: Ord + Clone>(s: &mut [T], start: usize, end: usize)
    requires
        total_order::<T>(),
        faithful_clone::<T>(),
        start + 1 < end ==> end <= old(s)@.len(),
    ensures
        final(s)@.len() == old(s)@.len(),
        start + 1 >= end ==> final(s)@ == old(s)@,
        start < end <= old(s)@.len() ==> rearranged_in(
            final(s)@,
            old(s)@,
            start as int,
            end as int,
        ) && ascending_in(final(s)@, start as int, end as int),
        start < end <= old(s)@.len() ==> final(s)@.subrange(start as int, end as int)
            == merge_sorted(old(s)@.subrange(start as int, end as int)),
    decreases end - start,
{
    if end > 0 && start < end - 1 {
        let ghost before = s@;
        let middle = start + (end - start) / 2;
        merge_sort_in(s, start, middle);
        let ghost first = s@;
        merge_sort_in(s, middle, end);
        let ghost second = s@;
        proof {
            let whole = before.subrange(start as int, end as int);
            let half = whole.len() as int / 2;
            assert(whole.take(half) =~= before.subrange(start as int, middle as int));
            assert(whole.skip(half) =~= before.subrange(middle as int, end as int));
            assert(first.subrange(middle as int, end as int) =~= before.subrange(
                middle as int,
                end as int,
            ));
            assert(second.subrange(start as int, middle as int) =~= first.subrange(
                start as int,
                middle as int,
            ));
            assert forall|a: int, b: int| start <= a <= b < middle implies le(
                #[trigger] second[a],
                #[trigger] second[b],
            ) by {
                assert(second[a] == first[a]);
                assert(second[b] == first[b]);
            }
            lemma_rearranged_wider(
                first,
                before,
                start as int,
                middle as int,
                start as int,
                end as int,
            );
            lemma_rearranged_wider(
                second,
                first,
                middle as int,
                end as int,
                start as int,
                end as int,
            );
        }
        merge_in(s, start, middle, end);
    } else {
        proof {
            if start < end <= s@.len() {
                lemma_total(s@[start as int], s@[start as int]);
            }
        }
    }
}

/// The sequence and the place that parting ends with, when the elements
/// before `j` have been seen and those of them that are no larger than the
/// element at `end - 1` stand before `i`: each further element that is no
/// larger changes places with the one at `i`, and at last the element at
/// `end - 1` does.
pub open spec fn parted_from<T: Ord>(s: Seq<T>, end: int, i: int, j: int) -> (Seq<T>, int)
    decreases end - j,
{
    if j < end - 1 {
        if le(s[j], s[end - 1]) {
            parted_from(swapped(s, i, j), end, i + 1, j + 1)
        } else {
            parted_from(s, end, i, j + 1)
        }
    } else {
        (swapped(s, i, end - 1), i)
    }
}

/// The sequence with the elements from `start` up to `end` parted by the
/// last of them, and the place that this element goes to.
pub open spec fn parted<T: Ord>(s: Seq<T>, start: int, end: int) -> (Seq<T>, int) {
    parted_from(s, end, start, start)
}

/// The sequence with the elements from `start` up to `end` sorted by
/// parting them and sorting the parts in the same way, the first part
/// first.
pub open spec fn quick_sorted<T: Ord>(s: Seq<T>, start: int, end: int) -> Seq<T>
    decreases end - start,
{
    if start < end {
        let (p, at) = parted(s, start, end);
        if start <= at < end {
            quick_sorted(quick_sorted(p, start, at), at + 1, end)
        } else {
            s
        }
    } else {
        s
    }
}

/// Parts the elements from `start` up to `end` by the last of them: it goes
/// to the place that is returned, what is no larger goes before that place
/// and what is larger goes behind it.
pub fn partition_in<T: Ord>(s: &mut [T], start: usize, end: usize) -> (at: usize)
    requires
        total_order::<T>(),
        start < end <= old(s)@.len(),
    ensures
        start <= at < end,
        (final(s)@, at as int) == parted(old(s)@, start as int, end as int),
        final(s)@[at as int] == old(s)@[end - 1],
        rearranged_in(final(s)@, old(s)@, start as int, end as int),
        forall|k: int| start <= k < at ==> le(#[trigger] final(s)@[k], final(s)@[at as int]),
        forall|k: int| at < k < end ==> lt(final(s)@[at as int], #[trigger] final(s)@[k]),
{
    let ghost before = s@;
    let mut i: usize = start;
    let mut j: usize = start;
    while j < end - 1
        invariant
            total_order::<T>(),
            start <= i <= j <= end - 1,
            parted_from(s@, end as int, i as int, j as int) == parted(
                before,
                start as int,
                end as int,
            ),
            end <= before.len(),
            s@.len() == before.len(),
            s@[end - 1] == before[end - 1],
            rearranged_in(s@, before, start as int, end as int),
            forall|k: int| start <= k < i ==> le(#[trigger] s@[k], s@[end - 1]),
            forall|k: int| i <= k < j ==> lt(s@[end - 1], #[trigger] s@[k]),
        decreases end - j,
    {
        proof {
            lemma_total(s@[j as int], s@[end - 1]);
            lemma_total(s@[end - 1], s@[j as int]);
        }
        if at_most(&s[j], &s[end - 1]) {
            let ghost prev = s@;
            proof {
                lemma_swapped_rearranges(prev, i as int, j as int, start as int, end as int);
            }
            exchange_in(s, i, j);
            i += 1;
        }
        j += 1;
    }
    let ghost prev = s@;
    proof {
        lemma_swapped_rearranges(prev, i as int, end - 1, start as int, end as int);
        lemma_total(s@[end - 1], s@[end - 1]);
    }
    exchange_in(s, i, end - 1);
    i
}

/// Sorts the elements from `start` up to `end`: they are parted by the
/// last of them, and the parts are sorted in the same way.
pub fn quick_sort_in<T: Ord>(s: &mut [T], start: usize, end: usize)
    requires
        total_order::<T>(),
        start < end ==> end <= old(s)@.len(),
    ensures
        final(s)@.len() == old(s)@.len(),
        final(s)@ == quick_sorted(old(s)@, start as int, end as int),
        start >= end ==> final(s)@ == old(s)@,
        start < end ==> rearranged_in(final(s)@, old(s)@, start as int, end as int)
            && ascending_in(final(s)@, start as int, end as int),
    decreases end - start,
{
    if start < end {
        let ghost before = s@;
        let mid = partition_in(s, start, end);
        let ghost parted = s@;
        quick_sort_in(s, start, mid);
        let ghost first = s@;
        quick_sort_in(s, mid + 1, end);
        let ghost second = s@;
        proof {
            crate::seqs::lemma_rearranged_same(parted, start as int, mid as int);
            crate::seqs::lemma_rearranged_same(first, mid + 1, end as int);
            assert(rearranged_in(first, parted, start as int, mid as int));
            assert(rearranged_in(second, first, mid + 1, end as int));
            lemma_rearranged_wider(
                first,
                parted,
                start as int,
                mid as int,
                start as int,
                end as int,
            );
            lemma_rearranged_wider(second, first, mid + 1, end as int, start as int, end as int);
            let pivot = parted[mid as int];
            assert(second[mid as int] == pivot);
            assert forall|k: int| start <= k < mid implies le(#[trigger] second[k], pivot) by {
                assert(second[k] == first[k]);
                lemma_rearranged_member(first, parted, start as int, mid as int, k);
                let m = choose|m: int| start <= m < mid && parted[m] == first[k];
                assert(le(parted[m], pivot));
            }
            assert forall|k: int| mid < k < end implies lt(pivot, #[trigger] second[k]) by {
                lemma_rearranged_member(second, first, mid + 1, end as int, k);
                let m = choose|m: int| mid + 1 <= m < end && first[m] == second[k];
                assert(first[m] == parted[m]);
                assert(lt(pivot, parted[m]));
            }
            assert forall|a: int, b: int| start <= a <= b < end implies le(
                #[trigger] second[a],
                #[trigger] second[b],
            ) by {
                lemma_total(pivot, pivot);
                if b < mid {
                    assert(second[a] == first[a]);
                    assert(second[b] == first[b]);
                    assert(le(first[a], first[b]));
                } else if a > mid {
                    assert(le(second[a], second[b]));
                } else if a == mid {
                    if b > mid {
                        lemma_total(pivot, second[b]);
                    }
                } else {
                    if b == mid {
                    } else {
                        lemma_total(pivot, second[b]);
                        lemma_le_trans(second[a], pivot, second[b]);
                    }
                }
            }
        }
    }
}

/// Sorts in ascending order by insertion.
pub fn insertion_sort<T: Ord>(s: &mut [T])
    requires
        total_order::<T>(),
    ensures
        final(s)@.len() == old(s)@.len(),
        permutation(final(s)@, old(s)@),
        final(s)@ == inserted_upto(larger::<T>(), old(s)@, old(s)@.len() as int),
        ascending(final(s)@),
{
    let compare = |a: &T, b: &T| -> (r: bool)
        requires
            total_order::<T>(),
        ensures
            r == lt(*b, *a),
        { less(b, a) };
    let ghost asked = compare;
    insertion_sort_by(s, compare);
    proof {
        lemma_larger_smaller(s@);
        assert(decided_by(asked, larger::<T>()));
    }
}

/// Sorts in descending order by insertion.
pub fn insertion_sort_down<T: Ord>(s: &mut [T])
    requires
        total_order::<T>(),
    ensures
        final(s)@.len() == old(s)@.len(),
        permutation(final(s)@, old(s)@),
        final(s)@ == inserted_upto(smaller::<T>(), old(s)@, old(s)@.len() as int),
        descending(final(s)@),
{
    let compare = |a: &T, b: &T| -> (r: bool)
        requires
            total_order::<T>(),
        ensures
            r == lt(*a, *b),
        { less(a, b) };
    let ghost asked = compare;
    insertion_sort_by(s, compare);
    proof {
        lemma_larger_smaller(s@);
        assert(decided_by(asked, smaller::<T>()));
    }
}

/// Sorts in ascending order by selection.
pub fn selection_sort<T: Ord>(s: &mut [T])
    requires
        total_order::<T>(),
    ensures
        final(s)@.len() == old(s)@.len(),
        permutation(final(s)@, old(s)@),
        final(s)@ == selected_upto(smaller::<T>(), old(s)@, old(s)@.len() - 1),
        ascending(final(s)@),
{
    let compare = |a: &T, b: &T| -> (r: bool)
        requires
            total_order::<T>(),
        ensures
            r == lt(*a, *b),
        { less(a, b) };
    let ghost asked = compare;
    selection_sort_by(s, compare);
    proof {
        lemma_larger_smaller(s@);
        assert(decided_by(asked, smaller::<T>()));
    }
}

} // verus!
