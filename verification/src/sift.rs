//! The binary heap laid out over a sequence, for both orientations.
//!
//! The root is at position 0 and the children of position `i` are at
//! `2i + 1` and `2i + 2`. With `max` set the larger element stands above the
//! smaller one, without it the smaller above the larger. The functions here
//! work on a vector of which the first `size` elements are the heap; what
//! follows them is never compared and keeps its order.

use crate::order::le;
use crate::order::lemma_le_trans;
use crate::order::lemma_total;
use crate::order::less;
use crate::order::lt;
use crate::order::total_order;
use crate::seqs::exchange;
use crate::seqs::lemma_swapped_permutes;
use crate::seqs::permutation;
use crate::seqs::swapped;
use vstd::prelude::*;

verus! {

/// `a` may stand above `b` in a heap of this orientation.
pub open spec fn above<T: Ord>(max: bool, a: T, b: T) -> bool {
    if max {
        le(b, a)
    } else {
        le(a, b)
    }
}

/// `b` may not stand above `a` in a heap of this orientation.
pub open spec fn outranks<T: Ord>(max: bool, a: T, b: T) -> bool {
    if max {
        lt(b, a)
    } else {
        lt(a, b)
    }
}

/// The element at `i` may stand above each of its children that `s` has.
pub open spec fn parent_ok<T: Ord>(max: bool, s: Seq<T>, i: int) -> bool {
    &&& 2 * i + 1 < s.len() ==> above(max, s[i], s[2 * i + 1])
    &&& 2 * i + 2 < s.len() ==> above(max, s[i], s[2 * i + 2])
}

/// The heap property: every element may stand above its children.
pub open spec fn is_heap<T: Ord>(max: bool, s: Seq<T>) -> bool {
    forall|i: int| 0 <= i < s.len() ==> #[trigger] parent_ok(max, s, i)
}

/// The heap property for the parents from position `k` on.
pub open spec fn heap_from<T: Ord>(max: bool, s: Seq<T>, k: int) -> bool {
    forall|i: int| k <= i < s.len() ==> #[trigger] parent_ok(max, s, i)
}

/// Of position `i` and its children, the one whose element outranks the
/// others; the left child before the right one, and `i` before both.
pub open spec fn top_of_three<T: Ord>(max: bool, s: Seq<T>, i: int) -> int {
    let left = 2 * i + 1;
    let right = 2 * i + 2;
    let first = if left < s.len() && outranks(max, s[left], s[i]) {
        left
    } else {
        i
    };
    if right < s.len() && outranks(max, s[right], s[first]) {
        right
    } else {
        first
    }
}

/// `s` after the element at `i` has sunk: as long as a child outranks it, it
/// changes places with the child that outranks the other.
pub open spec fn sift_down<T: Ord>(max: bool, s: Seq<T>, i: int) -> Seq<T>
    decreases s.len() - i,
{
    if 0 <= i < s.len() {
        let top = top_of_three(max, s, i);
        if top == i {
            s
        } else {
            sift_down(max, swapped(s, i, top), top)
        }
    } else {
        s
    }
}

/// `s` after every parent has sunk in turn, from position `k - 1` down to
/// the root.
pub open spec fn heapified_from<T: Ord>(max: bool, s: Seq<T>, k: int) -> Seq<T>
    decreases k,
{
    if k <= 0 {
        s
    } else {
        heapified_from(max, sift_down(max, s, k - 1), k - 1)
    }
}

/// `s` rebuilt as a heap: each parent sinks, the last parent first and the
/// root last.
pub open spec fn heapified<T: Ord>(max: bool, s: Seq<T>) -> Seq<T> {
    heapified_from(max, s, s.len() as int / 2)
}

/// `s` after the element at `i` has climbed by halving its position: as long
/// as it outranks the element at half its position, the two change places.
pub open spec fn walk_up<T: Ord>(max: bool, s: Seq<T>, i: int) -> Seq<T>
    decreases i,
{
    if 0 < i < s.len() && outranks(max, s[i], s[i / 2]) {
        walk_up(max, swapped(s, i, i / 2), i / 2)
    } else {
        s
    }
}

/// `s` after the element at `i` has climbed towards the root: as long as it
/// outranks the element whose child it is, the two change places.
pub open spec fn rise<T: Ord>(max: bool, s: Seq<T>, i: int) -> Seq<T>
    decreases i,
{
    if 0 < i < s.len() && outranks(max, s[i], s[(i - 1) / 2]) {
        rise(max, swapped(s, i, (i - 1) / 2), (i - 1) / 2)
    } else {
        s
    }
}

/// Halving `i` again and again passes through the ancestors of `i` only:
/// `i` is the root or a left child whose parent is such a position too.
pub open spec fn on_left_spine(i: int) -> bool
    decreases i,
{
    i == 0 || (i > 0 && i % 2 == 1 && on_left_spine(i / 2))
}

/// `s` without its root: the last element takes the root's place and sinks.
pub open spec fn without_root<T: Ord>(max: bool, s: Seq<T>) -> Seq<T> {
    if s.len() <= 1 {
        Seq::empty()
    } else {
        sift_down(max, s.update(0, s.last()).drop_last(), 0)
    }
}

/// Each element of `s` may stand above all that come before it: ascending
/// order for a max-heap's orientation, descending for a min-heap's.
pub open spec fn ranked<T: Ord>(max: bool, s: Seq<T>) -> bool {
    forall|i: int, j: int| 0 <= i <= j < s.len() ==> above(max, #[trigger] s[j], #[trigger] s[i])
}

/// The heap `s` as its first `k` elements are put in order: the root changes
/// places with the last of them, the new root sinks among those before it,
/// and so on until one element is left.
pub open spec fn unloaded<T: Ord>(max: bool, s: Seq<T>, k: int) -> Seq<T>
    decreases k,
{
    if k <= 1 || k > s.len() {
        s
    } else {
        let turned = swapped(s, 0, k - 1);
        unloaded(max, sift_down(max, turned.take(k - 1), 0) + turned.skip(k - 1), k - 1)
    }
}

/// `s` without the element at `i`, whose place the last element has taken.
pub open spec fn filled_by_last<T>(s: Seq<T>, i: int) -> Seq<T> {
    swapped(s, i, s.len() - 1).drop_last()
}

/// `s` after the removal at position `i`. The last element takes the place.
/// Where it outranks the element that leaves, it sinks from there; where it
/// does not, it climbs by halving.
pub open spec fn without<T: Ord>(max: bool, s: Seq<T>, i: int) -> Seq<T> {
    if i == s.len() - 1 {
        s.drop_last()
    } else if outranks(max, s.last(), s[i]) {
        sift_down(max, filled_by_last(s, i), i)
    } else {
        walk_up(max, filled_by_last(s, i), i)
    }
}

/// `s` with `x` added: `x` enters behind the last element and climbs
/// towards the root.
pub open spec fn with_new<T: Ord>(max: bool, s: Seq<T>, x: T) -> Seq<T> {
    rise(max, s.push(x), s.len() as int)
}

/// The heap property but for the parent at `p`, whose element may have to
/// sink; the parent of `p`, where it counts, may stand above the children
/// of `p`.
pub open spec fn heap_but_down<T: Ord>(max: bool, s: Seq<T>, k: int, p: int) -> bool {
    &&& forall|j: int| k <= j < s.len() && j != p ==> #[trigger] parent_ok(max, s, j)
    &&& p >= 1 && (p - 1) / 2 >= k ==> {
        &&& 2 * p + 1 < s.len() ==> above(max, s[(p - 1) / 2], s[2 * p + 1])
        &&& 2 * p + 2 < s.len() ==> above(max, s[(p - 1) / 2], s[2 * p + 2])
    }
}

/// The element at `j` may stand above each of its children other than the
/// one at `i`.
pub open spec fn parent_ok_but<T: Ord>(max: bool, s: Seq<T>, j: int, i: int) -> bool {
    &&& 2 * j + 1 < s.len() && 2 * j + 1 != i ==> above(max, s[j], s[2 * j + 1])
    &&& 2 * j + 2 < s.len() && 2 * j + 2 != i ==> above(max, s[j], s[2 * j + 2])
}

/// The heap property but for the element at `i`, which may have to climb;
/// its parent may stand above its children.
pub open spec fn heap_but_up<T: Ord>(max: bool, s: Seq<T>, i: int) -> bool {
    &&& forall|j: int| 0 <= j < s.len() ==> #[trigger] parent_ok_but(max, s, j, i)
    &&& i >= 1 ==> {
        &&& 2 * i + 1 < s.len() ==> above(max, s[(i - 1) / 2], s[2 * i + 1])
        &&& 2 * i + 2 < s.len() ==> above(max, s[(i - 1) / 2], s[2 * i + 2])
    }
}

/// Standing above is a total preorder, and outranking is its strict part.
pub proof fn lemma_above<T: Ord>(max: bool, a: T, b: T)
    requires
        total_order::<T>(),
    ensures
        above(max, a, a),
        above(max, a, b) || above(max, b, a),
        outranks(max, a, b) <==> !above(max, b, a),
        outranks(max, a, b) ==> above(max, a, b),
{
    lemma_total(a, b);
    lemma_total(b, a);
}

/// Standing above is transitive.
pub proof fn lemma_above_trans<T: Ord>(max: bool, a: T, b: T, c: T)
    requires
        total_order::<T>(),
        above(max, a, b),
        above(max, b, c),
    ensures
        above(max, a, c),
{
    if max {
        lemma_le_trans(c, b, a);
    } else {
        lemma_le_trans(a, b, c);
    }
}

/// The element that `top_of_three` picks may stand above the two others.
pub proof fn lemma_top_of_three<T: Ord>(max: bool, s: Seq<T>, i: int)
    requires
        total_order::<T>(),
        0 <= i < s.len(),
    ensures
        ({
            let top = top_of_three(max, s, i);
            &&& top == i || top == 2 * i + 1 || top == 2 * i + 2
            &&& i <= top < s.len()
            &&& above(max, s[top], s[i])
            &&& top != i ==> outranks(max, s[top], s[i])
            &&& 2 * i + 1 < s.len() ==> above(max, s[top], s[2 * i + 1])
            &&& 2 * i + 2 < s.len() ==> above(max, s[top], s[2 * i + 2])
        }),
{
    let left = 2 * i + 1;
    let right = 2 * i + 2;
    let first = if left < s.len() && outranks(max, s[left], s[i]) {
        left
    } else {
        i
    };
    lemma_above(max, s[i], s[i]);
    if left < s.len() {
        lemma_above(max, s[left], s[i]);
        lemma_above(max, s[left], s[left]);
    }
    if right < s.len() {
        lemma_above(max, s[right], s[first]);
        lemma_above(max, s[right], s[right]);
        lemma_above(max, s[right], s[i]);
        if outranks(max, s[right], s[first]) {
            lemma_above_trans(max, s[right], s[first], s[i]);
            lemma_above_trans(max, s[right], s[first], s[left]);
            if first == left && above(max, s[i], s[right]) {
                lemma_above_trans(max, s[i], s[right], s[left]);
            }
        }
    }
}

/// Sinking rearranges the sequence and leaves the positions before `i` as
/// they were.
pub proof fn lemma_sift_down_permutes<T: Ord>(max: bool, s: Seq<T>, i: int)
    requires
        total_order::<T>(),
    ensures
        sift_down(max, s, i).len() == s.len(),
        permutation(sift_down(max, s, i), s),
        forall|j: int| 0 <= j < i && j < s.len() ==> sift_down(max, s, i)[j] == s[j],
    decreases s.len() - i,
{
    if 0 <= i < s.len() {
        let top = top_of_three(max, s, i);
        lemma_top_of_three(max, s, i);
        if top != i {
            let t = swapped(s, i, top);
            lemma_swapped_permutes(s, i, top);
            lemma_sift_down_permutes(max, t, top);
            assert forall|j: int| 0 <= j < i && j < s.len() implies sift_down(max, s, i)[j]
                == s[j] by {
                assert(sift_down(max, t, top)[j] == t[j]);
            }
        }
    }
}

/// Where only the parent at `p` may break the heap property, letting its
/// element sink restores it.
pub proof fn lemma_sift_down_restores<T: Ord>(max: bool, s: Seq<T>, k: int, p: int)
    requires
        total_order::<T>(),
        0 <= k <= p < s.len(),
        heap_but_down(max, s, k, p),
    ensures
        heap_from(max, sift_down(max, s, p), k),
    decreases s.len() - p,
{
    let top = top_of_three(max, s, p);
    lemma_top_of_three(max, s, p);
    if top == p {
        assert forall|j: int| k <= j < s.len() implies #[trigger] parent_ok(max, s, j) by {
            if j != p {
                assert(parent_ok(max, s, j));
            }
        }
    } else {
        let t = swapped(s, p, top);
        assert(parent_ok(max, s, top));
        assert forall|j: int| k <= j < t.len() && j != top implies #[trigger] parent_ok(
            max,
            t,
            j,
        ) by {
            if j == p {
                assert(parent_ok(max, t, j));
            } else {
                assert(parent_ok(max, s, j));
                if p >= 1 && j == (p - 1) / 2 {
                    assert(parent_ok(max, t, j));
                } else {
                    assert(2 * j + 1 != p && 2 * j + 2 != p);
                    assert(2 * j + 1 != top && 2 * j + 2 != top);
                    assert(parent_ok(max, t, j));
                }
            }
        }
        assert((top - 1) / 2 == p);
        assert(heap_but_down(max, t, k, top));
        lemma_sift_down_restores(max, t, k, top);
    }
}

/// In a heap the root may stand above every element.
pub proof fn lemma_root_above_all<T: Ord>(max: bool, s: Seq<T>, j: int)
    requires
        total_order::<T>(),
        is_heap(max, s),
        0 <= j < s.len(),
    ensures
        above(max, s[0], s[j]),
    decreases j,
{
    if j == 0 {
        lemma_above(max, s[0], s[0]);
    } else {
        let p = (j - 1) / 2;
        assert(parent_ok(max, s, p));
        assert(j == 2 * p + 1 || j == 2 * p + 2);
        lemma_root_above_all(max, s, p);
        lemma_above_trans(max, s[0], s[p], s[j]);
    }
}

/// Climbing rearranges the sequence.
pub proof fn lemma_rise_permutes<T: Ord>(max: bool, s: Seq<T>, i: int)
    ensures
        rise(max, s, i).len() == s.len(),
        permutation(rise(max, s, i), s),
    decreases i,
{
    if 0 < i < s.len() && outranks(max, s[i], s[(i - 1) / 2]) {
        lemma_swapped_permutes(s, i, (i - 1) / 2);
        lemma_rise_permutes(max, swapped(s, i, (i - 1) / 2), (i - 1) / 2);
    }
}

/// Climbing by halving rearranges the sequence and leaves the positions
/// behind `i` as they were.
pub proof fn lemma_walk_up_permutes<T: Ord>(max: bool, s: Seq<T>, i: int)
    ensures
        walk_up(max, s, i).len() == s.len(),
        permutation(walk_up(max, s, i), s),
        forall|j: int| i < j < s.len() ==> walk_up(max, s, i)[j] == s[j],
    decreases i,
{
    if 0 < i < s.len() && outranks(max, s[i], s[i / 2]) {
        let t = swapped(s, i, i / 2);
        lemma_swapped_permutes(s, i, i / 2);
        lemma_walk_up_permutes(max, t, i / 2);
        assert forall|j: int| i < j < s.len() implies walk_up(max, s, i)[j] == s[j] by {
            assert(walk_up(max, t, i / 2)[j] == t[j]);
        }
    }
}

/// Where only the element at `i` may break the heap property, by outranking
/// its parent, letting it climb restores the property.
pub proof fn lemma_rise_restores<T: Ord>(max: bool, s: Seq<T>, i: int)
    requires
        total_order::<T>(),
        0 <= i < s.len(),
        heap_but_up(max, s, i),
    ensures
        is_heap(max, rise(max, s, i)),
    decreases i,
{
    if i == 0 {
        assert forall|j: int| 0 <= j < s.len() implies #[trigger] parent_ok(max, s, j) by {
            assert(parent_ok_but(max, s, j, i));
        }
    } else {
        let q = (i - 1) / 2;
        lemma_above(max, s[i], s[q]);
        lemma_above(max, s[q], s[i]);
        if !outranks(max, s[i], s[q]) {
            assert forall|j: int| 0 <= j < s.len() implies #[trigger] parent_ok(max, s, j) by {
                assert(parent_ok_but(max, s, j, i));
            }
        } else {
            let t = swapped(s, i, q);
            assert(parent_ok_but(max, s, q, i));
            assert forall|j: int| 0 <= j < t.len() implies #[trigger] parent_ok_but(
                max,
                t,
                j,
                q,
            ) by {
                assert(parent_ok_but(max, s, j, i));
                if j == q {
                    if 2 * q + 1 < s.len() && 2 * q + 1 != i {
                        lemma_above_trans(max, s[i], s[q], s[2 * q + 1]);
                    }
                    if 2 * q + 2 < s.len() && 2 * q + 2 != i {
                        lemma_above_trans(max, s[i], s[q], s[2 * q + 2]);
                    }
                } else if j == i {
                } else {
                    assert(2 * j + 1 != i && 2 * j + 2 != i);
                }
            }
            if q >= 1 {
                let g = (q - 1) / 2;
                assert(parent_ok_but(max, s, g, i));
                assert(q == 2 * g + 1 || q == 2 * g + 2);
                assert(above(max, s[g], s[q]));
                if 2 * q + 1 < s.len() && 2 * q + 1 != i {
                    lemma_above_trans(max, s[g], s[q], s[2 * q + 1]);
                }
                if 2 * q + 2 < s.len() && 2 * q + 2 != i {
                    lemma_above_trans(max, s[g], s[q], s[2 * q + 2]);
                }
            }
            assert(heap_but_up(max, t, q));
            lemma_rise_restores(max, t, q);
        }
    }
}

/// From a position on the left spine, climbing by halving is climbing
/// towards the root.
pub proof fn lemma_walk_up_on_spine<T: Ord>(max: bool, s: Seq<T>, i: int)
    requires
        on_left_spine(i),
    ensures
        walk_up(max, s, i) == rise(max, s, i),
    decreases i,
{
    if 0 < i < s.len() && outranks(max, s[i], s[i / 2]) {
        assert(i / 2 == (i - 1) / 2);
        lemma_walk_up_on_spine(max, swapped(s, i, i / 2), i / 2);
    }
}

/// Letting every parent sink in turn, the last first, makes a heap of the
/// same elements.
pub proof fn lemma_heapified_from<T: Ord>(max: bool, s: Seq<T>, k: int)
    requires
        total_order::<T>(),
        0 <= k <= s.len(),
        heap_from(max, s, k),
    ensures
        is_heap(max, heapified_from(max, s, k)),
        permutation(heapified_from(max, s, k), s),
        heapified_from(max, s, k).len() == s.len(),
    decreases k,
{
    if k > 0 {
        let t = sift_down(max, s, k - 1);
        lemma_sift_down_permutes(max, s, k - 1);
        lemma_sift_down_restores(max, s, k - 1, k - 1);
        lemma_heapified_from(max, t, k - 1);
    }
}

/// Rebuilding makes a heap of the same elements.
pub proof fn lemma_heapified<T: Ord>(max: bool, s: Seq<T>)
    requires
        total_order::<T>(),
    ensures
        is_heap(max, heapified(max, s)),
        permutation(heapified(max, s), s),
        heapified(max, s).len() == s.len(),
{
    assert forall|i: int| s.len() as int / 2 <= i < s.len() implies #[trigger] parent_ok(
        max,
        s,
        i,
    ) by {}
    lemma_heapified_from(max, s, s.len() as int / 2);
}

/// Taking the root out of a heap leaves a heap of the other elements, none
/// of which outranks the root.
pub proof fn lemma_without_root<T: Ord>(max: bool, s: Seq<T>)
    requires
        total_order::<T>(),
        s.len() > 0,
    ensures
        without_root(max, s).len() == s.len() - 1,
        without_root(max, s).to_multiset() == s.to_multiset().remove(s[0]),
        forall|j: int|
            0 <= j < without_root(max, s).len() ==> s.contains(#[trigger] without_root(max, s)[j]),
        is_heap(max, s) ==> is_heap(max, without_root(max, s)),
        is_heap(max, s) ==> forall|j: int|
            0 <= j < without_root(max, s).len() ==> above(
                max,
                s[0],
                #[trigger] without_root(max, s)[j],
            ),
{
    broadcast use vstd::seq_lib::to_multiset_update;
    broadcast use vstd::seq_lib::to_multiset_remove;
    broadcast use vstd::multiset::group_multiset_axioms;

    let r = without_root(max, s);
    let m = s.to_multiset();
    s.to_multiset_ensures();
    assert(s.contains(s[0]));
    assert(s.contains(s.last()));
    if s.len() == 1 {
        assert(s.remove(0) =~= Seq::<T>::empty());
        assert(s.remove(0).to_multiset() == m.remove(s[0]));
    } else {
        let u = s.update(0, s.last());
        let t = u.drop_last();
        assert(t =~= u.remove(u.len() - 1));
        assert(u.to_multiset() == m.insert(s.last()).remove(s[0]));
        assert(t.to_multiset() == u.to_multiset().remove(s.last()));
        assert(t.to_multiset() =~= m.remove(s[0]));
        lemma_sift_down_permutes(max, t, 0);
        assert forall|j: int| 0 <= j < r.len() implies s.contains(#[trigger] r[j]) by {
            crate::seqs::lemma_permutation_member(r, t, j);
            let k = choose|k: int| 0 <= k < t.len() && t[k] == r[j];
            if k == 0 {
                assert(s[s.len() - 1] == r[j]);
            } else {
                assert(s[k] == r[j]);
            }
        }
        if is_heap(max, s) {
            assert forall|j: int| 0 <= j < t.len() && j != 0 implies #[trigger] parent_ok(
                max,
                t,
                j,
            ) by {
                assert(parent_ok(max, s, j));
            }
            lemma_sift_down_restores(max, t, 0, 0);
            assert forall|j: int| 0 <= j < r.len() implies above(max, s[0], #[trigger] r[j]) by {
                crate::seqs::lemma_permutation_member(r, t, j);
                let k = choose|k: int| 0 <= k < t.len() && t[k] == r[j];
                if k == 0 {
                    lemma_root_above_all(max, s, s.len() - 1);
                } else {
                    lemma_root_above_all(max, s, k);
                }
            }
        }
    }
}

/// Adding an element to a heap gives a heap of the old elements and the new
/// one.
pub proof fn lemma_with_new<T: Ord>(max: bool, s: Seq<T>, x: T)
    requires
        total_order::<T>(),
    ensures
        with_new(max, s, x).len() == s.len() + 1,
        with_new(max, s, x).to_multiset() == s.to_multiset().insert(x),
        is_heap(max, s) ==> is_heap(max, with_new(max, s, x)),
{
    broadcast use vstd::seq_lib::to_multiset_build;

    let t = s.push(x);
    lemma_rise_permutes(max, t, s.len() as int);
    if is_heap(max, s) {
        assert forall|j: int| 0 <= j < t.len() implies #[trigger] parent_ok_but(
            max,
            t,
            j,
            s.len() as int,
        ) by {
            if j < s.len() {
                assert(parent_ok(max, s, j));
            }
        }
        lemma_rise_restores(max, t, s.len() as int);
    }
}

/// The last element of `s` may take the place of the element at `i`: where
/// it outranks that element it does not outrank the parent of `i`; where it
/// does not, it may stand above the children of `i`, and `i` is on the left
/// spine or the last element does not outrank the element at half of `i`.
pub open spec fn last_fits<T: Ord>(max: bool, s: Seq<T>, i: int) -> bool {
    if i == s.len() - 1 {
        true
    } else if outranks(max, s.last(), s[i]) {
        i == 0 || above(max, s[(i - 1) / 2], s.last())
    } else {
        &&& parent_ok(max, filled_by_last(s, i), i)
        &&& on_left_spine(i) || !outranks(max, s.last(), filled_by_last(s, i)[i / 2])
    }
}

/// A removal leaves the other elements, and a heap where the last element
/// fits the place.
pub proof fn lemma_without<T: Ord>(max: bool, s: Seq<T>, i: int)
    requires
        total_order::<T>(),
        0 <= i < s.len(),
    ensures
        without(max, s, i).len() == s.len() - 1,
        without(max, s, i).to_multiset() == s.to_multiset().remove(s[i]),
        is_heap(max, s) && last_fits(max, s, i) ==> is_heap(max, without(max, s, i)),
{
    broadcast use vstd::seq_lib::to_multiset_remove;

    let n = s.len() - 1;
    let w = swapped(s, i, n);
    let t = filled_by_last(s, i);
    lemma_swapped_permutes(s, i, n);
    assert(t =~= w.remove(n));
    assert(w[n] == s[i]);
    assert(t.to_multiset() == s.to_multiset().remove(s[i]));
    if i == n {
        assert(t =~= s.drop_last());
        if is_heap(max, s) {
            assert forall|j: int| 0 <= j < t.len() implies #[trigger] parent_ok(max, t, j) by {
                assert(parent_ok(max, s, j));
            }
        }
    } else if outranks(max, s.last(), s[i]) {
        lemma_sift_down_permutes(max, t, i);
        if is_heap(max, s) && last_fits(max, s, i) {
            assert forall|j: int| 0 <= j < t.len() && j != i implies #[trigger] parent_ok(
                max,
                t,
                j,
            ) by {
                assert(parent_ok(max, s, j));
            }
            if i >= 1 {
                let q = (i - 1) / 2;
                assert(parent_ok(max, s, q));
                assert(parent_ok(max, s, i));
                assert(i == 2 * q + 1 || i == 2 * q + 2);
                if 2 * i + 1 < t.len() {
                    lemma_above_trans(max, s[q], s[i], s[2 * i + 1]);
                }
                if 2 * i + 2 < t.len() {
                    lemma_above_trans(max, s[q], s[i], s[2 * i + 2]);
                }
            }
            lemma_sift_down_restores(max, t, 0, i);
        }
    } else {
        lemma_walk_up_permutes(max, t, i);
        if is_heap(max, s) && last_fits(max, s, i) {
            lemma_above(max, s[i], s.last());
            lemma_above(max, s.last(), s[i]);
            if on_left_spine(i) {
                lemma_walk_up_on_spine(max, t, i);
            } else {
                let q = (i - 1) / 2;
                assert(parent_ok(max, s, q));
                assert(i == 2 * q + 1 || i == 2 * q + 2);
                lemma_above_trans(max, s[q], s[i], s.last());
                lemma_above(max, t[i], t[q]);
                assert(walk_up(max, t, i) == t);
                assert(rise(max, t, i) == t);
            }
            assert forall|j: int| 0 <= j < t.len() implies #[trigger] parent_ok_but(
                max,
                t,
                j,
                i,
            ) by {
                if j != i {
                    assert(parent_ok(max, s, j));
                }
            }
            if i >= 1 {
                let q = (i - 1) / 2;
                assert(parent_ok(max, s, q));
                assert(parent_ok(max, s, i));
                assert(i == 2 * q + 1 || i == 2 * q + 2);
                if 2 * i + 1 < t.len() {
                    lemma_above_trans(max, s[q], s[i], s[2 * i + 1]);
                }
                if 2 * i + 2 < t.len() {
                    lemma_above_trans(max, s[q], s[i], s[2 * i + 2]);
                }
            }
            lemma_rise_restores(max, t, i);
        }
    }
}

/// The key `key` climbs well from `i`: `i` is on the left spine, or the key
/// outranks neither the parent of `i` nor the element at half of `i`.
pub open spec fn key_fits<T: Ord>(max: bool, s: Seq<T>, i: int, key: T) -> bool {
    ||| on_left_spine(i)
    ||| i > 0 && above(max, s[(i - 1) / 2], key) && !outranks(max, key, s[i / 2])
}

/// `s` after the element at `i` has been given the key `key` and has
/// climbed by halving.
pub open spec fn rekeyed<T: Ord>(max: bool, s: Seq<T>, i: int, key: T) -> Seq<T> {
    walk_up(max, s.update(i, key), i)
}

/// A new key at `i` exchanges one element for another; a key that may
/// stand above the old one and climbs well leaves a heap.
pub proof fn lemma_rekeyed<T: Ord>(max: bool, s: Seq<T>, i: int, key: T)
    requires
        total_order::<T>(),
        0 <= i < s.len(),
    ensures
        rekeyed(max, s, i, key).len() == s.len(),
        rekeyed(max, s, i, key).to_multiset() == s.to_multiset().insert(key).remove(s[i]),
        is_heap(max, s) && above(max, key, s[i]) && key_fits(max, s, i, key) ==> is_heap(
            max,
            rekeyed(max, s, i, key),
        ),
{
    broadcast use vstd::seq_lib::to_multiset_update;

    let t = s.update(i, key);
    lemma_walk_up_permutes(max, t, i);
    if is_heap(max, s) && above(max, key, s[i]) && key_fits(max, s, i, key) {
        if on_left_spine(i) {
            lemma_walk_up_on_spine(max, t, i);
        } else {
            lemma_above(max, key, s[(i - 1) / 2]);
            assert(walk_up(max, t, i) == t);
            assert(rise(max, t, i) == t);
        }
        assert(parent_ok(max, s, i));
        assert forall|j: int| 0 <= j < t.len() implies #[trigger] parent_ok_but(
            max,
            t,
            j,
            i,
        ) by {
            assert(parent_ok(max, s, j));
            if j == i {
                if 2 * i + 1 < t.len() {
                    lemma_above_trans(max, key, s[i], s[2 * i + 1]);
                }
                if 2 * i + 2 < t.len() {
                    lemma_above_trans(max, key, s[i], s[2 * i + 2]);
                }
            }
        }
        if i >= 1 {
            let q = (i - 1) / 2;
            assert(parent_ok(max, s, q));
            assert(i == 2 * q + 1 || i == 2 * q + 2);
            if 2 * i + 1 < t.len() {
                lemma_above_trans(max, s[q], s[i], s[2 * i + 1]);
            }
            if 2 * i + 2 < t.len() {
                lemma_above_trans(max, s[q], s[i], s[2 * i + 2]);
            }
        }
        lemma_rise_restores(max, t, i);
    }
}

/// Rebuilding two arrangements of the same elements gives two heaps of
/// these elements.
pub proof fn lemma_heapified_arrangements<T: Ord>(max: bool, a: Seq<T>, b: Seq<T>)
    requires
        total_order::<T>(),
        permutation(a, b),
    ensures
        is_heap(max, heapified(max, a)),
        is_heap(max, heapified(max, b)),
        heapified(max, a).len() == heapified(max, b).len(),
        permutation(heapified(max, a), heapified(max, b)),
{
    lemma_heapified(max, a);
    lemma_heapified(max, b);
    a.to_multiset_ensures();
    b.to_multiset_ensures();
}

/// The elements that leave a heap when the root is taken out `n` times, in
/// the order in which they leave.
pub open spec fn extracted<T: Ord>(max: bool, s: Seq<T>, n: nat) -> Seq<T>
    decreases n,
{
    if n == 0 || s.len() == 0 {
        Seq::empty()
    } else {
        Seq::empty().push(s[0]) + extracted(max, without_root(max, s), (n - 1) as nat)
    }
}

/// The elements of a heap leave it in the order of their rank: taking the
/// root out of a heap until it is empty gives all its elements, none before
/// one that outranks it.
pub proof fn lemma_extracted<T: Ord>(max: bool, s: Seq<T>)
    requires
        total_order::<T>(),
        is_heap(max, s),
    ensures
        extracted(max, s, s.len()).len() == s.len(),
        permutation(extracted(max, s, s.len()), s),
        forall|i: int, j: int|
            0 <= i <= j < s.len() ==> above(
                max,
                #[trigger] extracted(max, s, s.len())[i],
                #[trigger] extracted(max, s, s.len())[j],
            ),
    decreases s.len(),
{
    broadcast use vstd::seq_lib::to_multiset_build;
    broadcast use vstd::seq_lib::to_multiset_insert;
    broadcast use vstd::multiset::group_multiset_axioms;

    if s.len() > 0 {
        let rest = without_root(max, s);
        lemma_without_root(max, s);
        lemma_extracted(max, rest);
        let tail = extracted(max, rest, rest.len());
        let all = extracted(max, s, s.len());
        assert(all =~= tail.insert(0, s[0]));
        s.to_multiset_ensures();
        assert(s.contains(s[0]));
        assert(all.to_multiset() =~= s.to_multiset());
        assert forall|i: int, j: int| 0 <= i <= j < s.len() implies above(
            max,
            #[trigger] all[i],
            #[trigger] all[j],
        ) by {
            if i == 0 {
                if j == 0 {
                    lemma_above(max, s[0], s[0]);
                } else {
                    crate::seqs::lemma_permutation_member(tail, rest, j - 1);
                    let k = choose|k: int| 0 <= k < rest.len() && rest[k] == tail[j - 1];
                    assert(above(max, s[0], rest[k]));
                }
            } else {
                assert(above(max, tail[i - 1], tail[j - 1]));
            }
        }
    } else {
        assert(s =~= extracted(max, s, s.len()));
    }
}

/// Whether `a` outranks `b` in a heap of this orientation.
pub(crate) fn ranks_above<T: Ord>(max: bool, a: &T, b: &T) -> (r: bool)
    requires
        total_order::<T>(),
    ensures
        r == outranks(max, *a, *b),
{
    if max {
        less(b, a)
    } else {
        less(a, b)
    }
}

/// Lets the element at `index` sink within the first `size` elements of `v`.
pub(crate) fn sink<T: Ord>(v: &mut Vec<T>, size: usize, index: usize, max: bool)
    requires
        total_order::<T>(),
        size <= old(v).len(),
    ensures
        final(v)@.len() == old(v)@.len(),
        final(v)@.take(size as int) == sift_down(max, old(v)@.take(size as int), index as int),
        final(v)@.skip(size as int) == old(v)@.skip(size as int),
{
    let ghost start = v@;
    let mut i = index;
    let mut settled = false;
    while !settled && i < size / 2
        invariant
            total_order::<T>(),
            size <= v.len(),
            v@.len() == start.len(),
            v@.skip(size as int) == start.skip(size as int),
            sift_down(max, v@.take(size as int), i as int) == sift_down(
                max,
                start.take(size as int),
                index as int,
            ),
            settled ==> sift_down(max, v@.take(size as int), i as int) == v@.take(size as int),
        decreases size - i + (if settled { 0int } else { 1int }),
    {
        let ghost heap = v@.take(size as int);
        let left = 2 * i + 1;
        let right = left + 1;
        let mut top = i;
        if ranks_above(max, &v[left], &v[i]) {
            top = left;
        }
        if right < size && ranks_above(max, &v[right], &v[top]) {
            top = right;
        }
        assert(top == top_of_three(max, heap, i as int));
        if top == i {
            settled = true;
        } else {
            let ghost before = v@;
            exchange(v, i, top);
            assert(v@.take(size as int) =~= swapped(heap, i as int, top as int));
            assert(v@.skip(size as int) =~= before.skip(size as int));
            i = top;
        }
    }
}

/// Rebuilds the first `size` elements of `v` as a heap.
pub(crate) fn heapify<T: Ord>(v: &mut Vec<T>, size: usize, max: bool)
    requires
        total_order::<T>(),
        size <= old(v).len(),
    ensures
        final(v)@.len() == old(v)@.len(),
        final(v)@.take(size as int) == heapified(max, old(v)@.take(size as int)),
        final(v)@.skip(size as int) == old(v)@.skip(size as int),
{
    let ghost start = v@;
    let mut k = size / 2;
    while k > 0
        invariant
            total_order::<T>(),
            size <= v.len(),
            k <= size / 2,
            v@.len() == start.len(),
            v@.skip(size as int) == start.skip(size as int),
            heapified_from(max, v@.take(size as int), k as int) == heapified(
                max,
                start.take(size as int),
            ),
        decreases k,
    {
        k -= 1;
        sink(v, size, k, max);
    }
}

/// Lets the element at `index` climb towards the root of the heap that the
/// first `size` elements of `v` are.
pub(crate) fn climb<T: Ord>(v: &mut Vec<T>, size: usize, index: usize, max: bool)
    requires
        total_order::<T>(),
        index < size <= old(v).len(),
    ensures
        final(v)@.len() == old(v)@.len(),
        final(v)@.take(size as int) == rise(max, old(v)@.take(size as int), index as int),
        final(v)@.skip(size as int) == old(v)@.skip(size as int),
{
    let ghost start = v@;
    let mut i = index;
    let mut settled = false;
    while !settled && i > 0
        invariant
            total_order::<T>(),
            i < size <= v.len(),
            v@.len() == start.len(),
            v@.skip(size as int) == start.skip(size as int),
            rise(max, v@.take(size as int), i as int) == rise(
                max,
                start.take(size as int),
                index as int,
            ),
            settled ==> rise(max, v@.take(size as int), i as int) == v@.take(size as int),
        decreases i + (if settled { 0int } else { 1int }),
    {
        let ghost heap = v@.take(size as int);
        let up = (i - 1) / 2;
        if ranks_above(max, &v[i], &v[up]) {
            let ghost before = v@;
            exchange(v, i, up);
            assert(v@.take(size as int) =~= swapped(heap, i as int, up as int));
            assert(v@.skip(size as int) =~= before.skip(size as int));
            i = up;
        } else {
            settled = true;
        }
    }
}

/// Lets the element at `index` climb by halving its position within the
/// first `size` elements of `v`.
pub(crate) fn walk<T: Ord>(v: &mut Vec<T>, size: usize, index: usize, max: bool)
    requires
        total_order::<T>(),
        index < size <= old(v).len(),
    ensures
        final(v)@.len() == old(v)@.len(),
        final(v)@.take(size as int) == walk_up(max, old(v)@.take(size as int), index as int),
        final(v)@.skip(size as int) == old(v)@.skip(size as int),
{
    let ghost start = v@;
    let mut i = index;
    let mut settled = false;
    while !settled && i > 0
        invariant
            total_order::<T>(),
            i < size <= v.len(),
            v@.len() == start.len(),
            v@.skip(size as int) == start.skip(size as int),
            walk_up(max, v@.take(size as int), i as int) == walk_up(
                max,
                start.take(size as int),
                index as int,
            ),
            settled ==> walk_up(max, v@.take(size as int), i as int) == v@.take(size as int),
        decreases i + (if settled { 0int } else { 1int }),
    {
        let ghost heap = v@.take(size as int);
        let up = i / 2;
        if ranks_above(max, &v[i], &v[up]) {
            let ghost before = v@;
            exchange(v, i, up);
            assert(v@.take(size as int) =~= swapped(heap, i as int, up as int));
            assert(v@.skip(size as int) =~= before.skip(size as int));
            i = up;
        } else {
            settled = true;
        }
    }
}

/// Takes the root out of the heap that the first `size` elements of `v`
/// are. The elements behind the heap move up by one place.
pub(crate) fn take_root<T: Ord>(v: &mut Vec<T>, size: usize, max: bool) -> (root: T)
    requires
        total_order::<T>(),
        0 < size <= old(v).len(),
    ensures
        root == old(v)@[0],
        final(v)@.len() == old(v)@.len() - 1,
        final(v)@.take(size - 1) == without_root(max, old(v)@.take(size as int)),
        final(v)@.skip(size - 1) == old(v)@.skip(size as int),
{
    let ghost start = v@;
    exchange(v, 0, size - 1);
    let root = v.remove(size - 1);
    assert(v@.skip(size - 1) =~= start.skip(size as int));
    proof {
        if size > 1 {
            assert(v@.take(size - 1) =~= start.take(size as int).update(
                0,
                start.take(size as int).last(),
            ).drop_last());
        } else {
            assert(v@.take(size - 1) =~= Seq::<T>::empty());
        }
    }
    sink(v, size - 1, 0, max);
    proof {
        if size == 1 {
            assert(v@.take(0) =~= Seq::<T>::empty());
        }
    }
    root
}

/// Takes the element at `index` out of the heap that the first `size`
/// elements of `v` are. The elements behind the heap move up by one place.
pub(crate) fn take_at<T: Ord>(v: &mut Vec<T>, size: usize, index: usize, max: bool) -> (gone: T)
    requires
        total_order::<T>(),
        index < size <= old(v).len(),
    ensures
        gone == old(v)@[index as int],
        final(v)@.len() == old(v)@.len() - 1,
        final(v)@.take(size - 1) == without(max, old(v)@.take(size as int), index as int),
        final(v)@.skip(size - 1) == old(v)@.skip(size as int),
{
    let ghost start = v@;
    let ghost heap = start.take(size as int);
    let last = size - 1;
    if index == last {
        let gone = v.remove(last);
        assert(v@.skip(size - 1) =~= start.skip(size as int));
        assert(v@.take(size - 1) =~= heap.drop_last());
        gone
    } else {
        let sinks = ranks_above(max, &v[last], &v[index]);
        exchange(v, index, last);
        let gone = v.remove(last);
        assert(v@.skip(size - 1) =~= start.skip(size as int));
        assert(v@.take(size - 1) =~= filled_by_last(heap, index as int));
        if sinks {
            sink(v, last, index, max);
        } else {
            walk(v, last, index, max);
        }
        gone
    }
}

/// Adds `x` to the heap that the first `size` elements of `v` are. It takes
/// the place of the element that stood behind the heap, or makes the vector
/// longer where none did, and climbs towards the root.
pub(crate) fn put<T: Ord>(v: &mut Vec<T>, size: usize, x: T, max: bool)
    requires
        total_order::<T>(),
        size <= old(v).len(),
    ensures
        final(v)@.len() == if size == old(v)@.len() {
            size + 1
        } else {
            old(v)@.len() as int
        },
        final(v)@.take(size + 1) == with_new(max, old(v)@.take(size as int), x),
        size < old(v)@.len() ==> final(v)@.skip(size + 1) == old(v)@.skip(size + 1),
{
    let ghost start = v@;
    if size == v.len() {
        v.push(x);
    } else {
        v[size] = x;
    }
    assert(v@.take(size + 1) =~= start.take(size as int).push(x));
    proof {
        if size < start.len() {
            assert(v@.skip(size + 1) =~= start.skip(size + 1));
        }
    }
    assert(size < v.len());
    climb(v, size + 1, size, max);
}

/// Gives the element at `index` the key `key` and lets it climb by halving
/// within the first `size` elements of `v`. Returns the key that was there.
pub(crate) fn rekey<T: Ord>(v: &mut Vec<T>, size: usize, index: usize, key: T, max: bool) -> (prev: T)
    requires
        total_order::<T>(),
        index < size <= old(v).len(),
    ensures
        prev == old(v)@[index as int],
        final(v)@.len() == old(v)@.len(),
        final(v)@.take(size as int) == rekeyed(
            max,
            old(v)@.take(size as int),
            index as int,
            key,
        ),
        final(v)@.skip(size as int) == old(v)@.skip(size as int),
{
    let ghost start = v@;
    let mut key = key;
    core::mem::swap(&mut v[index], &mut key);
    assert(v@.take(size as int) =~= start.take(size as int).update(index as int, v@[index as int]));
    assert(v@.skip(size as int) =~= start.skip(size as int));
    walk(v, size, index, max);
    key
}

/// Puts the heap that the first `size` elements of `v` are in order: the
/// root changes places with the last element, the heap shrinks by one, and
/// the new root sinks, until one element is left.
pub(crate) fn unload<T: Ord>(v: &mut Vec<T>, size: usize, max: bool)
    requires
        total_order::<T>(),
        size <= old(v).len(),
        is_heap(max, old(v)@.take(size as int)),
    ensures
        final(v)@.len() == old(v)@.len(),
        final(v)@.take(size as int) == unloaded(max, old(v)@.take(size as int), size as int),
        ranked(max, final(v)@.take(size as int)),
        permutation(final(v)@.take(size as int), old(v)@.take(size as int)),
        final(v)@.skip(size as int) == old(v)@.skip(size as int),
{
    let ghost start = v@;
    let mut k = size;
    while k > 1
        invariant
            total_order::<T>(),
            k <= size <= v.len(),
            unloaded(max, v@.take(size as int), k as int) == unloaded(
                max,
                start.take(size as int),
                size as int,
            ),
            size > 0 ==> k >= 1,
            v@.len() == start.len(),
            v@.skip(size as int) == start.skip(size as int),
            is_heap(max, v@.take(k as int)),
            forall|a: int, b: int| 0 <= a < k <= b < size ==> above(max, v@[b], v@[a]),
            forall|a: int, b: int| k <= a <= b < size ==> above(max, v@[b], v@[a]),
            permutation(v@.take(size as int), start.take(size as int)),
        decreases k,
    {
        let ghost before = v@;
        let ghost heap = before.take(k as int);
        k -= 1;
        exchange(v, 0, k);
        let ghost mid = v@;
        sink(v, k, 0, max);
        proof {
            lemma_without_root(max, heap);
            assert(mid.take(k as int) =~= heap.update(0, heap.last()).drop_last());
            assert(v@.take(k as int) == without_root(max, heap));
            assert(mid.take(size as int) =~= swapped(before.take(size as int), 0, k as int));
            lemma_swapped_permutes(before.take(size as int), 0, k as int);
            lemma_sift_down_permutes(max, mid.take(k as int), 0);
            assert forall|b: int| k <= b < v@.len() implies v@[b] == mid[b] by {
                assert(v@.skip(k as int)[b - k] == mid.skip(k as int)[b - k]);
            }
            assert(v@[k as int] == mid[k as int]);
            assert(mid[k as int] == before[0]);
            assert(heap[0] == before[0]);
            assert(v@.subrange(k as int, size as int) =~= mid.subrange(k as int, size as int));
            let turned = swapped(before.take(size as int), 0, k as int);
            assert(turned.take(k as int) =~= mid.take(k as int));
            assert(v@.take(size as int) =~= sift_down(max, turned.take(k as int), 0) + turned.skip(
                k as int,
            ));
            crate::seqs::lemma_prefix_rearranged(v@, mid, k as int, size as int);
            assert forall|b: int| size <= b < v@.len() implies v@[b] == start[b] by {
                assert(mid[b] == before[b]);
                assert(before.skip(size as int)[b - size] == start.skip(size as int)[b - size]);
            }
            assert(v@.skip(size as int) =~= start.skip(size as int));
            assert forall|a: int, b: int| 0 <= a < k <= b < size implies above(
                max,
                v@[b],
                v@[a],
            ) by {
                let r = without_root(max, heap);
                assert(v@[a] == r[a]);
                if b == k {
                    assert(v@[b] == heap[0]);
                } else {
                    assert(heap.contains(r[a]));
                    let c = choose|c: int| 0 <= c < heap.len() && heap[c] == r[a];
                    assert(before[c] == v@[a]);
                    assert(mid[b] == before[b]);
                    assert(before[b] == v@[b]);
                }
            }
            assert forall|a: int, b: int| k <= a <= b < size implies above(max, v@[b], v@[a]) by {
                if a == k {
                    assert(v@[a] == before[0]);
                    if b == k {
                        lemma_above(max, v@[a], v@[a]);
                    } else {
                        assert(mid[b] == before[b]);
                        assert(before[b] == v@[b]);
                    }
                } else {
                    assert(mid[a] == before[a]);
                    assert(mid[b] == before[b]);
                    assert(before[a] == v@[a]);
                    assert(before[b] == v@[b]);
                }
            }
        }
    }
    proof {
        assert forall|i: int, j: int| 0 <= i <= j < size implies above(
            max,
            #[trigger] v@.take(size as int)[j],
            #[trigger] v@.take(size as int)[i],
        ) by {
            if i == j {
                lemma_above(max, v@[i], v@[i]);
            }
        }
    }
}

} // verus!
