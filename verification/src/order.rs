//! The total order that the containers of this crate sort and search by.
//!
//! Every algorithm here compares elements with the operators of `Ord`. The
//! predicates below name what those operators mean in contracts, and the
//! lemmas give the laws of a total order in a form that proofs can call.

use core::cmp::Ordering;
use vstd::prelude::*;
use vstd::std_specs::cmp::OrdSpec;
use vstd::std_specs::cmp::PartialEqSpec;
use vstd::std_specs::cmp::PartialOrdSpec;

verus! {

/// The comparison operators of `T` describe one total order, and they agree
/// with each other.
pub open spec fn total_order<T: Ord>() -> bool {
    vstd::laws_cmp::obeys_cmp::<T>()
}

/// `a` comes strictly before `b`.
pub open spec fn lt<T: Ord>(a: T, b: T) -> bool {
    a.cmp_spec(&b) == Ordering::Less
}

/// `a` does not come after `b`.
pub open spec fn le<T: Ord>(a: T, b: T) -> bool {
    a.cmp_spec(&b) != Ordering::Greater
}

/// `a` and `b` take the same place in the order.
pub open spec fn same<T: Ord>(a: T, b: T) -> bool {
    a.cmp_spec(&b) == Ordering::Equal
}

/// `==` on `T` decides a relation that contracts can name.
pub open spec fn decides_eq<T: PartialEq>() -> bool {
    T::obeys_eq_spec()
}

/// What `a == b` returns for a type whose `==` is decided.
pub open spec fn eq<T: PartialEq>(a: T, b: T) -> bool {
    a.eq_spec(&b)
}

/// Any two elements are comparable, and strictness is the absence of the
/// converse.
pub proof fn lemma_total<T: Ord>(a: T, b: T)
    requires
        total_order::<T>(),
    ensures
        le(a, a),
        le(a, b) || le(b, a),
        lt(a, b) <==> !le(b, a),
        lt(a, b) ==> le(a, b),
        same(a, b) <==> le(a, b) && le(b, a),
        same(a, b) <==> eq(a, b),
{
    reveal(vstd::laws_cmp::obeys_cmp_partial_ord);
    reveal(vstd::laws_cmp::obeys_cmp_ord);
    reveal(vstd::laws_cmp::obeys_partial_cmp_spec_properties);
    reveal(vstd::laws_eq::obeys_eq_spec_properties);
    assert(a.partial_cmp_spec(&b) == Some(a.cmp_spec(&b)));
    assert(b.partial_cmp_spec(&a) == Some(b.cmp_spec(&a)));
    assert(a.partial_cmp_spec(&a) == Some(a.cmp_spec(&a)));
}

/// `le` is transitive.
pub proof fn lemma_le_trans<T: Ord>(a: T, b: T, c: T)
    requires
        total_order::<T>(),
        le(a, b),
        le(b, c),
    ensures
        le(a, c),
{
    reveal(vstd::laws_cmp::obeys_cmp_partial_ord);
    reveal(vstd::laws_cmp::obeys_cmp_ord);
    reveal(vstd::laws_cmp::obeys_partial_cmp_spec_properties);
    reveal(vstd::laws_eq::obeys_eq_spec_properties);
    assert(a.partial_cmp_spec(&b) == Some(a.cmp_spec(&b)));
    assert(b.partial_cmp_spec(&c) == Some(b.cmp_spec(&c)));
    assert(a.partial_cmp_spec(&c) == Some(a.cmp_spec(&c)));
    assert(c.partial_cmp_spec(&a) == Some(c.cmp_spec(&a)));
    assert(c.partial_cmp_spec(&b) == Some(c.cmp_spec(&b)));
    assert(b.partial_cmp_spec(&a) == Some(b.cmp_spec(&a)));
}

/// The built-in integers are totally ordered by their values.
pub proof fn lemma_integers_ordered()
    ensures
        total_order::<i32>(),
        total_order::<i64>(),
        total_order::<isize>(),
        total_order::<usize>(),
        total_order::<u8>(),
        decides_eq::<i32>(),
        decides_eq::<i64>(),
        decides_eq::<isize>(),
        decides_eq::<usize>(),
        decides_eq::<u8>(),
        forall|a: i64, b: i64| #![auto] eq(a, b) <==> a == b,
        forall|a: i64, b: i64| #![auto] same(a, b) <==> a == b,
        forall|a: i32, b: i32| #![auto] le(a, b) <==> a <= b,
        forall|a: i64, b: i64| #![auto] le(a, b) <==> a <= b,
        forall|a: isize, b: isize| #![auto] le(a, b) <==> a <= b,
        forall|a: usize, b: usize| #![auto] le(a, b) <==> a <= b,
        forall|a: u8, b: u8| #![auto] le(a, b) <==> a <= b,
        forall|a: i64, b: i64| #![auto] lt(a, b) <==> a < b,
{
    broadcast use vstd::laws_cmp::group_laws_cmp;

}

/// Pairs of a key and a position are ordered by the key first and by the
/// position among equal keys.
pub proof fn lemma_pairs_ordered()
    ensures
        total_order::<(i64, usize)>(),
        forall|a: (i64, usize), b: (i64, usize)|
            #![auto]
            le(a, b) <==> (a.0 < b.0 || (a.0 == b.0 && a.1 <= b.1)),
{
    broadcast use vstd::laws_cmp::group_laws_cmp;

    assert(vstd::laws_cmp::obeys_cmp::<i64>());
    assert(vstd::laws_cmp::obeys_cmp::<usize>());
}

/// `a < b`, as a contract can speak of it.
pub fn less<T: Ord>(a: &T, b: &T) -> (r: bool)
    requires
        total_order::<T>(),
    ensures
        r == lt(*a, *b),
{
    proof {
        reveal(vstd::laws_cmp::obeys_cmp_partial_ord);
        reveal(vstd::laws_cmp::obeys_cmp_ord);
    }
    *a < *b
}

/// `a <= b`, as a contract can speak of it.
pub fn at_most<T: Ord>(a: &T, b: &T) -> (r: bool)
    requires
        total_order::<T>(),
    ensures
        r == le(*a, *b),
{
    proof {
        reveal(vstd::laws_cmp::obeys_cmp_partial_ord);
        reveal(vstd::laws_cmp::obeys_cmp_ord);
    }
    *a <= *b
}

/// `a == b`, as a contract can speak of it.
pub fn equal<T: PartialEq>(a: &T, b: &T) -> (r: bool)
    requires
        decides_eq::<T>(),
    ensures
        r == eq(*a, *b),
{
    *a == *b
}

} // verus!
