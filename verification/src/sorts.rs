//! Sorting a slice that the container borrows.

use crate::order::le;
use crate::order::lt;
use crate::order::total_order;
use crate::seqs::ascending;
use crate::seqs::ascending_in;
use crate::seqs::descending;
use crate::seqs::permutation;
use crate::seqs::rearranged_in;
use crate::sorting::faithful_clone;
use crate::sorting::inserted_upto;
use crate::sorting::larger;
use crate::sorting::selected_upto;
use crate::sorting::smaller;
use crate::sorting::swept_upto;
use crate::sorting::merge_sorted;
use crate::sorting::merged;
use crate::sorting::parted;
use crate::sorting::quick_sorted;
use vstd::prelude::*;

verus! {

/// A slice of elements, borrowed to be sorted.
pub struct Container<'a, T>(pub &'a mut [T]);

impl<'a, T> View for Container<'a, T> {
    type V = Seq<T>;

    /// The elements of the slice, in their order.
    open spec fn view(&self) -> Seq<T> {
        self.0@
    }
}

impl<'a, T: Ord + Clone> core::ops::Deref for Container<'a, T> {
    type Target = [T];

    /// The slice that the container borrows.
    fn deref(&self) -> (slice: &[T])
        ensures
            slice@ == self@,
    {
        &*self.0
    }
}

impl<'a, T: Ord + Clone> core::ops::DerefMut for Container<'a, T> {
    /// The slice that the container borrows, to be changed.
    fn deref_mut(&mut self) -> (slice: &mut [T])
        ensures
            slice@ == old(self)@,
            final(self)@ == final(slice)@,
            final(final(self).0)@ == final(old(self).0)@,
    {
        &mut *self.0
    }
}

impl<'a, T: Ord + Clone> Container<'a, T> {
    /// Creates the container of a slice.
    pub fn new(data: &'a mut [T]) -> (container: Container<'a, T>)
        ensures
            container@ == old(data)@,
            final(container.0)@ == final(data)@,
    {
        Container(data)
    }

    /// Sorts in ascending order by insertion: each element in turn moves
    /// down as long as the element before it is larger.
    pub fn clrs_insertion_sort(&mut self)
        requires
            total_order::<T>(),
        ensures
            final(self)@ == inserted_upto(larger::<T>(), old(self)@, old(self)@.len() as int),
            permutation(final(self)@, old(self)@),
            ascending(final(self)@),
            final(final(self).0)@ == final(old(self).0)@,
    {
        crate::sorting::insertion_sort(self.0);
    }

    /// Sorts in ascending order by insertion, exchanging neighbours.
    pub fn insertion_sort(&mut self)
        requires
            total_order::<T>(),
        ensures
            final(self)@ == inserted_upto(larger::<T>(), old(self)@, old(self)@.len() as int),
            permutation(final(self)@, old(self)@),
            ascending(final(self)@),
            final(final(self).0)@ == final(old(self).0)@,
    {
        crate::sorting::insertion_sort(self.0);
    }

    /// Sorts in descending order by insertion.
    pub fn reverse_insertion_sort(&mut self)
        requires
            total_order::<T>(),
        ensures
            final(self)@ == inserted_upto(smaller::<T>(), old(self)@, old(self)@.len() as int),
            permutation(final(self)@, old(self)@),
            descending(final(self)@),
            final(final(self).0)@ == final(old(self).0)@,
    {
        crate::sorting::insertion_sort_down(self.0);
    }

    /// Sorts in ascending order by selection.
    pub fn selection_sort(&mut self)
        requires
            total_order::<T>(),
        ensures
            final(self)@ == selected_upto(smaller::<T>(), old(self)@, old(self)@.len() - 1),
            permutation(final(self)@, old(self)@),
            ascending(final(self)@),
            final(final(self).0)@ == final(old(self).0)@,
    {
        crate::sorting::selection_sort(self.0);
    }

    /// Sorts the elements from `start` up to `end` in ascending order by
    /// merging.
    pub fn mergesort(&mut self, start: usize, end: usize)
        requires
            total_order::<T>(),
            faithful_clone::<T>(),
            start + 1 < end ==> end <= old(self)@.len(),
        ensures
            start < end <= old(self)@.len() ==> final(self)@.subrange(start as int, end as int)
                == merge_sorted(old(self)@.subrange(start as int, end as int)),
            final(self)@.len() == old(self)@.len(),
            start + 1 >= end ==> final(self)@ == old(self)@,
            start < end <= old(self)@.len() ==> rearranged_in(
                final(self)@,
                old(self)@,
                start as int,
                end as int,
            ) && ascending_in(final(self)@, start as int, end as int),
            final(final(self).0)@ == final(old(self).0)@,
    {
        crate::sorting::merge_sort_in(self.0, start, end);
    }

    /// Merges the elements from `start` up to `mid` with those from `mid`
    /// up to `end`: of the first elements that the two ranges have left,
    /// the one of the first range is taken where it is no larger. Where each
    /// of the two ranges is in ascending order, so is the whole.
    pub fn clrs_merge(&mut self, start: usize, mid: usize, end: usize)
        requires
            total_order::<T>(),
            faithful_clone::<T>(),
            start <= mid <= end <= old(self)@.len(),
        ensures
            rearranged_in(final(self)@, old(self)@, start as int, end as int),
            final(self)@.subrange(start as int, end as int) == merged(
                old(self)@.subrange(start as int, mid as int),
                old(self)@.subrange(mid as int, end as int),
            ),
            ascending_in(old(self)@, start as int, mid as int) && ascending_in(
                old(self)@,
                mid as int,
                end as int,
            ) ==> ascending_in(final(self)@, start as int, end as int),
            final(final(self).0)@ == final(old(self).0)@,
    {
        crate::sorting::merge_in(self.0, start, mid, end);
    }

    /// Merges the two halves of the elements from `start` up to `end`: of
    /// the first elements that the halves have left, the one of the first
    /// half is taken where it is no larger. Where each half is in ascending
    /// order, so is the whole. The first half is the shorter one where the
    /// number of elements is odd.
    pub fn merge(&mut self, start: usize, end: usize)
        requires
            total_order::<T>(),
            faithful_clone::<T>(),
            start <= end <= old(self)@.len(),
        ensures
            rearranged_in(final(self)@, old(self)@, start as int, end as int),
            final(self)@.subrange(start as int, end as int) == merged(
                old(self)@.subrange(start as int, start + (end - start) / 2),
                old(self)@.subrange(start + (end - start) / 2, end as int),
            ),
            ascending_in(old(self)@, start as int, start + (end - start) / 2) && ascending_in(
                old(self)@,
                start + (end - start) / 2,
                end as int,
            ) ==> ascending_in(final(self)@, start as int, end as int),
            final(final(self).0)@ == final(old(self).0)@,
    {
        crate::sorting::merge_in(self.0, start, start + (end - start) / 2, end);
    }

    /// Sorts the first `n` elements in ascending order: the first `n - 1`
    /// are sorted in the same way, and the last is inserted among them.
    pub fn recursive_insort(&mut self, n: usize)
        requires
            total_order::<T>(),
            n <= old(self)@.len(),
        ensures
            final(self)@ == swept_upto(larger::<T>(), old(self)@, n as int),
            final(self)@.len() == old(self)@.len(),
            rearranged_in(final(self)@, old(self)@, 0, n as int),
            ascending_in(final(self)@, 0, n as int),
            final(final(self).0)@ == final(old(self).0)@,
    {
        crate::sorting::recursive_insertion_sort(self.0, n);
    }

    /// Parts the elements from `start` up to `end` by the last of them: it
    /// goes to the place that is returned, what is no larger goes before
    /// that place and what is larger goes behind it.
    pub fn partition(&mut self, start: usize, end: usize) -> (at: usize)
        requires
            total_order::<T>(),
            start < end <= old(self)@.len(),
        ensures
            (final(self)@, at as int) == parted(old(self)@, start as int, end as int),
            start <= at < end,
            final(self)@[at as int] == old(self)@[end - 1],
            rearranged_in(final(self)@, old(self)@, start as int, end as int),
            forall|k: int| start <= k < at ==> le(#[trigger] final(self)@[k], final(self)@[at as int]),
            forall|k: int| at < k < end ==> lt(final(self)@[at as int], #[trigger] final(self)@[k]),
            final(final(self).0)@ == final(old(self).0)@,
    {
        crate::sorting::partition_in(self.0, start, end)
    }

    /// Sorts the elements from `start` up to `end` in ascending order: they
    /// are parted by the last of them, and the parts are sorted in the same
    /// way.
    pub fn qsort(&mut self, start: usize, end: usize)
        requires
            total_order::<T>(),
            start < end ==> end <= old(self)@.len(),
        ensures
            final(self)@ == quick_sorted(old(self)@, start as int, end as int),
            final(self)@.len() == old(self)@.len(),
            start >= end ==> final(self)@ == old(self)@,
            start < end ==> rearranged_in(final(self)@, old(self)@, start as int, end as int)
                && ascending_in(final(self)@, start as int, end as int),
            final(final(self).0)@ == final(old(self).0)@,
    {
        crate::sorting::quick_sort_in(self.0, start, end);
    }
}

} // verus!
