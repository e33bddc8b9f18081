//! The ways to sort a [`Container`].

use crate::Container;
use crate::order::total_order;
use crate::seqs::ascending_in;
use crate::seqs::permutation;
use crate::seqs::rearranged_in;
use crate::seqs::swapped;
use crate::sorting::chosen;
use crate::sorting::decided_by;
use crate::sorting::faithful_clone;
use crate::sorting::inserted_upto;
use crate::sorting::larger;
use crate::sorting::merge_sorted;
use crate::sorting::quick_sorted;
use crate::sorting::selected_upto;
use crate::sorting::swept_upto;
use crate::sorting::settled;
use crate::sorting::total;
use crate::sorting::weak_order;
use rand::Rng;
use vstd::prelude::*;

verus! {

/// The random number generator of a thread, `rand::rngs::ThreadRng`.
#[verifier::external_type_specification]
#[verifier::external_body]
pub struct ThreadGenerator(rand::rngs::ThreadRng);

/// The random number generator of the thread that calls. This is
/// `rand::thread_rng`; nothing is said of the generator. Where the
/// operating system gives no entropy to seed it with, the call stops the
/// program.
#[verifier::external_body]
fn thread_generator() -> (generator: rand::rngs::ThreadRng) {
    rand::thread_rng()
}

/// Draws a position from `start` up to `end`. This is `Rng::gen_range` of
/// the crate `rand` with the range `start..end`: one of the positions of
/// the range, whichever comes. The range must not be empty, or the call
/// panics; it also stops the program where the generator is due to be
/// seeded again and the operating system gives no entropy.
#[verifier::external_body]
fn random_position(generator: &mut rand::rngs::ThreadRng, start: usize, end: usize) -> (at: usize)
    requires
        start < end,
    ensures
        start <= at < end,
{
    generator.gen_range(start..end)
}

/// The ways to sort a container of `T`.
pub trait Sort<T: Ord + Clone> {
    /// The elements that are sorted, in their order.
    spec fn items(&self) -> Seq<T>;

    /// Sorts by insertion: each element in turn moves down as long as
    /// `compare` says that the element before it has to change places with
    /// it. With a comparison that is decided by a weak order the elements
    /// end up settled by that order.
    fn naive_insertion_sort<F: Fn(&T, &T) -> bool>(&mut self, compare: F)
        requires
            total(compare),
        ensures
            permutation(final(self).items(), old(self).items()),
            forall|rel: spec_fn(T, T) -> bool| #[trigger]
                decided_by(compare, rel) ==> final(self).items() == inserted_upto(
                    rel,
                    old(self).items(),
                    old(self).items().len() as int,
                ),
            forall|rel: spec_fn(T, T) -> bool| #[trigger]
                decided_by(compare, rel) && weak_order(rel) ==> settled(rel, final(self).items()),
    ;

    /// Sorts by insertion as `naive_insertion_sort` does, but holds every
    /// element before it against the element that is inserted.
    fn insertion_sort<F: Fn(&T, &T) -> bool>(&mut self, compare: F)
        requires
            total(compare),
        ensures
            permutation(final(self).items(), old(self).items()),
            forall|rel: spec_fn(T, T) -> bool| #[trigger]
                decided_by(compare, rel) ==> final(self).items() == swept_upto(
                    rel,
                    old(self).items(),
                    old(self).items().len() as int,
                ),
            forall|rel: spec_fn(T, T) -> bool| #[trigger]
                decided_by(compare, rel) && weak_order(rel) ==> settled(rel, final(self).items()),
    ;

    /// Sorts by selection: each place in turn gets the element from there
    /// on that `compare` puts before the others. With a comparison that is
    /// decided by a weak order no element is put before one that comes
    /// before it.
    fn selection_sort<F: Fn(&T, &T) -> bool>(&mut self, compare: F)
        requires
            total(compare),
        ensures
            permutation(final(self).items(), old(self).items()),
            forall|rel: spec_fn(T, T) -> bool| #[trigger]
                decided_by(compare, rel) ==> final(self).items() == selected_upto(
                    rel,
                    old(self).items(),
                    old(self).items().len() - 1,
                ),
            forall|rel: spec_fn(T, T) -> bool| #[trigger]
                decided_by(compare, rel) && weak_order(rel) ==> chosen(rel, final(self).items()),
    ;

    /// Sorts the elements from `start` up to `end` in ascending order by
    /// merging.
    fn merge_sort(&mut self, start: usize, end: usize)
        requires
            total_order::<T>(),
            faithful_clone::<T>(),
            start + 1 < end ==> end <= old(self).items().len(),
        ensures
            start < end <= old(self).items().len() ==> final(self).items().subrange(
                start as int,
                end as int,
            ) == merge_sorted(old(self).items().subrange(start as int, end as int)),
            final(self).items().len() == old(self).items().len(),
            start + 1 >= end ==> final(self).items() == old(self).items(),
            start < end <= old(self).items().len() ==> rearranged_in(
                final(self).items(),
                old(self).items(),
                start as int,
                end as int,
            ) && ascending_in(final(self).items(), start as int, end as int),
    ;

    /// Sorts all elements in ascending order: all but the last are sorted
    /// in the same way, and the last is inserted among them.
    fn rec_insertion_sort(&mut self)
        requires
            total_order::<T>(),
        ensures
            permutation(final(self).items(), old(self).items()),
            final(self).items() == swept_upto(
                larger::<T>(),
                old(self).items(),
                old(self).items().len() as int,
            ),
            crate::seqs::ascending(final(self).items()),
    ;

    /// Sorts the elements from `start` up to `end` in ascending order: they
    /// are parted by the last of them, and the parts are sorted in the same
    /// way.
    fn quick_sort(&mut self, start: usize, end: usize)
        requires
            total_order::<T>(),
            start < end ==> end <= old(self).items().len(),
        ensures
            final(self).items() == quick_sorted(old(self).items(), start as int, end as int),
            final(self).items().len() == old(self).items().len(),
            start >= end ==> final(self).items() == old(self).items(),
            start < end ==> rearranged_in(
                final(self).items(),
                old(self).items(),
                start as int,
                end as int,
            ) && ascending_in(final(self).items(), start as int, end as int),
    ;

    /// Sorts the elements from `start` up to `end` in ascending order as
    /// `quick_sort` does, after an element drawn at random has changed
    /// places with the last of them.
    fn randomize_quick_sort(&mut self, start: usize, end: usize)
        requires
            total_order::<T>(),
            start < end <= old(self).items().len(),
        ensures
            exists|index: int|
                start <= index < end && final(self).items() == #[trigger] quick_sorted(
                    swapped(old(self).items(), index, end - 1),
                    start as int,
                    end as int,
                ),
            final(self).items().len() == old(self).items().len(),
            rearranged_in(final(self).items(), old(self).items(), start as int, end as int),
            ascending_in(final(self).items(), start as int, end as int),
    ;
}

impl<T> Sort<T> for Container<T> where T: Eq + PartialEq + PartialOrd + Ord + Clone {
    open spec fn items(&self) -> Seq<T> {
        self@
    }

    fn naive_insertion_sort<F: Fn(&T, &T) -> bool>(&mut self, compare: F) {
        crate::sorting::insertion_sort_by(self.data.as_mut_slice(), compare);
    }

    fn insertion_sort<F: Fn(&T, &T) -> bool>(&mut self, compare: F) {
        crate::sorting::sweeping_sort_by(self.data.as_mut_slice(), compare);
    }

    fn selection_sort<F: Fn(&T, &T) -> bool>(&mut self, compare: F) {
        crate::sorting::selection_sort_by(self.data.as_mut_slice(), compare);
    }

    fn merge_sort(&mut self, start: usize, end: usize) {
        crate::sorting::merge_sort_in(self.data.as_mut_slice(), start, end);
    }

    fn rec_insertion_sort(&mut self) {
        let ghost before = self.data@;
        let n = self.data.len();
        crate::sorting::recursive_insertion_sort(self.data.as_mut_slice(), n);
        proof {
            crate::seqs::lemma_rearranged_all(self.data@, before);
        }
    }

    fn quick_sort(&mut self, start: usize, end: usize) {
        crate::sorting::quick_sort_in(self.data.as_mut_slice(), start, end);
    }

    fn randomize_quick_sort(&mut self, start: usize, end: usize) {
        let ghost before = self.data@;
        let mut generator = thread_generator();
        let index = random_position(&mut generator, start, end);
        self.swap(index, end - 1);
        proof {
            crate::seqs::lemma_swapped_rearranges(
                before,
                index as int,
                end - 1,
                start as int,
                end as int,
            );
        }
        let ghost drawn = self.data@;
        crate::sorting::quick_sort_in(self.data.as_mut_slice(), start, end);
        proof {
            assert(drawn == swapped(before, index as int, end - 1));
            assert(self.data@ == quick_sorted(
                swapped(before, index as int, end - 1),
                start as int,
                end as int,
            ));
        }
    }
}

} // verus!
