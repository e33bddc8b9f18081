//! Data structures and algorithms on sequences: binary heaps, sorting,
//! searching, queues, stacks and a few dynamic programs.
//!
//! The centre of the crate is the binary heap of [`heap`] and the k-way
//! merge [`merge_all_into`] that is built on it.

use crate::heap::Heap;
use crate::heap::MinHeap;
use crate::merge::all_items;
use crate::merge::all_sorted;
use crate::merge::drained;
use crate::merge::fed;
use crate::merge::first_entries;
use crate::merge::first_reads;
use crate::merge::lemma_entry_added;
use crate::merge::lemma_entry_taken;
use crate::merge::lemma_merge_begins;
use crate::merge::lemma_merged;
use crate::merge::lemma_read_bound;
use crate::merge::lemma_seeded_next;
use crate::merge::merged_through_heap;
use crate::merge::merging;
use crate::merge::seeded;
use crate::merge::sorted;
use crate::merge::total_len;
use crate::order::lemma_pairs_ordered;
use vstd::prelude::*;

pub mod activity_selector;
pub mod binary;
pub mod bits;
pub mod error;
pub mod fib;
pub mod heap;
pub mod lcs;
pub mod linkedlist;
pub mod list;
pub mod maximum_subarray;
pub mod merge;
pub mod node_heap;
pub mod order;
pub mod queue;
pub mod rod;
pub mod search;
pub mod seqs;
pub mod sift;
pub mod sort;
pub mod sorting;
pub mod sorts;
pub mod stack;
pub mod tree;

verus! {

/// A sequence of elements, to be searched and sorted.
#[derive(Debug, PartialEq, Eq, Hash, PartialOrd, Ord, Clone)]
pub struct Container<T> {
    /// The elements, in their order.
    pub data: Vec<T>,
}

impl<T> View for Container<T> {
    type V = Seq<T>;

    /// The elements, in their order.
    open spec fn view(&self) -> Seq<T> {
        self.data@
    }
}

impl<T> Default for Container<T> {
    /// The container without elements.
    fn default() -> (container: Self)
        ensures
            container@ == Seq::<T>::empty(),
    {
        Container { data: Vec::new() }
    }
}

impl<T> core::ops::Index<usize> for Container<T> {
    type Output = T;

    /// The element at `index`.
    fn index(&self, index: usize) -> (output: &T)
        ensures
            *output == self@[index as int],
    {
        &self.data[index]
    }
}

impl<T> vstd::std_specs::core::IndexSpecImpl<usize> for Container<T> {
    /// Indexing asks for a position of the container.
    open spec fn index_req(&self, index: &usize) -> bool {
        *index < self@.len()
    }
}

/// Walks over the elements of a container, from the first on.
#[derive(Debug)]
pub struct ContainerIterator<'a, T> {
    items: &'a [T],
    pos: usize,
}

impl<'a, T> ContainerIterator<'a, T> {
    #[verifier::type_invariant]
    spec fn within(&self) -> bool {
        self.pos <= self.items@.len()
    }

    /// The elements that are still to come, in their order.
    pub closed spec fn remaining(&self) -> Seq<T> {
        self.items@.skip(self.pos as int)
    }

    /// Hands out the next element, if one is left.
    pub fn next(&mut self) -> (item: Option<&'a T>)
        ensures
            old(self).remaining().len() == 0 ==> item is None && final(self).remaining() == old(
                self,
            ).remaining(),
            old(self).remaining().len() > 0 ==> item == Some(&old(self).remaining()[0])
                && final(self).remaining() == old(self).remaining().drop_first(),
    {
        proof {
            use_type_invariant(&*self);
        }
        if self.pos < self.items.len() {
            let item = &self.items[self.pos];
            self.pos += 1;
            assert(self.items@.skip(self.pos as int) =~= self.items@.skip(
                self.pos - 1,
            ).drop_first());
            Some(item)
        } else {
            None
        }
    }
}

impl<T> Container<T> {
    /// Creates the container of the elements of `data`.
    pub fn new(data: Vec<T>) -> (container: Self)
        ensures
            container@ == data@,
    {
        Self { data }
    }

    /// Whether the container has no element.
    pub fn is_empty(&self) -> (empty: bool)
        ensures
            empty == (self@.len() == 0),
    {
        self.data.is_empty()
    }

    /// The number of elements.
    pub fn len(&self) -> (len: usize)
        ensures
            len == self@.len(),
    {
        self.data.len()
    }

    /// Exchanges the elements at `i` and `j`.
    pub fn swap(&mut self, i: usize, j: usize)
        requires
            i < old(self)@.len(),
            j < old(self)@.len(),
        ensures
            final(self)@ == crate::seqs::swapped(old(self)@, i as int, j as int),
    {
        crate::seqs::exchange(&mut self.data, i, j);
    }

    /// Creates an iterator over the elements.
    pub fn iter(&self) -> (iter: ContainerIterator<'_, T>)
        ensures
            iter.remaining() == self@,
    {
        let items = self.data.as_slice();
        assert(items@.skip(0) =~= items@);
        ContainerIterator { items, pos: 0 }
    }

    /// The elements as a slice.
    pub fn inner(&self) -> (inner: &[T])
        ensures
            inner@ == self@,
    {
        self.data.as_slice()
    }
}

impl<T> Container<T> where T: Ord + Clone {
    /// Merges the elements from `start` up to `middle` with those from
    /// `middle` up to `end`: of the first elements that the two ranges have
    /// left, the one of the first range is taken where it is no larger.
    /// Where each of the two ranges is in ascending order, so is the whole.
    pub fn merge(&mut self, start: usize, middle: usize, end: usize)
        requires
            crate::order::total_order::<T>(),
            crate::sorting::faithful_clone::<T>(),
            start <= middle <= end <= old(self)@.len(),
        ensures
            crate::seqs::rearranged_in(final(self)@, old(self)@, start as int, end as int),
            final(self)@.subrange(start as int, end as int) == crate::sorting::merged(
                old(self)@.subrange(start as int, middle as int),
                old(self)@.subrange(middle as int, end as int),
            ),
            crate::seqs::ascending_in(old(self)@, start as int, middle as int)
                && crate::seqs::ascending_in(old(self)@, middle as int, end as int)
                ==> crate::seqs::ascending_in(final(self)@, start as int, end as int),
    {
        crate::sorting::merge_in(self.data.as_mut_slice(), start, middle, end);
    }

    /// Parts the elements from `start` up to `end` by the last of them: it
    /// goes to the place that is returned, what is no larger goes before
    /// that place and what is larger goes behind it.
    pub fn partition(&mut self, start: usize, end: usize) -> (at: usize)
        requires
            crate::order::total_order::<T>(),
            start < end <= old(self)@.len(),
        ensures
            start <= at < end,
            (final(self)@, at as int) == crate::sorting::parted(
                old(self)@,
                start as int,
                end as int,
            ),
            final(self)@[at as int] == old(self)@[end - 1],
            crate::seqs::rearranged_in(final(self)@, old(self)@, start as int, end as int),
            forall|k: int|
                start <= k < at ==> crate::order::le(
                    #[trigger] final(self)@[k],
                    final(self)@[at as int],
                ),
            forall|k: int|
                at < k < end ==> crate::order::lt(
                    final(self)@[at as int],
                    #[trigger] final(self)@[k],
                ),
    {
        crate::sorting::partition_in(self.data.as_mut_slice(), start, end)
    }
}

/// What the containers hold, each as a sequence.
pub open spec fn contents(containers: Seq<&Container<i64>>) -> Seq<Seq<i64>> {
    containers.map_values(|c: &Container<i64>| c@)
}

/// Merges the containers into one. The result holds the elements of all of
/// them; where each of them is in ascending order, so is the result. Where
/// one is not, the result is still what the steps below give.
///
/// One element of each container waits in a min-heap, together with the
/// number of its container, which orders the entries of equal elements. The
/// smallest entry leaves the heap for the result and the next element of
/// its container enters the heap.
pub fn merge_all_into(containers: &[&Container<i64>]) -> (merged: Container<i64>)
    ensures
        merged@ == merged_through_heap(contents(containers@)),
        merged@.len() == total_len(contents(containers@)),
        merged@.to_multiset() == all_items(contents(containers@)),
        all_sorted(contents(containers@)) ==> sorted(merged@),
{
    let ghost sources = contents(containers@);
    let count = containers.len();
    let mut cursors: Vec<usize> = Vec::new();
    let mut buffer: Vec<(i64, usize)> = Vec::new();
    proof {
        crate::merge::lemma_seeded_first(sources);
    }
    let mut index: usize = 0;
    while index < count
        invariant
            count == containers@.len(),
            sources == contents(containers@),
            index <= count,
            cursors@.len() == index,
            cursors@ == first_reads(sources).take(index as int),
            buffer@ == first_entries(sources, index as int),
            seeded(sources, cursors@, buffer@),
        decreases count - index,
    {
        proof {
            lemma_seeded_next(sources, cursors@, buffer@);
        }
        let container = containers[index];
        if container.len() > 0 {
            buffer.push((container.data[0], index));
            cursors.push(1);
        } else {
            cursors.push(0);
        }
        index += 1;
        assert(cursors@ =~= first_reads(sources).take(index as int));
    }
    assert(cursors@ =~= first_reads(sources));
    proof {
        lemma_pairs_ordered();
    }
    let ghost seeds = buffer@;
    let mut heap: Heap<(i64, usize), MinHeap> = Heap::new(buffer);
    heap.build_min_heap();
    proof {
        lemma_merge_begins(sources, cursors@, seeds, heap@);
    }
    let mut merged: Vec<i64> = Vec::new();
    let mut busy = true;
    while busy
        invariant
            count == containers@.len(),
            sources == contents(containers@),
            crate::order::total_order::<(i64, usize)>(),
            forall|a: (i64, usize), b: (i64, usize)|
                #![auto]
                crate::order::le(a, b) <==> (a.0 < b.0 || (a.0 == b.0 && a.1 <= b.1)),
            heap.wf(),
            crate::sift::is_heap(false, heap@),
            merging(sources, cursors@, heap@, merged@),
            fed(sources, cursors@, heap@, -1),
            !busy ==> heap@.len() == 0,
            merged@.len() <= total_len(sources),
            merged@ + drained(
                sources,
                cursors@,
                heap@,
                (total_len(sources) - merged@.len()) as nat,
            ) == merged_through_heap(sources),
        decreases total_len(sources) - merged@.len() + (if busy { 1int } else { 0int }),
    {
        let ghost entries = heap@;
        let ghost out = merged@;
        proof {
            merged@.to_multiset_ensures();
            crate::merge::keys(heap@).to_multiset_ensures();
            lemma_read_bound(sources, cursors@);
            assert(sources.take(cursors@.len() as int) =~= sources);
        }
        match heap.extract_min() {
            None => {
                busy = false;
            },
            Some(entry) => {
                let key = entry.0;
                let index = entry.1;
                proof {
                    assert(entries.len() >= 1);
                    lemma_entry_taken(sources, cursors@, entries, out, heap@);
                }
                merged.push(key);
                let container = containers[index];
                let at = cursors[index];
                let ghost reads = cursors@;
                let ghost rest = heap@;
                if at < container.len() {
                    heap.min_insert_key((container.data[at], index));
                    proof {
                        lemma_entry_added(sources, cursors@, rest, merged@, heap@, index);
                    }
                    cursors[index] = at + 1;
                }
                proof {
                    let left = (total_len(sources) - out.len()) as nat;
                    assert(left > 0);
                    assert(drained(sources, reads, entries, left) == Seq::<i64>::empty().push(key)
                        + drained(sources, cursors@, heap@, (left - 1) as nat));
                    assert(merged@ + drained(sources, cursors@, heap@, (left - 1) as nat) =~= out
                        + drained(sources, reads, entries, left));
                }
            },
        }
    }
    proof {
        assert(heap@ =~= Seq::<(i64, usize)>::empty());
        lemma_merged(sources, cursors@, merged@);
    }
    Container::new(merged)
}

} // verus!
