//! A binary heap over a vector that the caller hands in.
//!
//! The heap is the first `size` elements of its buffer. What the buffer
//! holds behind them does not belong to the heap: `sort` leaves the sorted
//! elements there. The marker type fixes the orientation: the largest
//! element is the root of a `Heap<T, MaxHeap>`, the smallest that of a
//! `Heap<T, MinHeap>`.

use core::marker::PhantomData;
use crate::order::le;
use crate::order::total_order;
use crate::seqs::ascending;
use crate::seqs::descending;
use crate::seqs::permutation;
use crate::sift::heap_but_down;
use crate::sift::heapified;
use crate::sift::heapify;
use crate::sift::is_heap;
use crate::sift::key_fits;
use crate::sift::last_fits;
use crate::sift::lemma_heapified;
use crate::sift::lemma_rekeyed;
use crate::sift::lemma_root_above_all;
use crate::sift::lemma_sift_down_permutes;
use crate::sift::lemma_sift_down_restores;
use crate::sift::lemma_with_new;
use crate::sift::lemma_without;
use crate::sift::lemma_without_root;
use crate::sift::put;
use crate::sift::rekey;
use crate::sift::rekeyed;
use crate::sift::sift_down;
use crate::sift::sink;
use crate::sift::take_at;
use crate::sift::take_root;
use crate::sift::unload;
use crate::sift::unloaded;
use crate::sift::with_new;
use crate::sift::without;
use crate::sift::without_root;
use vstd::prelude::*;

verus! {

/// Marks a heap whose root is its largest element.
#[derive(Debug)]
pub struct MaxHeap;

/// Marks a heap whose root is its smallest element.
#[derive(Debug)]
pub struct MinHeap;

/// The orientation of a heap.
pub trait Orientation {
    /// Whether the larger of two elements stands above the smaller one.
    spec fn is_max() -> bool;

    /// Whether the larger of two elements stands above the smaller one.
    fn max_first() -> (max: bool)
        ensures
            max == Self::is_max(),
    ;
}

impl Orientation for MaxHeap {
    open spec fn is_max() -> bool {
        true
    }

    fn max_first() -> (max: bool) {
        true
    }
}

impl Orientation for MinHeap {
    open spec fn is_max() -> bool {
        false
    }

    fn max_first() -> (max: bool) {
        false
    }
}

/// A binary heap of orientation `K` in the first `size` elements of a buffer.
#[derive(Debug)]
pub struct Heap<T, K> {
    buffer: Vec<T>,
    size: usize,
    marker: PhantomData<K>,
}

/// Walks over the elements of a heap, from the root on.
#[derive(Debug)]
pub struct Iter<'a, T> {
    inner: &'a [T],
    pos: usize,
}

impl<'a, T> Iter<'a, T> {
    #[verifier::type_invariant]
    spec fn within(&self) -> bool {
        self.pos <= self.inner@.len()
    }

    /// The elements that are still to come, in their order.
    pub closed spec fn remaining(&self) -> Seq<T> {
        self.inner@.skip(self.pos as int)
    }

    /// Hands out the next element, if one is left.
    pub fn next(&mut self) -> (item: Option<&'a T>)
        ensures
            old(self).remaining().len() == 0 ==> item is None && final(self).remaining() == old(
                self,
            ).remaining(),
            old(self).remaining().len() > 0 ==> item == Some(&old(self).remaining()[0])
                && final(self).remaining() == old(self).remaining().drop_first(),
    {
        proof {
            use_type_invariant(&*self);
        }
        if self.pos < self.inner.len() {
            let item = &self.inner[self.pos];
            self.pos += 1;
            assert(self.inner@.skip(self.pos as int) =~= self.inner@.skip(
                self.pos - 1,
            ).drop_first());
            Some(item)
        } else {
            None
        }
    }
}

impl<T: Clone, K> Clone for Heap<T, K> {
    /// A heap of as many elements over a buffer of clones.
    fn clone(&self) -> (copy: Self)
        ensures
            self.wf() ==> copy.wf() && copy@.len() == self@.len(),
            copy.items().len() == self.items().len(),
            forall|i: int|
                0 <= i < self.items().len() ==> cloned(self.items()[i], #[trigger] copy.items()[i]),
    {
        Heap { buffer: self.buffer.clone(), size: self.size, marker: PhantomData }
    }
}

impl<T, K> View for Heap<T, K> {
    type V = Seq<T>;

    /// The elements of the heap, the root first.
    closed spec fn view(&self) -> Seq<T> {
        self.buffer@.take(self.size as int)
    }
}

impl<T, K> Heap<T, K> {
    /// The heap lies within its buffer.
    pub closed spec fn wf(&self) -> bool {
        self.size <= self.buffer@.len()
    }

    /// All that the buffer holds: the heap and what stands behind it.
    pub closed spec fn items(&self) -> Seq<T> {
        self.buffer@
    }

    /// What the buffer holds behind the heap.
    pub closed spec fn tail(&self) -> Seq<T> {
        self.buffer@.skip(self.size as int)
    }
}

impl<T, K> core::ops::Index<usize> for Heap<T, K> {
    type Output = T;

    /// The element at `index` of the buffer.
    fn index(&self, index: usize) -> (output: &T)
        ensures
            *output == self.items()[index as int],
    {
        &self.buffer[index]
    }
}

impl<T, K> vstd::std_specs::core::IndexSpecImpl<usize> for Heap<T, K> {
    /// Indexing asks for a position of the buffer.
    open spec fn index_req(&self, index: &usize) -> bool {
        index < self.items().len()
    }
}

impl<T, K> Heap<T, K> where T: Ord + Clone {
    /// Creates a heap that owns `buffer` and has no element yet: all of the
    /// buffer stands behind the heap until the heap is built.
    pub fn new(buffer: Vec<T>) -> (heap: Self)
        ensures
            heap.wf(),
            heap@ == Seq::<T>::empty(),
            heap.items() == buffer@,
            heap.tail() == buffer@,
    {
        let heap = Self { buffer, size: 0, marker: PhantomData };
        assert(heap.buffer@.take(0) =~= Seq::<T>::empty());
        assert(heap.buffer@.skip(0) =~= heap.buffer@);
        heap
    }

    /// Creates an iterator over the elements of the heap.
    pub fn iter(&self) -> (iter: Iter<'_, T>)
        requires
            self.wf(),
        ensures
            iter.remaining() == self@,
    {
        let inner = vstd::slice::slice_subrange(self.buffer.as_slice(), 0, self.size);
        assert(inner@.skip(0) =~= inner@);
        assert(self.buffer@.subrange(0, self.size as int) =~= self.buffer@.take(self.size as int));
        Iter { inner, pos: 0 }
    }

    /// The buffer, the heap first.
    pub fn buffer(&self) -> (buffer: &Vec<T>)
        requires
            self.wf(),
        ensures
            buffer@ == self.items(),
            self.items() == self@ + self.tail(),
    {
        proof {
            assert(self.buffer@ =~= self.buffer@.take(self.size as int) + self.buffer@.skip(
                self.size as int,
            ));
        }
        &self.buffer
    }

    /// The number of elements in the heap.
    pub fn size(&self) -> (size: usize)
        requires
            self.wf(),
        ensures
            size == self@.len(),
    {
        self.size
    }

    /// Takes all of the buffer into the heap, as it stands.
    pub fn update_size(&mut self)
        requires
            old(self).wf(),
        ensures
            final(self).wf(),
            final(self)@ == old(self).items(),
            final(self).items() == old(self).items(),
            final(self).tail() == Seq::<T>::empty(),
    {
        self.size = self.buffer.len();
        assert(self.buffer@.take(self.size as int) =~= self.buffer@);
        assert(self.buffer@.skip(self.size as int) =~= Seq::<T>::empty());
    }

    /// Half of `index`: the position whose key `increase_key` and
    /// `decrease_key` compare a key at `index` with.
    pub fn parent(&self, index: usize) -> (parent: usize)
        ensures
            parent == index / 2,
    {
        index / 2
    }

    /// The position of the left child of `index`.
    pub fn left_child(&self, index: usize) -> (child: usize)
        requires
            2 * index + 1 <= usize::MAX,
        ensures
            child == 2 * index + 1,
    {
        index * 2 + 1
    }

    /// The position of the right child of `index`.
    pub fn right_child(&self, index: usize) -> (child: usize)
        requires
            2 * index + 2 <= usize::MAX,
        ensures
            child == 2 * index + 2,
    {
        index * 2 + 2
    }
}

impl<T, K> Heap<T, K> where T: Ord + Clone, K: Orientation {
    /// Lets the element at `index` sink until no child outranks it: as long
    /// as one does, it changes places with the child that outranks the
    /// other, the left one if neither does. Where nothing but the element at
    /// `index` breaks the heap property, it holds afterwards.
    pub fn heapify_down(&mut self, index: usize)
        requires
            old(self).wf(),
            total_order::<T>(),
        ensures
            final(self).wf(),
            final(self)@ == sift_down(K::is_max(), old(self)@, index as int),
            final(self)@.len() == old(self)@.len(),
            permutation(final(self)@, old(self)@),
            final(self).tail() == old(self).tail(),
            index < old(self)@.len() && heap_but_down(K::is_max(), old(self)@, 0, index as int)
                ==> is_heap(K::is_max(), final(self)@),
    {
        let max = K::max_first();
        proof {
            lemma_sift_down_permutes(max, self@, index as int);
            if index < self@.len() && heap_but_down(max, self@, 0, index as int) {
                lemma_sift_down_restores(max, self@, 0, index as int);
            }
        }
        sink(&mut self.buffer, self.size, index, max);
    }

    /// Takes all of the buffer into the heap and lets every parent sink,
    /// the last one first.
    pub fn build(&mut self)
        requires
            old(self).wf(),
            total_order::<T>(),
        ensures
            final(self).wf(),
            final(self)@ == heapified(K::is_max(), old(self).items()),
            is_heap(K::is_max(), final(self)@),
            permutation(final(self)@, old(self).items()),
            final(self)@.len() == old(self).items().len(),
            final(self).items() == final(self)@,
            final(self).tail() == Seq::<T>::empty(),
    {
        let max = K::max_first();
        proof {
            lemma_heapified(max, self.buffer@);
        }
        let ghost start = self.buffer@;
        self.size = self.buffer.len();
        assert(self.buffer@.take(self.size as int) =~= start);
        heapify(&mut self.buffer, self.size, max);
        assert(self.buffer@.take(self.size as int) =~= self.buffer@);
        assert(self.buffer@.skip(self.size as int) =~= Seq::<T>::empty());
    }

    /// The root, where the heap has one. In a built heap no element
    /// outranks it.
    pub fn peek_root(&self) -> (root: Option<&T>)
        requires
            self.wf(),
        ensures
            self@.len() == 0 ==> root is None,
            self@.len() > 0 ==> root == Some(&self@[0]),
            total_order::<T>() && is_heap(K::is_max(), self@) ==> forall|j: int|
                0 <= j < self@.len() ==> crate::sift::above(
                    K::is_max(),
                    self@[0],
                    #[trigger] self@[j],
                ),
    {
        proof {
            if total_order::<T>() && is_heap(K::is_max(), self@) {
                assert forall|j: int| 0 <= j < self@.len() implies crate::sift::above(
                    K::is_max(),
                    self@[0],
                    #[trigger] self@[j],
                ) by {
                    lemma_root_above_all(K::is_max(), self@, j);
                }
            }
        }
        if self.size == 0 {
            None
        } else {
            Some(&self.buffer[0])
        }
    }

    /// Takes the root out; the last element takes its place and sinks. What
    /// is left of a built heap is a heap, and none of its elements outranks
    /// the root that left.
    pub fn extract_root(&mut self) -> (root: Option<T>)
        requires
            old(self).wf(),
            total_order::<T>(),
        ensures
            final(self).wf(),
            root is Some <==> old(self)@.len() > 0,
            root is None ==> *final(self) == *old(self),
            root is Some ==> ({
                &&& root == Some(old(self)@[0])
                &&& final(self)@ == without_root(K::is_max(), old(self)@)
                &&& final(self)@.len() == old(self)@.len() - 1
                &&& final(self)@.to_multiset() == old(self)@.to_multiset().remove(old(self)@[0])
                &&& final(self).tail() == old(self).tail()
                &&& is_heap(K::is_max(), old(self)@) ==> is_heap(K::is_max(), final(self)@)
                &&& is_heap(K::is_max(), old(self)@) ==> forall|j: int|
                    0 <= j < final(self)@.len() ==> crate::sift::above(
                        K::is_max(),
                        old(self)@[0],
                        #[trigger] final(self)@[j],
                    )
            }),
    {
        let max = K::max_first();
        if self.size == 0 {
            return None;
        }
        proof {
            lemma_without_root(max, self@);
        }
        self.size -= 1;
        let root = take_root(&mut self.buffer, self.size + 1, max);
        Some(root)
    }

    /// Sorts all that the buffer holds: in ascending order in a max-heap, in
    /// descending order in a min-heap. The heap is built first. Afterwards
    /// one element is left in the heap and the others stand behind it: what
    /// the buffer holds is no heap any more until it is built again.
    pub fn sort(&mut self)
        requires
            old(self).wf(),
            total_order::<T>(),
        ensures
            final(self).wf(),
            K::is_max() ==> ascending(final(self).items()),
            !K::is_max() ==> descending(final(self).items()),
            final(self).items() == unloaded(
                K::is_max(),
                heapified(K::is_max(), old(self).items()),
                old(self).items().len() as int,
            ),
            permutation(final(self).items(), old(self).items()),
            final(self).items().len() == old(self).items().len(),
            final(self)@ == final(self).items().take(
                if old(self).items().len() == 0 {
                    0
                } else {
                    1
                },
            ),
            old(self).items().len() <= 1 ==> final(self).items() == old(self).items(),
    {
        let max = K::max_first();
        let ghost start = self.buffer@;
        self.build();
        assert(self.buffer@.take(self.size as int) =~= self.buffer@);
        unload(&mut self.buffer, self.size, max);
        assert(self.buffer@.take(self.size as int) =~= self.buffer@);
        if self.size > 1 {
            self.size = 1;
        }
        proof {
            if start.len() == 1 {
                crate::seqs::lemma_permutation_member(self.buffer@, start, 0);
                assert(self.buffer@ =~= start);
            } else if start.len() == 0 {
                assert(self.buffer@ =~= start);
            }
        }
    }

    /// Gives the element at `index` a key that may stand above its own and
    /// lets it climb by halving.
    fn change_key(&mut self, index: usize, key: T) -> (prev: Option<T>)
        requires
            old(self).wf(),
            total_order::<T>(),
        ensures
            final(self).wf(),
            prev is Some <==> index < old(self)@.len() && crate::sift::above(
                K::is_max(),
                key,
                old(self)@[index as int],
            ),
            prev is None ==> *final(self) == *old(self),
            prev is Some ==> ({
                &&& prev == Some(old(self)@[index as int])
                &&& final(self)@ == rekeyed(K::is_max(), old(self)@, index as int, key)
                &&& final(self)@.len() == old(self)@.len()
                &&& final(self)@.to_multiset() == old(self)@.to_multiset().insert(key).remove(
                    old(self)@[index as int],
                )
                &&& final(self).tail() == old(self).tail()
                &&& is_heap(K::is_max(), old(self)@) && key_fits(K::is_max(), old(self)@, index as int, key)
                    ==> is_heap(K::is_max(), final(self)@)
            }),
    {
        let max = K::max_first();
        if index >= self.size {
            return None;
        }
        proof {
            crate::sift::lemma_above(max, self.buffer@[index as int], key);
        }
        if crate::sift::ranks_above(max, &self.buffer[index], &key) {
            return None;
        }
        proof {
            lemma_rekeyed(max, self@, index as int, key);
        }
        let prev = rekey(&mut self.buffer, self.size, index, key, max);
        Some(prev)
    }

    /// Takes the element at `index` out; the last element takes its place,
    /// and sinks where it outranks the one that left or climbs by halving
    /// where it does not.
    pub fn delete_at(&mut self, index: usize) -> (gone: Option<T>)
        requires
            old(self).wf(),
            total_order::<T>(),
        ensures
            final(self).wf(),
            gone is Some <==> index < old(self)@.len(),
            gone is None ==> *final(self) == *old(self),
            gone is Some ==> ({
                &&& gone == Some(old(self)@[index as int])
                &&& final(self)@ == without(K::is_max(), old(self)@, index as int)
                &&& final(self)@.len() == old(self)@.len() - 1
                &&& final(self)@.to_multiset() == old(self)@.to_multiset().remove(
                    old(self)@[index as int],
                )
                &&& final(self).tail() == old(self).tail()
                &&& is_heap(K::is_max(), old(self)@) && last_fits(K::is_max(), old(self)@, index as int)
                    ==> is_heap(K::is_max(), final(self)@)
            }),
    {
        let max = K::max_first();
        if index >= self.size {
            return None;
        }
        proof {
            lemma_without(max, self@, index as int);
        }
        self.size -= 1;
        let gone = take_at(&mut self.buffer, self.size + 1, index, max);
        Some(gone)
    }

    /// Adds `key`: it enters behind the last element of the heap, where it
    /// takes the place of what stood there, and climbs towards the root.
    pub fn insert(&mut self, key: T)
        requires
            old(self).wf(),
            total_order::<T>(),
        ensures
            final(self).wf(),
            final(self)@ == with_new(K::is_max(), old(self)@, key),
            final(self)@.len() == old(self)@.len() + 1,
            final(self)@.to_multiset() == old(self)@.to_multiset().insert(key),
            final(self).tail() == if old(self).tail().len() > 0 {
                old(self).tail().drop_first()
            } else {
                old(self).tail()
            },
            is_heap(K::is_max(), old(self)@) ==> is_heap(K::is_max(), final(self)@),
    {
        let max = K::max_first();
        proof {
            lemma_with_new(max, self@, key);
        }
        let ghost start = self.buffer@;
        let size = self.size;
        put(&mut self.buffer, size, key, max);
        assert(size < self.buffer.len());
        self.size = size + 1;
        proof {
            if size < start.len() {
                assert(self.buffer@.skip(self.size as int) =~= start.skip(size as int).drop_first());
            } else {
                assert(self.buffer@.skip(self.size as int) =~= start.skip(size as int));
            }
        }
    }
}

impl<T> Heap<T, MaxHeap> where T: Ord + Clone {
    /// Lets the element at `index` sink until it is no smaller than its
    /// children: as long as a child is larger, it changes places with the
    /// larger child, the left one if they are equal.
    pub fn max_heapify(&mut self, index: usize)
        requires
            old(self).wf(),
            total_order::<T>(),
        ensures
            final(self).wf(),
            final(self)@ == sift_down(true, old(self)@, index as int),
            final(self)@.len() == old(self)@.len(),
            permutation(final(self)@, old(self)@),
            final(self).tail() == old(self).tail(),
            index < old(self)@.len() && heap_but_down(true, old(self)@, 0, index as int) ==> is_heap(
                true,
                final(self)@,
            ),
    {
        self.heapify_down(index)
    }

    /// Makes a max-heap of all that the buffer holds.
    pub fn build_max_heap(&mut self)
        requires
            old(self).wf(),
            total_order::<T>(),
        ensures
            final(self).wf(),
            final(self)@ == heapified(true, old(self).items()),
            is_heap(true, final(self)@),
            permutation(final(self)@, old(self).items()),
            final(self)@.len() == old(self).items().len(),
            final(self).items() == final(self)@,
            final(self).tail() == Seq::<T>::empty(),
    {
        self.build()
    }

    /// The root, which is the largest element where the heap is built.
    pub fn max(&self) -> (root: Option<&T>)
        requires
            self.wf(),
        ensures
            self@.len() == 0 ==> root is None,
            self@.len() > 0 ==> root == Some(&self@[0]),
            total_order::<T>() && is_heap(true, self@) ==> forall|j: int|
                0 <= j < self@.len() ==> le(#[trigger] self@[j], self@[0]),
    {
        proof {
            if total_order::<T>() && is_heap(true, self@) {
                assert forall|j: int| 0 <= j < self@.len() implies le(
                    #[trigger] self@[j],
                    self@[0],
                ) by {
                    lemma_root_above_all(true, self@, j);
                }
            }
        }
        self.peek_root()
    }

    /// Takes the largest element out of a built heap.
    pub fn extract_max(&mut self) -> (root: Option<T>)
        requires
            old(self).wf(),
            total_order::<T>(),
        ensures
            final(self).wf(),
            root is Some <==> old(self)@.len() > 0,
            root is None ==> *final(self) == *old(self),
            root is Some ==> ({
                &&& root == Some(old(self)@[0])
                &&& final(self)@ == without_root(true, old(self)@)
                &&& final(self)@.len() == old(self)@.len() - 1
                &&& final(self)@.to_multiset() == old(self)@.to_multiset().remove(old(self)@[0])
                &&& final(self).tail() == old(self).tail()
                &&& is_heap(true, old(self)@) ==> is_heap(true, final(self)@)
                &&& is_heap(true, old(self)@) ==> forall|j: int|
                    0 <= j < final(self)@.len() ==> le(#[trigger] final(self)@[j], old(self)@[0])
            }),
    {
        proof {
            if self@.len() > 0 {
                lemma_without_root(true, self@);
            }
        }
        self.extract_root()
    }

    /// Replaces the key at `index` by `key` where `key` is no smaller, and
    /// lets it climb: as long as it is larger than the key at half its
    /// position, the two change places. Returns the key that it replaced.
    /// Where `index` is not in the heap or `key` is smaller, nothing
    /// changes.
    pub fn increase_key(&mut self, index: usize, key: T) -> (prev: Option<T>)
        requires
            old(self).wf(),
            total_order::<T>(),
        ensures
            final(self).wf(),
            prev is Some <==> index < old(self)@.len() && le(old(self)@[index as int], key),
            prev is None ==> *final(self) == *old(self),
            prev is Some ==> ({
                &&& prev == Some(old(self)@[index as int])
                &&& final(self)@ == rekeyed(true, old(self)@, index as int, key)
                &&& final(self)@.len() == old(self)@.len()
                &&& final(self)@.to_multiset() == old(self)@.to_multiset().insert(key).remove(
                    old(self)@[index as int],
                )
                &&& final(self).tail() == old(self).tail()
                &&& is_heap(true, old(self)@) && key_fits(true, old(self)@, index as int, key)
                    ==> is_heap(true, final(self)@)
            }),
    {
        self.change_key(index, key)
    }

    /// Takes the element at `index` out of the heap and returns it. The last
    /// element takes its place; it sinks where it is larger than the one
    /// that left, and climbs by halving where it is not.
    pub fn delete_max(&mut self, index: usize) -> (gone: Option<T>)
        requires
            old(self).wf(),
            total_order::<T>(),
        ensures
            final(self).wf(),
            gone is Some <==> index < old(self)@.len(),
            gone is None ==> *final(self) == *old(self),
            gone is Some ==> ({
                &&& gone == Some(old(self)@[index as int])
                &&& final(self)@ == without(true, old(self)@, index as int)
                &&& final(self)@.len() == old(self)@.len() - 1
                &&& final(self)@.to_multiset() == old(self)@.to_multiset().remove(
                    old(self)@[index as int],
                )
                &&& final(self).tail() == old(self).tail()
                &&& is_heap(true, old(self)@) && last_fits(true, old(self)@, index as int)
                    ==> is_heap(true, final(self)@)
            }),
    {
        self.delete_at(index)
    }

    /// Adds `key` to the heap.
    pub fn max_insert_key(&mut self, key: T)
        requires
            old(self).wf(),
            total_order::<T>(),
        ensures
            final(self).wf(),
            final(self)@ == with_new(true, old(self)@, key),
            final(self)@.len() == old(self)@.len() + 1,
            final(self)@.to_multiset() == old(self)@.to_multiset().insert(key),
            final(self).tail() == if old(self).tail().len() > 0 {
                old(self).tail().drop_first()
            } else {
                old(self).tail()
            },
            is_heap(true, old(self)@) ==> is_heap(true, final(self)@),
    {
        self.insert(key)
    }
}

impl<T> Heap<T, MinHeap> where T: Ord + Clone {
    /// Lets the element at `index` sink until it is no larger than its
    /// children: as long as a child is smaller, it changes places with the
    /// smaller child, the left one if they are equal.
    pub fn min_heapify(&mut self, index: usize)
        requires
            old(self).wf(),
            total_order::<T>(),
        ensures
            final(self).wf(),
            final(self)@ == sift_down(false, old(self)@, index as int),
            final(self)@.len() == old(self)@.len(),
            permutation(final(self)@, old(self)@),
            final(self).tail() == old(self).tail(),
            index < old(self)@.len() && heap_but_down(false, old(self)@, 0, index as int) ==> is_heap(
                false,
                final(self)@,
            ),
    {
        self.heapify_down(index)
    }

    /// Makes a min-heap of all that the buffer holds.
    pub fn build_min_heap(&mut self)
        requires
            old(self).wf(),
            total_order::<T>(),
        ensures
            final(self).wf(),
            final(self)@ == heapified(false, old(self).items()),
            is_heap(false, final(self)@),
            permutation(final(self)@, old(self).items()),
            final(self)@.len() == old(self).items().len(),
            final(self).items() == final(self)@,
            final(self).tail() == Seq::<T>::empty(),
    {
        self.build()
    }

    /// The root, which is the smallest element where the heap is built.
    pub fn min(&self) -> (root: Option<&T>)
        requires
            self.wf(),
        ensures
            self@.len() == 0 ==> root is None,
            self@.len() > 0 ==> root == Some(&self@[0]),
            total_order::<T>() && is_heap(false, self@) ==> forall|j: int|
                0 <= j < self@.len() ==> le(self@[0], #[trigger] self@[j]),
    {
        proof {
            if total_order::<T>() && is_heap(false, self@) {
                assert forall|j: int| 0 <= j < self@.len() implies le(
                    self@[0],
                    #[trigger] self@[j],
                ) by {
                    lemma_root_above_all(false, self@, j);
                }
            }
        }
        self.peek_root()
    }

    /// Takes the smallest element out of a built heap.
    pub fn extract_min(&mut self) -> (root: Option<T>)
        requires
            old(self).wf(),
            total_order::<T>(),
        ensures
            final(self).wf(),
            root is Some <==> old(self)@.len() > 0,
            root is None ==> *final(self) == *old(self),
            root is Some ==> ({
                &&& root == Some(old(self)@[0])
                &&& final(self)@ == without_root(false, old(self)@)
                &&& final(self)@.len() == old(self)@.len() - 1
                &&& final(self)@.to_multiset() == old(self)@.to_multiset().remove(old(self)@[0])
                &&& final(self).tail() == old(self).tail()
                &&& is_heap(false, old(self)@) ==> is_heap(false, final(self)@)
                &&& is_heap(false, old(self)@) ==> forall|j: int|
                    0 <= j < final(self)@.len() ==> le(old(self)@[0], #[trigger] final(self)@[j])
            }),
    {
        proof {
            if self@.len() > 0 {
                lemma_without_root(false, self@);
            }
        }
        self.extract_root()
    }

    /// Replaces the key at `index` by `key` where `key` is no larger, and
    /// lets it climb: as long as it is smaller than the key at half its
    /// position, the two change places. Returns the key that it replaced.
    /// Where `index` is not in the heap or `key` is larger, nothing changes.
    pub fn decrease_key(&mut self, index: usize, key: T) -> (prev: Option<T>)
        requires
            old(self).wf(),
            total_order::<T>(),
        ensures
            final(self).wf(),
            prev is Some <==> index < old(self)@.len() && le(key, old(self)@[index as int]),
            prev is None ==> *final(self) == *old(self),
            prev is Some ==> ({
                &&& prev == Some(old(self)@[index as int])
                &&& final(self)@ == rekeyed(false, old(self)@, index as int, key)
                &&& final(self)@.len() == old(self)@.len()
                &&& final(self)@.to_multiset() == old(self)@.to_multiset().insert(key).remove(
                    old(self)@[index as int],
                )
                &&& final(self).tail() == old(self).tail()
                &&& is_heap(false, old(self)@) && key_fits(false, old(self)@, index as int, key)
                    ==> is_heap(false, final(self)@)
            }),
    {
        self.change_key(index, key)
    }

    /// Takes the element at `index` out of the heap and returns it. The last
    /// element takes its place; it sinks where it is smaller than the one
    /// that left, and climbs by halving where it is not.
    pub fn delete_min(&mut self, index: usize) -> (gone: Option<T>)
        requires
            old(self).wf(),
            total_order::<T>(),
        ensures
            final(self).wf(),
            gone is Some <==> index < old(self)@.len(),
            gone is None ==> *final(self) == *old(self),
            gone is Some ==> ({
                &&& gone == Some(old(self)@[index as int])
                &&& final(self)@ == without(false, old(self)@, index as int)
                &&& final(self)@.len() == old(self)@.len() - 1
                &&& final(self)@.to_multiset() == old(self)@.to_multiset().remove(
                    old(self)@[index as int],
                )
                &&& final(self).tail() == old(self).tail()
                &&& is_heap(false, old(self)@) && last_fits(false, old(self)@, index as int)
                    ==> is_heap(false, final(self)@)
            }),
    {
        self.delete_at(index)
    }

    /// Adds `key` to the heap.
    pub fn min_insert_key(&mut self, key: T)
        requires
            old(self).wf(),
            total_order::<T>(),
        ensures
            final(self).wf(),
            final(self)@ == with_new(false, old(self)@, key),
            final(self)@.len() == old(self)@.len() + 1,
            final(self)@.to_multiset() == old(self)@.to_multiset().insert(key),
            final(self).tail() == if old(self).tail().len() > 0 {
                old(self).tail().drop_first()
            } else {
                old(self).tail()
            },
            is_heap(false, old(self)@) ==> is_heap(false, final(self)@),
    {
        self.insert(key)
    }
}

} // verus!
