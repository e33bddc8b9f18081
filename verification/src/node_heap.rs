//! A binary heap of nodes whose orientation is chosen when it is made.
//!
//! The heap keeps the keys of its nodes in a vector. After `build` the first
//! `size` keys are a heap of the chosen kind; after `sort` they are in
//! order and the heap property is gone until the heap is built again.

use crate::order::le;
use crate::order::less;
use crate::order::lt;
use crate::order::total_order;
use crate::seqs::permutation;
use crate::sift::heapified;
use crate::sift::heapify;
use crate::sift::is_heap;
use crate::sift::key_fits;
use crate::sift::lemma_heapified;
use crate::sift::lemma_rekeyed;
use crate::sift::lemma_without_root;
use crate::sift::ranked;
use crate::sift::rekey;
use crate::sift::rekeyed;
use crate::sift::unload;
use crate::sift::unloaded;
use crate::sift::without_root;
use vstd::prelude::*;

verus! {

/// The orientation of a heap.
#[derive(Debug, Clone, Copy)]
pub enum Kind {
    /// The smallest key is the root.
    Min,
    /// The largest key is the root.
    Max,
}

/// A node of the heap.
#[derive(Debug, Eq, PartialEq, PartialOrd, Ord, Clone)]
pub struct Node<T> {
    /// The key that the heap orders the node by.
    pub key: T,
}

impl<T> Node<T> {
    /// Creates a node with the key `key`.
    pub fn new(key: T) -> (node: Node<T>)
        ensures
            node.key == key,
    {
        Node { key }
    }
}

/// A binary heap of nodes.
#[derive(Debug, Clone)]
pub struct Heap<T> {
    /// The number of nodes in the heap.
    pub size: usize,
    /// Whether the nodes are in order rather than a heap.
    pub is_sorted: bool,
    /// The orientation of the heap.
    pub kind: Kind,
    /// The keys of the nodes, the root first.
    pub nodes: Vec<T>,
}

impl<T> View for Heap<T> {
    type V = Seq<T>;

    /// The keys of the nodes, the root first.
    open spec fn view(&self) -> Seq<T> {
        self.nodes@
    }
}

impl<T> Heap<T> {
    /// Whether the largest key is the root.
    pub open spec fn is_max(&self) -> bool {
        self.kind is Max
    }

    /// The heap counts as many nodes as it holds.
    pub open spec fn wf(&self) -> bool {
        self.size == self@.len()
    }
}

/// The position of the smallest key, the first one among equal keys.
pub open spec fn is_first_min<T: Ord>(s: Seq<T>, i: int) -> bool {
    &&& 0 <= i < s.len()
    &&& forall|j: int| 0 <= j < s.len() ==> le(s[i], #[trigger] s[j])
    &&& forall|j: int| 0 <= j < i ==> lt(s[i], #[trigger] s[j])
}

/// The position of the largest key, the last one among equal keys.
pub open spec fn is_last_max<T: Ord>(s: Seq<T>, i: int) -> bool {
    &&& 0 <= i < s.len()
    &&& forall|j: int| 0 <= j < s.len() ==> le(#[trigger] s[j], s[i])
    &&& forall|j: int| i < j < s.len() ==> lt(#[trigger] s[j], s[i])
}

/// Finds the smallest key, the first one among equal keys.
fn first_min<T: Ord>(v: &Vec<T>) -> (at: usize)
    requires
        total_order::<T>(),
        v@.len() > 0,
    ensures
        is_first_min(v@, at as int),
{
    let mut at: usize = 0;
    let mut j: usize = 1;
    proof {
        crate::order::lemma_total(v@[0], v@[0]);
    }
    while j < v.len()
        invariant
            total_order::<T>(),
            0 <= at < j <= v@.len(),
            forall|k: int| 0 <= k < j ==> le(v@[at as int], #[trigger] v@[k]),
            forall|k: int| 0 <= k < at ==> lt(v@[at as int], #[trigger] v@[k]),
        decreases v@.len() - j,
    {
        if less(&v[j], &v[at]) {
            proof {
                assert forall|k: int| 0 <= k < j + 1 implies le(v@[j as int], #[trigger] v@[k]) by {
                    crate::order::lemma_total(v@[j as int], v@[at as int]);
                    crate::order::lemma_total(v@[j as int], v@[j as int]);
                    if k < j {
                        crate::order::lemma_le_trans(v@[j as int], v@[at as int], v@[k]);
                    }
                }
                assert forall|k: int| 0 <= k < j implies lt(v@[j as int], #[trigger] v@[k]) by {
                    crate::order::lemma_total(v@[j as int], v@[at as int]);
                    crate::order::lemma_total(v@[j as int], v@[k]);
                    if le(v@[k], v@[j as int]) {
                        crate::order::lemma_le_trans(v@[at as int], v@[k], v@[j as int]);
                    }
                }
            }
            at = j;
        } else {
            proof {
                crate::order::lemma_total(v@[j as int], v@[at as int]);
            }
        }
        j += 1;
    }
    at
}

/// Finds the largest key, the last one among equal keys.
fn last_max<T: Ord>(v: &Vec<T>) -> (at: usize)
    requires
        total_order::<T>(),
        v@.len() > 0,
    ensures
        is_last_max(v@, at as int),
{
    let mut at: usize = 0;
    let mut j: usize = 1;
    proof {
        crate::order::lemma_total(v@[0], v@[0]);
    }
    while j < v.len()
        invariant
            total_order::<T>(),
            0 <= at < j <= v@.len(),
            forall|k: int| 0 <= k < j ==> le(#[trigger] v@[k], v@[at as int]),
            forall|k: int| at < k < j ==> lt(#[trigger] v@[k], v@[at as int]),
        decreases v@.len() - j,
    {
        if less(&v[j], &v[at]) {
        } else {
            proof {
                assert forall|k: int| 0 <= k < j + 1 implies le(#[trigger] v@[k], v@[j as int]) by {
                    crate::order::lemma_total(v@[j as int], v@[at as int]);
                    crate::order::lemma_total(v@[j as int], v@[j as int]);
                    if k < j {
                        crate::order::lemma_le_trans(v@[k], v@[at as int], v@[j as int]);
                    }
                }
            }
            at = j;
        }
        j += 1;
    }
    at
}

impl<T> Heap<T> where T: Ord + Clone {
    /// Creates a heap of the given kind without nodes.
    pub fn new(kind: Kind) -> (heap: Heap<T>)
        ensures
            heap.wf(),
            heap@ == Seq::<T>::empty(),
            heap.size == 0,
            heap.is_sorted,
            heap.is_max() == (kind is Max),
    {
        Heap { size: 0, kind, is_sorted: true, nodes: Vec::new() }
    }

    /// Creates a heap of the given kind from the nodes and builds it.
    /// Without nodes this is the empty heap.
    pub fn from(nodes: Vec<Node<T>>, kind: Kind) -> (heap: Heap<T>)
        requires
            total_order::<T>(),
        ensures
            heap.wf(),
            heap.is_max() == (kind is Max),
            heap@ == heapified(kind is Max, nodes@.map_values(|n: Node<T>| n.key)),
            is_heap(kind is Max, heap@),
            permutation(heap@, nodes@.map_values(|n: Node<T>| n.key)),
            heap@.len() == nodes@.len(),
            heap.is_sorted == (nodes@.len() == 0),
    {
        let ghost keys = nodes@.map_values(|n: Node<T>| n.key);
        let mut nodes = nodes;
        let mut turned: Vec<T> = Vec::new();
        while nodes.len() > 0
            invariant
                nodes@.len() + turned@.len() == keys.len(),
                forall|i: int| 0 <= i < nodes@.len() ==> (#[trigger] nodes@[i]).key == keys[i],
                forall|i: int|
                    0 <= i < turned@.len() ==> #[trigger] turned@[i] == keys[keys.len() - 1 - i],
            decreases nodes@.len(),
        {
            let node = nodes.pop().unwrap();
            turned.push(node.key);
        }
        let mut list: Vec<T> = Vec::new();
        while turned.len() > 0
            invariant
                list@.len() + turned@.len() == keys.len(),
                forall|i: int| 0 <= i < list@.len() ==> #[trigger] list@[i] == keys[i],
                forall|i: int|
                    0 <= i < turned@.len() ==> #[trigger] turned@[i] == keys[keys.len() - 1 - i],
            decreases turned@.len(),
        {
            let key = turned.pop().unwrap();
            list.push(key);
        }
        assert(list@ =~= keys);
        proof {
            lemma_heapified(kind is Max, keys);
        }
        if list.len() == 0 {
            assert(heapified(kind is Max, keys) =~= keys);
            return Heap { size: 0, kind, is_sorted: true, nodes: list };
        }
        let mut heap = Heap { kind, size: list.len(), is_sorted: false, nodes: list };
        heap.build();
        heap
    }

    /// Rebuilds the heap: every parent sinks, the last one first. What was
    /// in order is a heap again afterwards, and is no longer said to be in
    /// order.
    pub fn build(&mut self)
        requires
            total_order::<T>(),
            old(self).wf(),
        ensures
            final(self).wf(),
            final(self)@ == heapified(old(self).is_max(), old(self)@),
            final(self)@.len() == old(self)@.len(),
            final(self).size == old(self).size,
            is_heap(final(self).is_max(), final(self)@),
            permutation(final(self)@, old(self)@),
            final(self).kind == old(self).kind,
            !final(self).is_sorted,
    {
        let max = self.max_kind();
        proof {
            lemma_heapified(max, self.nodes@);
        }
        let ghost start = self.nodes@;
        assert(start.take(self.size as int) =~= start);
        heapify(&mut self.nodes, self.size, max);
        assert(self.nodes@.take(self.size as int) =~= self.nodes@);
        self.is_sorted = false;
    }

    /// Whether the largest key is the root.
    fn max_kind(&self) -> (max: bool)
        ensures
            max == self.is_max(),
    {
        match self.kind {
            Kind::Min => false,
            Kind::Max => true,
        }
    }

    /// Lets the key at `index` sink until no child outranks it.
    fn heapify(&mut self, index: usize)
        requires
            total_order::<T>(),
            old(self).wf(),
        ensures
            final(self).wf(),
            final(self)@ == crate::sift::sift_down(old(self).is_max(), old(self)@, index as int),
            final(self).is_max() == old(self).is_max(),
            final(self).is_sorted == old(self).is_sorted,
    {
        let max = self.max_kind();
        let ghost start = self.nodes@;
        assert(start.take(self.size as int) =~= start);
        crate::sift::sink(&mut self.nodes, self.size, index, max);
        assert(self.nodes@.take(self.size as int) =~= self.nodes@);
    }

    /// Counts the nodes that the heap holds.
    fn update_size(&mut self)
        ensures
            final(self).wf(),
            final(self)@ == old(self)@,
            final(self).is_max() == old(self).is_max(),
            final(self).is_sorted == old(self).is_sorted,
    {
        self.size = self.nodes.len();
    }

    /// Puts the keys in order: ascending for a max-heap, descending for a
    /// min-heap. The heap is built first; what is left is no heap any more.
    pub fn sort(&mut self)
        requires
            total_order::<T>(),
            old(self).wf(),
        ensures
            final(self).wf(),
            final(self).is_sorted,
            final(self).kind == old(self).kind,
            final(self).size == old(self).size,
            final(self)@ == unloaded(
                old(self).is_max(),
                heapified(old(self).is_max(), old(self)@),
                old(self)@.len() as int,
            ),
            permutation(final(self)@, old(self)@),
            ranked(old(self).is_max(), final(self)@),
    {
        let max = self.max_kind();
        self.build();
        let ghost built = self.nodes@;
        assert(built.take(self.size as int) =~= built);
        unload(&mut self.nodes, self.size, max);
        assert(self.nodes@.take(self.size as int) =~= self.nodes@);
        self.is_sorted = true;
        self.update_size();
    }

    /// A node with the smallest key: the root of a min-heap, the last node
    /// of a sorted min-heap, the first node of a sorted max-heap, and in a
    /// max-heap that is not sorted the first node that no other is smaller
    /// than.
    pub fn min(&self) -> (node: Option<Node<T>>)
        requires
            total_order::<T>(),
            self.wf(),
        ensures
            node is Some <==> self@.len() > 0,
            node is Some ==> cloned(self@[self.min_position()], node->0.key),
            node is Some && !self.is_max() && !self.is_sorted ==> self.min_position() == 0,
            node is Some && !self.is_max() && self.is_sorted ==> self.min_position() == self@.len() - 1,
            node is Some && self.is_max() && self.is_sorted ==> self.min_position() == 0,
            node is Some && self.is_max() && !self.is_sorted ==> is_first_min(
                self@,
                self.min_position(),
            ),
    {
        if self.size == 0 {
            return None;
        }
        let at = match self.kind {
            Kind::Min => if self.is_sorted {
                self.nodes.len() - 1
            } else {
                0
            },
            Kind::Max => if self.is_sorted {
                0
            } else {
                let at = first_min(&self.nodes);
                proof {
                    lemma_first_min_is_one(self.nodes@, at as int, self.min_position());
                }
                at
            },
        };
        Some(Node { key: self.nodes[at].clone() })
    }

    /// Where `min` finds its node.
    pub open spec fn min_position(&self) -> int {
        if self.is_max() {
            if self.is_sorted {
                0
            } else {
                choose|i: int| is_first_min(self.nodes@, i)
            }
        } else {
            if self.is_sorted {
                self.nodes@.len() - 1
            } else {
                0
            }
        }
    }

    /// A node with the largest key: the root of a max-heap, the last node of
    /// a sorted max-heap, the first node of a sorted min-heap, and in a
    /// min-heap that is not sorted the last node that no other is larger
    /// than.
    pub fn max(&self) -> (node: Option<Node<T>>)
        requires
            total_order::<T>(),
            self.wf(),
        ensures
            node is Some <==> self@.len() > 0,
            node is Some ==> cloned(self@[self.max_position()], node->0.key),
            node is Some && self.is_max() && !self.is_sorted ==> self.max_position() == 0,
            node is Some && self.is_max() && self.is_sorted ==> self.max_position() == self@.len() - 1,
            node is Some && !self.is_max() && self.is_sorted ==> self.max_position() == 0,
            node is Some && !self.is_max() && !self.is_sorted ==> is_last_max(
                self@,
                self.max_position(),
            ),
    {
        if self.size == 0 {
            return None;
        }
        let at = self.find_max();
        Some(Node { key: self.nodes[at].clone() })
    }

    /// Where `max` finds its node.
    pub open spec fn max_position(&self) -> int {
        if self.is_max() {
            if self.is_sorted {
                self.nodes@.len() - 1
            } else {
                0
            }
        } else {
            if self.is_sorted {
                0
            } else {
                choose|i: int| is_last_max(self.nodes@, i)
            }
        }
    }

    /// The position of the node that `max` returns.
    fn find_max(&self) -> (at: usize)
        requires
            total_order::<T>(),
            self.wf(),
            self@.len() > 0,
        ensures
            at == self.max_position(),
            at < self@.len(),
            !self.is_max() && !self.is_sorted ==> is_last_max(self@, at as int),
    {
        match self.kind {
            Kind::Min => if self.is_sorted {
                0
            } else {
                let at = last_max(&self.nodes);
                proof {
                    lemma_last_max_is_one(self.nodes@, at as int, self.max_position());
                }
                at
            },
            Kind::Max => if self.is_sorted {
                self.nodes.len() - 1
            } else {
                0
            },
        }
    }

    /// Takes the node that `max` returns out of the heap. A heap that is not
    /// sorted is a heap of its kind afterwards where it was one before, or
    /// in any case where its kind is `Min`; a sorted heap stays in order.
    pub fn extract_max(&mut self) -> (node: Option<Node<T>>)
        requires
            total_order::<T>(),
            old(self).wf(),
        ensures
            final(self).wf(),
            final(self).is_max() == old(self).is_max(),
            final(self).is_sorted == old(self).is_sorted,
            final(self).size == final(self)@.len(),
            node is Some <==> old(self)@.len() > 0,
            node is None ==> final(self)@ == old(self)@,
            node is Some ==> ({
                &&& 0 <= old(self).max_position() < old(self)@.len()
                &&& !old(self).is_sorted && !old(self).is_max() ==> is_last_max(
                    old(self)@,
                    old(self).max_position(),
                )
                &&& node->0.key == old(self)@[old(self).max_position()]
                &&& final(self)@.len() == old(self)@.len() - 1
                &&& final(self)@.to_multiset() == old(self)@.to_multiset().remove(node->0.key)
                &&& old(self).is_sorted ==> final(self)@ == old(self)@.remove(
                    old(self).max_position(),
                )
                &&& !old(self).is_sorted && old(self).is_max() ==> final(self)@ == without_root(
                    true,
                    old(self)@,
                )
                &&& !old(self).is_sorted && old(self).is_max() && is_heap(true, old(self)@)
                    ==> is_heap(true, final(self)@)
                &&& !old(self).is_sorted && !old(self).is_max() ==> final(self)@ == heapified(
                    false,
                    old(self)@.update(old(self).max_position(), old(self)@.last()).drop_last(),
                ) && is_heap(false, final(self)@)
            }),
    {
        if self.size == 0 {
            return None;
        }
        let at = self.find_max();
        let ghost start = self.nodes@;
        assert(start.len() > 0);
        if self.is_sorted {
            let key = self.nodes.remove(at);
            self.update_size();
            proof {
                vstd::seq_lib::to_multiset_remove(start, at as int);
            }
            Some(Node { key })
        } else {
            match self.kind {
                Kind::Min => {
                    let key = self.nodes.swap_remove(at);
                    self.update_size();
                    proof {
                        broadcast use vstd::seq_lib::to_multiset_update;
                        broadcast use vstd::seq_lib::to_multiset_remove;
                        broadcast use vstd::multiset::group_multiset_axioms;

                        let u = start.update(at as int, start.last());
                        start.to_multiset_ensures();
                        assert(start.contains(start.last()));
                        assert(start.contains(start[at as int]));
                        assert(u.drop_last() =~= u.remove(u.len() - 1));
                        assert(u.drop_last().to_multiset() =~= start.to_multiset().remove(
                            start[at as int],
                        ));
                    }
                    self.build();
                    Some(Node { key })
                },
                Kind::Max => {
                    proof {
                        lemma_without_root(true, start);
                    }
                    let key = self.nodes.swap_remove(0);
                    self.update_size();
                    self.heapify(0);
                    proof {
                        if start.len() == 1 {
                            assert(self.nodes@ =~= Seq::<T>::empty());
                        }
                    }
                    Some(Node { key })
                },
            }
        }
    }

    /// Replaces the key at `position` by `key` where `key` is no smaller,
    /// and lets it climb: as long as it is larger than the key at half its
    /// position, the two change places. A position outside the heap and a
    /// smaller key are refused, each with its own message, and nothing
    /// changes.
    pub fn increase_key(&mut self, key: T, position: usize) -> (done: Result<(), &'static str>)
        requires
            total_order::<T>(),
            old(self).wf(),
        ensures
            final(self).wf(),
            final(self).kind == old(self).kind,
            final(self).is_sorted == old(self).is_sorted,
            final(self).size == old(self).size,
            done is Ok <==> position < old(self)@.len() && le(old(self)@[position as int], key),
            done is Err ==> final(self)@ == old(self)@,
            position >= old(self)@.len() ==> done is Err && done->Err_0@
                == "position outside the heap"@,
            position < old(self)@.len() && !le(old(self)@[position as int], key) ==> done is Err
                && done->Err_0@ == "new key smaller than current key"@,
            done is Ok ==> ({
                &&& final(self)@ == rekeyed(true, old(self)@, position as int, key)
                &&& final(self)@.to_multiset() == old(self)@.to_multiset().insert(key).remove(
                    old(self)@[position as int],
                )
                &&& is_heap(true, old(self)@) && key_fits(true, old(self)@, position as int, key)
                    ==> is_heap(true, final(self)@)
            }),
    {
        if position >= self.size {
            return Err("position outside the heap");
        }
        proof {
            crate::order::lemma_total(key, self.nodes@[position as int]);
            crate::order::lemma_total(self.nodes@[position as int], key);
        }
        if less(&key, &self.nodes[position]) {
            return Err("new key smaller than current key");
        }
        let ghost start = self.nodes@;
        proof {
            lemma_rekeyed(true, start, position as int, key);
            assert(start.take(self.size as int) =~= start);
        }
        let _ = rekey(&mut self.nodes, self.size, position, key, true);
        assert(self.nodes@.take(self.size as int) =~= self.nodes@);
        Ok(())
    }
}

/// There is one position of the first smallest key.
proof fn lemma_first_min_is_one<T: Ord>(s: Seq<T>, i: int, j: int)
    requires
        total_order::<T>(),
        is_first_min(s, i),
        j == (choose|k: int| is_first_min(s, k)),
    ensures
        i == j,
{
    assert(is_first_min(s, j));
    crate::order::lemma_total(s[i], s[j]);
    crate::order::lemma_total(s[j], s[i]);
}

/// There is one position of the last largest key.
proof fn lemma_last_max_is_one<T: Ord>(s: Seq<T>, i: int, j: int)
    requires
        total_order::<T>(),
        is_last_max(s, i),
        j == (choose|k: int| is_last_max(s, k)),
    ensures
        i == j,
{
    assert(is_last_max(s, j));
    crate::order::lemma_total(s[i], s[j]);
    crate::order::lemma_total(s[j], s[i]);
}

} // verus!
