//! A linked list that grows at its head.
//!
//! The list owns its nodes and keeps them in the order in which they were
//! inserted; the head is the node that was inserted last.

use crate::order::decides_eq;
use crate::order::eq;
use crate::order::equal;
use crate::search::first_match;
use crate::search::no_match;
use core::cmp::Ordering;
use vstd::prelude::*;
use vstd::std_specs::cmp::PartialOrdSpec;
use vstd::std_specs::cmp::PartialOrdSpecImpl;
use vstd::std_specs::cmp::PartialEqSpecImpl;

verus! {

/// A node of the list.
#[derive(Debug, Eq)]
pub struct Node<T> {
    key: T,
}

impl<T: PartialEq> PartialEq for Node<T> {
    /// Two nodes are equal where their keys are.
    fn eq(&self, other: &Self) -> (equal: bool) {
        self.key == other.key
    }
}

impl<T: PartialEq> PartialEqSpecImpl for Node<T> {
    open spec fn obeys_eq_spec() -> bool {
        decides_eq::<T>()
    }

    open spec fn eq_spec(&self, other: &Self) -> bool {
        eq(self.key(), other.key())
    }
}

impl<T: PartialOrd> PartialOrd for Node<T> {
    /// Two nodes compare as their keys do.
    fn partial_cmp(&self, other: &Self) -> (order: Option<Ordering>) {
        self.key.partial_cmp(&other.key)
    }
}

impl<T: PartialOrd> PartialOrdSpecImpl for Node<T> {
    open spec fn obeys_partial_cmp_spec() -> bool {
        T::obeys_partial_cmp_spec()
    }

    open spec fn partial_cmp_spec(&self, other: &Self) -> Option<Ordering> {
        self.key().partial_cmp_spec(&other.key())
    }
}

impl<T> Node<T> {
    /// The key of the node.
    pub closed spec fn key(&self) -> T {
        self.key
    }

    /// Creates a node with the key `key`.
    pub fn new(key: T) -> (node: Node<T>)
        ensures
            node.key() == key,
    {
        Node { key }
    }

    /// The key of the node.
    pub fn get(&self) -> (key: &T)
        ensures
            *key == self.key(),
    {
        &self.key
    }
}

/// A linked list.
#[derive(Debug)]
pub struct LinkedList<T> {
    nodes: Vec<Node<T>>,
    size: usize,
}

impl<T> View for LinkedList<T> {
    type V = Seq<T>;

    /// The keys of the nodes, the head first.
    closed spec fn view(&self) -> Seq<T> {
        Seq::new(self.nodes@.len(), |i: int| self.nodes@[self.nodes@.len() - 1 - i].key())
    }
}

impl<T> LinkedList<T> {
    /// The list counts as many nodes as it holds.
    pub closed spec fn wf(&self) -> bool {
        self.size == self.nodes@.len()
    }
}

impl<T: Ord> LinkedList<T> {
    /// Creates the list without nodes.
    pub fn new() -> (list: LinkedList<T>)
        ensures
            list.wf(),
            list@ == Seq::<T>::empty(),
    {
        let list = LinkedList { nodes: Vec::new(), size: 0 };
        assert(list@ =~= Seq::<T>::empty());
        list
    }

    /// Finds the first node from the head on that has the key `key`.
    pub fn search(&self, key: &T) -> (found: Option<&Node<T>>)
        requires
            decides_eq::<T>(),
        ensures
            found is None ==> no_match(self@, *key),
            found is Some ==> exists|i: int|
                first_match(self@, *key, i) && (#[trigger] self@[i]) == found->0.key(),
    {
        let n = self.nodes.len();
        let mut left = n;
        while left > 0
            invariant
                decides_eq::<T>(),
                n == self.nodes@.len(),
                left <= n,
                forall|i: int| 0 <= i < n - left ==> !eq(#[trigger] self@[i], *key),
            decreases left,
        {
            left -= 1;
            let node = &self.nodes[left];
            assert(self@[n - 1 - left] == node.key());
            if equal(&node.key, key) {
                assert(first_match(self@, *key, n - 1 - left));
                return Some(node);
            }
        }
        None
    }

    /// Puts `node` before the head of the list.
    pub fn insert(&mut self, node: Node<T>)
        requires
            old(self).wf(),
        ensures
            final(self).wf(),
            final(self)@ == Seq::<T>::empty().push(node.key()) + old(self)@,
    {
        self.nodes.push(node);
        assert(self.size < self.nodes.len());
        self.size += 1;
        assert(self@ =~= Seq::<T>::empty().push(node.key()) + old(self)@);
    }

    /// The number of nodes in the list.
    pub fn len(&self) -> (len: usize)
        requires
            self.wf(),
        ensures
            len == self@.len(),
    {
        self.size
    }

    /// Takes the first node that equals `node` out of the list. The list
    /// must hold such a node.
    pub fn delete(&mut self, node: &Node<T>) -> (done: Result<(), &'static str>)
        requires
            decides_eq::<T>(),
            old(self).wf(),
            !no_match(old(self)@, node.key()),
        ensures
            final(self).wf(),
            done is Ok,
            exists|i: int|
                first_match(old(self)@, node.key(), i) && #[trigger] old(self)@.remove(i)
                    == final(self)@,
    {
        let n = self.nodes.len();
        let ghost before = self@;
        let mut left = n;
        while left > 0
            invariant
                decides_eq::<T>(),
                self.wf(),
                *self == *old(self),
                before == self@,
                n == self.nodes@.len(),
                left <= n,
                !no_match(before, node.key()),
                forall|i: int| 0 <= i < n - left ==> !eq(#[trigger] before[i], node.key()),
            decreases left,
        {
            left -= 1;
            assert(before[n - 1 - left] == self.nodes@[left as int].key());
            if equal(&self.nodes[left].key, &node.key) {
                assert(first_match(before, node.key(), n - 1 - left));
                let _ = self.nodes.remove(left);
                self.size -= 1;
                assert(self@ =~= before.remove(n - 1 - left));
                return Ok(());
            }
        }
        proof {
            assert(no_match(before, node.key()));
        }
        Ok(())
    }
}

} // verus!
