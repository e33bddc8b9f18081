//! A singly linked list that grows at its head.

use vstd::prelude::*;

verus! {

/// A node of the list, with the nodes behind it.
#[derive(Debug)]
pub struct Node<T> {
    /// The value of the node.
    pub key: T,
    next: Option<Box<Node<T>>>,
}

impl<T> Node<T> {
    /// The keys of this node and of the nodes behind it, in their order.
    pub closed spec fn keys(&self) -> Seq<T>
        decreases self,
    {
        match self.next {
            None => Seq::empty().push(self.key),
            Some(next) => Seq::empty().push(self.key) + next.keys(),
        }
    }

    /// Creates a node with the key `key` and no node behind it.
    fn with_key(key: T) -> (node: Self)
        ensures
            node.keys() == Seq::<T>::empty().push(key),
    {
        Self { key, next: None }
    }
}

/// A singly linked list.
#[derive(Debug)]
pub struct List<T> {
    head: Option<Box<Node<T>>>,
}

impl<T> View for List<T> {
    type V = Seq<T>;

    /// The keys of the list, the head first.
    closed spec fn view(&self) -> Seq<T> {
        match self.head {
            None => Seq::empty(),
            Some(head) => head.keys(),
        }
    }
}

impl<T> List<T> {
    /// Creates the list without nodes.
    pub fn new() -> (list: Self)
        ensures
            list@ == Seq::<T>::empty(),
    {
        Self { head: None }
    }

    /// Puts a node with the key `key` before the head of the list.
    pub fn insert(&mut self, key: T)
        ensures
            final(self)@ == Seq::<T>::empty().push(key) + old(self)@,
    {
        let mut node = Box::new(Node::with_key(key));
        node.next = self.head.take();
        self.head = Some(node);
        assert(Seq::<T>::empty().push(key) + Seq::<T>::empty() =~= Seq::<T>::empty().push(key));
    }
}

impl<T> Default for List<T> {
    /// The list without nodes.
    fn default() -> (list: Self)
        ensures
            list@ == Seq::<T>::empty(),
    {
        Self::new()
    }
}

} // verus!
