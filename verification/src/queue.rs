//! Queues over a vector: a circular queue with a fixed capacity, and a
//! queue that keeps what it has handed out.

use crate::error::Error;
use crate::error::ErrorKind;
use vstd::prelude::*;

verus! {

/// A circular queue that holds at most `capacity` elements.
#[derive(Debug, Clone)]
pub struct BoundedQueue<T> {
    head: usize,
    buf: Vec<Option<T>>,
    tail: usize,
    capacity: usize,
    len: usize,
}

/// `x` taken round a ring of `capacity` places.
pub open spec fn wrapped(x: int, capacity: int) -> int {
    if x >= capacity {
        x - capacity
    } else {
        x
    }
}

impl<T> View for BoundedQueue<T> {
    type V = Seq<T>;

    /// The elements in the queue, the oldest first.
    closed spec fn view(&self) -> Seq<T> {
        Seq::new(
            self.len as nat,
            |k: int| self.buf@[wrapped(self.head + k, self.capacity as int)]->0,
        )
    }
}

impl<T> BoundedQueue<T> {
    /// The most elements that the queue holds.
    pub closed spec fn limit(&self) -> usize {
        self.capacity
    }

    /// The place of the oldest element.
    pub closed spec fn head_at(&self) -> usize {
        self.head
    }

    /// The place that the next element goes to.
    pub closed spec fn tail_at(&self) -> usize {
        self.tail
    }

    /// The elements lie in the ring between head and tail.
    pub closed spec fn wf(&self) -> bool {
        &&& self.len <= self.capacity
        &&& self.buf@.len() <= self.capacity
        &&& self.capacity == 0 ==> self.head == 0 && self.tail == 0
        &&& self.capacity > 0 ==> self.head < self.capacity && self.tail < self.capacity
        &&& self.capacity > 0 && self.len < self.capacity ==> self.tail == wrapped(
            self.head + self.len,
            self.capacity as int,
        )
        &&& self.len == self.capacity ==> self.tail == self.head
        &&& self.buf@.len() < self.capacity ==> self.tail == self.buf@.len() && self.head
            + self.len == self.tail
        &&& forall|k: int|
            0 <= k < self.len ==> {
                &&& wrapped(self.head + k, self.capacity as int) < self.buf@.len()
                &&& (#[trigger] self.buf@[wrapped(self.head + k, self.capacity as int)]) is Some
            }
    }

    /// A queue never holds more than it can.
    pub proof fn lemma_within_limit(&self)
        requires
            self.wf(),
        ensures
            self@.len() <= self.limit(),
    {
    }

    /// The place after `at` in the ring.
    fn after(&self, at: usize) -> (next: usize)
        requires
            at < self.capacity,
        ensures
            next == wrapped(at + 1, self.capacity as int),
            next < self.capacity,
    {
        if at + 1 == self.capacity {
            0
        } else {
            at + 1
        }
    }
}

impl<T> Default for BoundedQueue<T> {
    /// The queue that holds no element and can hold none.
    fn default() -> (queue: Self)
        ensures
            queue.wf(),
            queue@ == Seq::<T>::empty(),
            queue.limit() == 0,
    {
        let queue = Self { head: 0, tail: 0, len: 0, buf: Vec::new(), capacity: 0 };
        assert(queue@ =~= Seq::<T>::empty());
        queue
    }
}

impl<T> BoundedQueue<T> where T: PartialEq + Clone {
    /// Creates an empty queue that holds at most `capacity` elements.
    pub fn with_capacity(capacity: usize) -> (queue: Self)
        ensures
            queue.wf(),
            queue@ == Seq::<T>::empty(),
            queue@.len() <= queue.limit(),
            queue.limit() == capacity,
            queue.head_at() == 0,
            queue.tail_at() == 0,
    {
        let queue = Self { head: 0, tail: 0, len: 0, buf: Vec::with_capacity(capacity), capacity };
        assert(queue@ =~= Seq::<T>::empty());
        queue
    }

    /// Whether the queue holds no element.
    pub fn is_empty(&self) -> (empty: bool)
        ensures
            empty == (self@.len() == 0),
            self.wf() ==> self@.len() <= self.limit(),
    {
        self.len == 0
    }

    /// Whether the queue holds as many elements as it can.
    pub fn is_full(&self) -> (full: bool)
        ensures
            full == (self@.len() == self.limit()),
            self.wf() ==> self@.len() <= self.limit(),
            self.wf() ==> full == !(self@.len() < self.limit()),
    {
        self.len == self.capacity
    }

    /// The place of the oldest element in the ring.
    pub fn head(&self) -> (head: usize)
        ensures
            head == self.head_at(),
    {
        self.head
    }

    /// The place in the ring that the next element goes to.
    pub fn tail(&self) -> (tail: usize)
        ensures
            tail == self.tail_at(),
    {
        self.tail
    }

    /// Adds `elem` behind the youngest element, unless the queue is full.
    pub fn enqueue(&mut self, elem: T) -> (done: Result<(), Error>)
        requires
            old(self).wf(),
        ensures
            final(self).wf(),
            final(self).limit() == old(self).limit(),
            final(self)@.len() <= final(self).limit(),
            done is Ok <==> old(self)@.len() < old(self).limit(),
            done is Ok ==> ({
                &&& final(self)@ == old(self)@.push(elem)
                &&& final(self).head_at() == old(self).head_at()
                &&& final(self).tail_at() == wrapped(
                    old(self).tail_at() + 1,
                    old(self).limit() as int,
                )
            }),
            done is Err ==> done->Err_0.kind() == ErrorKind::QueueOverflow && *final(self) == *old(
                self,
            ),
    {
        if self.is_full() {
            return Err(Error::new(ErrorKind::QueueOverflow));
        }
        let ghost start = *self;
        if self.tail < self.buf.len() {
            self.buf[self.tail] = Some(elem);
        } else {
            self.buf.push(Some(elem));
        }
        self.tail = self.after(self.tail);
        self.len += 1;
        proof {
            assert forall|k: int| 0 <= k < self.len implies {
                &&& wrapped(self.head + k, self.capacity as int) < self.buf@.len()
                &&& (#[trigger] self.buf@[wrapped(self.head + k, self.capacity as int)]) is Some
            } by {
                if k < start.len {
                    assert(start.buf@[wrapped(start.head + k, start.capacity as int)] is Some);
                }
            }
            assert(self@ =~= start@.push(elem)) by {
                assert forall|k: int| 0 <= k < self.len implies self@[k] == start@.push(elem)[k] by {
                    if k < start.len {
                        assert(start.buf@[wrapped(start.head + k, start.capacity as int)] is Some);
                    }
                }
            }
        }
        Ok(())
    }

    /// Takes the oldest element out, unless the queue is empty.
    pub fn dequeue(&mut self) -> (taken: Result<T, Error>)
        requires
            old(self).wf(),
        ensures
            final(self).wf(),
            final(self).limit() == old(self).limit(),
            final(self)@.len() <= final(self).limit(),
            taken is Ok <==> old(self)@.len() > 0,
            taken is Ok ==> ({
                &&& taken->Ok_0 == old(self)@[0]
                &&& final(self)@ == old(self)@.drop_first()
                &&& final(self).tail_at() == old(self).tail_at()
                &&& final(self).head_at() == wrapped(
                    old(self).head_at() + 1,
                    old(self).limit() as int,
                )
            }),
            taken is Err ==> taken->Err_0.kind() == ErrorKind::QueueUnderflow && *final(self)
                == *old(self),
    {
        if self.is_empty() {
            return Err(Error::new(ErrorKind::QueueUnderflow));
        }
        let ghost start = *self;
        assert(start.buf@[wrapped(start.head + 0, start.capacity as int)] is Some);
        let slot = self.buf[self.head].take();
        let val = slot.unwrap();
        self.len -= 1;
        self.head = self.after(self.head);
        proof {
            assert forall|k: int| 0 <= k < self.len implies {
                &&& wrapped(self.head + k, self.capacity as int) < self.buf@.len()
                &&& (#[trigger] self.buf@[wrapped(self.head + k, self.capacity as int)]) is Some
            } by {
                assert(start.buf@[wrapped(start.head + (k + 1), start.capacity as int)] is Some);
            }
            assert(self@ =~= start@.drop_first()) by {
                assert forall|k: int| 0 <= k < self.len implies self@[k] == start@.drop_first()[k] by {
                    assert(start.buf@[wrapped(start.head + (k + 1), start.capacity as int)] is Some);
                }
            }
        }
        Ok(val)
    }
}

/// A queue over a vector that grows at its tail and keeps the elements that
/// it has handed out: `dequeue` hands out a copy and moves the head on.
#[derive(Debug, Clone, PartialEq, Eq, PartialOrd, Ord)]
pub struct Queue<T> {
    elements: Vec<T>,
    head: usize,
    tail: usize,
    cap: usize,
}

impl<T> View for Queue<T> {
    type V = Seq<T>;

    /// All elements that the queue keeps, in the order of their places.
    closed spec fn view(&self) -> Seq<T> {
        self.elements@
    }
}

impl<T> Queue<T> {
    /// The place that `dequeue` hands out next.
    pub closed spec fn head_at(&self) -> usize {
        self.head
    }

    /// The place that `enqueue` writes next.
    pub closed spec fn tail_at(&self) -> usize {
        self.tail
    }

    /// The capacity that the queue was made with.
    pub closed spec fn limit(&self) -> usize {
        self.cap
    }

    /// Head and tail are places of the queue or the place behind its last.
    pub closed spec fn wf(&self) -> bool {
        self.head <= self.elements@.len() && self.tail <= self.elements@.len()
    }
}

impl<T: Clone> Queue<T> {
    /// Creates an empty queue of the given capacity.
    pub fn new(capacity: usize) -> (queue: Queue<T>)
        ensures
            queue.wf(),
            queue@ == Seq::<T>::empty(),
            queue.head_at() == 0,
            queue.tail_at() == 0,
            queue.limit() == capacity,
    {
        Queue { elements: Vec::with_capacity(capacity), head: 0, tail: 0, cap: capacity }
    }

    /// Creates a queue that holds the elements of a vector, the first at
    /// its head.
    pub fn from(elements: Vec<T>, capacity: usize) -> (queue: Queue<T>)
        requires
            capacity >= elements@.len(),
        ensures
            queue.wf(),
            queue@ == elements@,
            queue.head_at() == 0,
            queue.tail_at() == elements@.len(),
            queue.limit() == capacity,
    {
        let tail = elements.len();
        Queue { elements, head: 0, tail, cap: capacity }
    }

    /// The capacity that the queue was made with.
    pub fn capacity(&self) -> (capacity: usize)
        ensures
            capacity == self.limit(),
    {
        self.cap
    }

    /// Whether the queue keeps no element.
    pub fn is_empty(&self) -> (empty: bool)
        ensures
            empty == (self@.len() == 0),
    {
        self.elements.is_empty()
    }

    /// Writes `element` at the tail: behind the last element where the tail
    /// is there, over the element at the tail where it is not. The tail
    /// moves on by one, and from the capacity back to 1.
    pub fn enqueue(&mut self, element: T)
        requires
            old(self).wf(),
        ensures
            final(self).wf(),
            final(self).limit() == old(self).limit(),
            final(self).head_at() == old(self).head_at(),
            final(self)@ == if old(self).tail_at() == old(self)@.len() {
                old(self)@.push(element)
            } else {
                old(self)@.update(old(self).tail_at() as int, element)
            },
            final(self).tail_at() == if old(self).tail_at() == old(self).limit() {
                1
            } else {
                old(self).tail_at() + 1
            },
    {
        if self.elements.len() == self.tail {
            self.elements.push(element);
        } else {
            self.elements[self.tail] = element;
        }
        assert(self.tail < self.elements.len() || self.tail == self.cap);
        if self.tail == self.cap {
            self.tail = 1;
        } else {
            self.tail += 1;
        }
    }

    /// The place that `enqueue` writes next.
    pub fn get_tail(&self) -> (tail: usize)
        ensures
            tail == self.tail_at(),
    {
        self.tail
    }

    /// The number of elements that the queue keeps.
    pub fn len(&self) -> (len: usize)
        ensures
            len == self@.len(),
    {
        self.elements.len()
    }

    /// Hands out a copy of the element at the head, if there is one. The
    /// head moves on by one, and from behind the last element back to 0.
    pub fn dequeue(&mut self) -> (element: Option<T>)
        requires
            old(self).wf(),
        ensures
            final(self).wf(),
            final(self)@ == old(self)@,
            final(self).limit() == old(self).limit(),
            final(self).tail_at() == old(self).tail_at(),
            element is Some <==> old(self).head_at() < old(self)@.len(),
            element is Some ==> cloned(old(self)@[old(self).head_at() as int], element->0),
            final(self).head_at() == if old(self).head_at() == old(self)@.len() {
                0
            } else {
                old(self).head_at() + 1
            },
    {
        let x = if self.head < self.elements.len() {
            Some(self.elements[self.head].clone())
        } else {
            None
        };
        if self.head == self.elements.len() {
            self.head = 0;
        } else {
            self.head += 1;
        }
        x
    }
}

} // verus!
