//! Stacks: one over a vector, and a bounded one of linked elements.

use vstd::prelude::*;

verus! {

/// A stack over a vector.
#[derive(Clone, Debug)]
pub struct DummyStack<T> {
    buf: Vec<T>,
    top: usize,
}

impl<T> View for DummyStack<T> {
    type V = Seq<T>;

    /// The elements on the stack, the oldest first.
    closed spec fn view(&self) -> Seq<T> {
        self.buf@
    }
}

impl<T> Default for DummyStack<T> {
    /// The stack without elements.
    fn default() -> (stack: Self)
        ensures
            stack.wf(),
            stack@ == Seq::<T>::empty(),
    {
        DummyStack { buf: Vec::new(), top: 0 }
    }
}

impl<T> DummyStack<T> {
    /// The stack counts as many elements as it holds.
    pub closed spec fn wf(&self) -> bool {
        self.top == self.buf@.len()
    }

    /// The number of elements on the stack.
    pub fn top(&self) -> (top: usize)
        requires
            self.wf(),
        ensures
            top == self@.len(),
    {
        self.top
    }

    /// Puts `elem` on the stack.
    pub fn push(&mut self, elem: T)
        requires
            old(self).wf(),
        ensures
            final(self).wf(),
            final(self)@ == old(self)@.push(elem),
    {
        self.buf.push(elem);
        assert(self.top < self.buf.len());
        self.top += 1;
    }

    /// Whether the stack holds no element.
    pub fn is_empty(&self) -> (empty: bool)
        ensures
            empty == (self@.len() == 0),
    {
        self.buf.is_empty()
    }

    /// Takes the youngest element off the stack, if there is one.
    pub fn pop(&mut self) -> (elem: Option<T>)
        requires
            old(self).wf(),
        ensures
            final(self).wf(),
            elem is Some <==> old(self)@.len() > 0,
            elem is None ==> final(self)@ == old(self)@,
            elem is Some ==> elem == Some(old(self)@.last()) && final(self)@ == old(
                self,
            )@.drop_last(),
    {
        if self.is_empty() {
            return None;
        }
        self.top -= 1;
        let elem = self.buf.remove(self.top);
        assert(self.buf@ =~= old(self).buf@.drop_last());
        Some(elem)
    }
}

/// An element of a linked stack, with the element below it.
#[derive(Debug)]
pub struct Elem<T> {
    /// The value that was pushed.
    pub key: T,
    /// The element that was pushed before this one, while it is on a stack.
    pub prev: Option<Box<Elem<T>>>,
}

impl<T> Elem<T> {
    /// The keys of the elements below this one, the oldest first.
    pub open spec fn below(&self) -> Seq<T>
        decreases self,
    {
        match self.prev {
            None => Seq::empty(),
            Some(prev) => prev.below().push(prev.key),
        }
    }
}

/// A stack of linked elements that holds at most as many as its capacity.
pub struct Stack<T> {
    /// The youngest element, with the older ones below it.
    pub top: Option<Box<Elem<T>>>,
    /// The most elements that the stack holds.
    pub cap: usize,
    /// The number of elements on the stack.
    pub len: usize,
}

impl<T> View for Stack<T> {
    type V = Seq<T>;

    /// The keys on the stack, the oldest first.
    open spec fn view(&self) -> Seq<T> {
        match self.top {
            None => Seq::empty(),
            Some(top) => top.below().push(top.key),
        }
    }
}

impl<T> Stack<T> {
    /// The stack counts as many elements as it holds, and no more than it
    /// may hold.
    pub open spec fn wf(&self) -> bool {
        self.len == self@.len() && self.len <= self.cap
    }
}

impl<T: Ord> Stack<T> {
    /// Creates an empty stack that holds at most `capacity` elements.
    pub fn new(capacity: usize) -> (stack: Stack<T>)
        ensures
            stack.wf(),
            stack@ == Seq::<T>::empty(),
            stack.cap == capacity,
            stack.len == 0,
    {
        Stack { top: None, cap: capacity, len: 0 }
    }

    /// Whether the stack holds no element.
    pub fn is_empty(&self) -> (empty: bool)
        ensures
            empty == (self@.len() == 0),
    {
        self.top.is_none()
    }

    /// Takes the youngest element off the stack. It comes without the
    /// elements that were below it. An empty stack has none to give and
    /// stays as it is.
    pub fn pop(&mut self) -> (elem: Result<Elem<T>, &'static str>)
        requires
            old(self).wf(),
        ensures
            final(self).wf(),
            final(self).cap == old(self).cap,
            elem is Ok <==> old(self)@.len() > 0,
            elem is Err ==> elem->Err_0@ == "attempt to pop empty stack"@ && *final(self) == *old(
                self,
            ),
            elem is Ok ==> ({
                &&& elem->Ok_0.key == old(self)@.last()
                &&& elem->Ok_0.prev is None
                &&& final(self)@ == old(self)@.drop_last()
                &&& final(self).len == old(self).len - 1
            }),
    {
        if self.is_empty() {
            return Err("attempt to pop empty stack");
        }
        self.len -= 1;
        let top = self.top.take().unwrap();
        let Elem { key, prev } = *top;
        self.top = prev;
        assert(self@ =~= old(self)@.drop_last());
        Ok(Elem { key, prev: None })
    }

    /// Puts `key` on the stack, unless it is full; a full stack stays as it
    /// is.
    pub fn push(&mut self, key: T) -> (done: Result<(), &'static str>)
        requires
            old(self).wf(),
        ensures
            final(self).wf(),
            final(self).cap == old(self).cap,
            done is Ok <==> old(self).len < old(self).cap,
            done is Err ==> done->Err_0@ == "the stack is already full"@ && *final(self) == *old(
                self,
            ),
            done is Ok ==> final(self)@ == old(self)@.push(key) && final(self).len == old(
                self,
            ).len + 1,
    {
        if self.len == self.cap {
            return Err("the stack is already full");
        }
        self.len += 1;
        let below = self.top.take();
        self.top = Some(Box::new(Elem { key, prev: below }));
        Ok(())
    }
}

} // verus!
