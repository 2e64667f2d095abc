//! A first-in, first-out queue over a vector.

use vstd::prelude::*;

verus! {

/// A queue; `self@` lists its elements from front to back.
pub struct Queue<T> {
    items: Vec<T>,
}

impl<T> View for Queue<T> {
    type V = Seq<T>;

    closed spec fn view(&self) -> Seq<T> {
        self.items@
    }
}

impl<T> Queue<T> {
    /// Creates a new, empty queue.
    pub fn new() -> (q: Self)
        ensures
            q@ == Seq::<T>::empty(),
    {
        Queue { items: Vec::new() }
    }

    /// Adds a value at the back of the queue.
    pub fn enqueue(&mut self, item: T)
        ensures
            final(self)@ == old(self)@.push(item),
    {
        self.items.push(item)
    }

    /// Removes and returns the value at the front of the queue; returns
    /// `None` when it is empty.
    pub fn dequeue(&mut self) -> (r: Option<T>)
        ensures
            match r {
                Some(item) => old(self)@.len() > 0 && item == old(self)@.first() && final(self)@
                    == old(self)@.drop_first(),
                None => old(self)@.len() == 0 && final(self)@ == old(self)@,
            },
    {
        if self.len() > 0 {
            Some(self.items.remove(0))
        } else {
            None
        }
    }

    /// Returns a reference to the value at the front without removing it.
    pub fn peek(&self) -> (r: Option<&T>)
        ensures
            match r {
                Some(item) => self@.len() > 0 && *item == self@.first(),
                None => self@.len() == 0,
            },
    {
        if self.len() > 0 {
            Some(&self.items[0])
        } else {
            None
        }
    }

    /// Whether the queue holds no elements.
    pub fn is_empty(&self) -> (b: bool)
        ensures
            b == (self@.len() == 0),
    {
        self.items.is_empty()
    }

    /// The number of elements in the queue.
    pub fn len(&self) -> (n: usize)
        ensures
            n == self@.len(),
    {
        self.items.len()
    }
}

} // verus!
