//! A singly-linked list of heap-allocated nodes.

use vstd::prelude::*;

verus! {

struct Node<T> {
    data: T,
    next: Option<Box<Node<T>>>,
}

/// The sequence of values stored in the node `n` and its successors.
spec fn node_view<T>(n: Node<T>) -> Seq<T>
    decreases n,
{
    seq![n.data] + match n.next {
        None => Seq::<T>::empty(),
        Some(b) => node_view(*b),
    }
}

/// The sequence of values stored in the chain that starts at `node`.
spec fn chain_view<T>(node: Option<Box<Node<T>>>) -> Seq<T> {
    match node {
        None => Seq::<T>::empty(),
        Some(b) => node_view(*b),
    }
}

/// A singly-linked list; `self@` lists its values from front to back.
pub struct LinkedList<T> {
    head: Option<Box<Node<T>>>,
    len: usize,
}

impl<T> View for LinkedList<T> {
    type V = Seq<T>;

    closed spec fn view(&self) -> Seq<T> {
        chain_view(self.head)
    }
}

impl<T> LinkedList<T> {
    #[verifier::type_invariant]
    spec fn well_formed(self) -> bool {
        self.len == chain_view(self.head).len()
    }

    /// Creates a new, empty list.
    pub fn new() -> (l: Self)
        ensures
            l@ == Seq::<T>::empty(),
    {
        LinkedList { head: None, len: 0 }
    }

    /// Adds a value at the front of the list.
    pub fn push_front(&mut self, data: T)
        requires
            old(self)@.len() < usize::MAX,
        ensures
            final(self)@ == seq![data] + old(self)@,
    {
        proof {
            use_type_invariant(&*self);
        }
        let mut taken = LinkedList { head: None, len: 0 };
        core::mem::swap(&mut taken, self);
        let LinkedList { head, len } = taken;
        let new_node = Node { data, next: head };
        let mut result = LinkedList { head: Some(Box::new(new_node)), len: len + 1 };
        core::mem::swap(&mut result, self);
    }

    /// Removes and returns the value at the front of the list; returns
    /// `None` when it is empty.
    pub fn pop_front(&mut self) -> (r: Option<T>)
        ensures
            match r {
                Some(data) => old(self)@.len() > 0 && data == old(self)@.first() && final(self)@
                    == old(self)@.drop_first(),
                None => old(self)@.len() == 0 && final(self)@ == old(self)@,
            },
    {
        proof {
            use_type_invariant(&*self);
        }
        let mut taken = LinkedList { head: None, len: 0 };
        core::mem::swap(&mut taken, self);
        let LinkedList { head, len } = taken;
        match head {
            Some(node) => {
                let Node { data, next } = *node;
                let mut result = LinkedList { head: next, len: len - 1 };
                core::mem::swap(&mut result, self);
                assert(final(self)@ =~= old(self)@.drop_first());
                Some(data)
            },
            None => None,
        }
    }

    /// Adds a value at the back of the list.
    pub fn push_back(&mut self, data: T)
        requires
            old(self)@.len() < usize::MAX,
        ensures
            final(self)@ == old(self)@.push(data),
    {
        proof {
            use_type_invariant(&*self);
        }
        let mut taken = LinkedList { head: None, len: 0 };
        core::mem::swap(&mut taken, self);
        let LinkedList { head, len } = taken;
        let new_head = match head {
            None => Box::new(Node { data, next: None }),
            Some(node) => push_back_node(node, data),
        };
        proof {
            assert(chain_view(Some(new_head)) =~= chain_view(head).push(data));
        }
        let mut result = LinkedList { head: Some(new_head), len: len + 1 };
        core::mem::swap(&mut result, self);
    }

    /// Returns a reference to the value at the front without removing it.
    pub fn peek(&self) -> (r: Option<&T>)
        ensures
            match r {
                Some(data) => self@.len() > 0 && *data == self@.first(),
                None => self@.len() == 0,
            },
    {
        match &self.head {
            Some(node) => Some(&node.data),
            None => None,
        }
    }

    /// The number of values in the list.
    pub fn len(&self) -> (n: usize)
        ensures
            n == self@.len(),
    {
        proof {
            use_type_invariant(self);
        }
        self.len
    }

    /// Whether the list holds no values.
    pub fn is_empty(&self) -> (b: bool)
        ensures
            b == (self@.len() == 0),
    {
        self.head.is_none()
    }

    /// Returns an iterator over references to the values, front to back.
    pub fn iter(&self) -> (it: Iter<'_, T>)
        ensures
            it@ == self@,
    {
        match &self.head {
            Some(b) => Iter { current: Some(&**b) },
            None => Iter { current: None },
        }
    }
}

/// Appends `data` at the end of the owned chain that starts at `node`.
fn push_back_node<T>(node: Box<Node<T>>, data: T) -> (r: Box<Node<T>>)
    ensures
        chain_view(Some(r)) == chain_view(Some(node)).push(data),
    decreases node,
{
    let ghost old_node = node;
    let Node { data: first, next } = *node;
    let ghost old_next = next;
    proof {
        assert(chain_view(Some(old_node)) == seq![first] + chain_view(old_next));
    }
    let new_next = match next {
        None => Box::new(Node { data, next: None }),
        Some(rest) => push_back_node(rest, data),
    };
    proof {
        assert(chain_view(Some(new_next)) =~= chain_view(old_next).push(data));
    }
    let r = Box::new(Node { data: first, next: Some(new_next) });
    proof {
        assert(chain_view(Some(r)) == seq![first] + chain_view(Some(new_next)));
        assert(chain_view(Some(r)) =~= chain_view(Some(old_node)).push(data));
    }
    r
}

/// The sequence of values still to be yielded from `node` on.
spec fn rest_view<T>(node: Option<&Node<T>>) -> Seq<T> {
    match node {
        None => Seq::<T>::empty(),
        Some(n) => node_view(*n),
    }
}

/// An iterator over the values of a [`LinkedList`], front to back; `self@`
/// lists the values not yet yielded.
pub struct Iter<'a, T> {
    current: Option<&'a Node<T>>,
}

impl<'a, T> View for Iter<'a, T> {
    type V = Seq<T>;

    closed spec fn view(&self) -> Seq<T> {
        rest_view(self.current)
    }
}

impl<'a, T> Iter<'a, T> {
    /// Yields a reference to the next value, or `None` once every value has
    /// been yielded.
    pub fn next(&mut self) -> (r: Option<&'a T>)
        ensures
            match r {
                Some(data) => old(self)@.len() > 0 && *data == old(self)@.first() && final(self)@
                    == old(self)@.drop_first(),
                None => old(self)@.len() == 0 && final(self)@ == old(self)@,
            },
    {
        match self.current {
            Some(node) => {
                self.current = match &node.next {
                    Some(b) => Some(&**b),
                    None => None,
                };
                assert(final(self)@ =~= old(self)@.drop_first());
                Some(&node.data)
            },
            None => None,
        }
    }
}

} // verus!
