//! A growable contiguous array with explicit length/capacity bookkeeping.
//!
//! `MyVec<T>` owns storage for `capacity` element slots of which the first
//! `len` hold live values. Appending to a full container doubles the
//! capacity (with a floor of one slot), so a long run of appends costs
//! amortized constant time per element.

use vstd::prelude::*;

verus! {

/// A growable contiguous array.
///
/// The contents are abstracted as a sequence (`self@`); the reserved room is
/// abstracted as `self.spec_capacity()`. The length of the contents never
/// exceeds the capacity.
pub struct MyVec<T> {
    items: Vec<T>,
    cap: usize,
}

impl<T> View for MyVec<T> {
    type V = Seq<T>;

    closed spec fn view(&self) -> Seq<T> {
        self.items@
    }
}

/// The capacity that one growth step produces: doubling, with a floor of one
/// slot so that the very first growth from zero reserves a single slot.
pub open spec fn grown_capacity(cap: nat) -> nat {
    if cap == 0 {
        1
    } else {
        2 * cap
    }
}

/// Holds for every capacity value that a run of appends starting from an
/// empty container can produce: zero, or a power of two.
pub open spec fn zero_or_pow2(cap: nat) -> bool
    decreases cap,
{
    if cap == 0 {
        true
    } else if cap == 1 {
        true
    } else {
        cap % 2 == 0 && zero_or_pow2(cap / 2)
    }
}

impl<T> MyVec<T> {
    #[verifier::type_invariant]
    spec fn well_formed(self) -> bool {
        self.items@.len() <= self.cap
    }

    /// The number of element slots currently reserved.
    pub closed spec fn spec_capacity(&self) -> nat {
        self.cap as nat
    }

    /// Creates a new, empty container without reserving any storage.
    pub fn new() -> (v: Self)
        ensures
            v@ == Seq::<T>::empty(),
            v.spec_capacity() == 0,
    {
        MyVec { items: Vec::new(), cap: 0 }
    }

    /// Creates an empty container with room reserved for `capacity` elements.
    pub fn with_capacity(capacity: usize) -> (v: Self)
        ensures
            v@ == Seq::<T>::empty(),
            v.spec_capacity() == capacity,
    {
        if capacity == 0 {
            return Self::new();
        }
        MyVec { items: Vec::with_capacity(capacity), cap: capacity }
    }

    /// Appends a value at the end, growing the backing store first when the
    /// container is full.
    pub fn push(&mut self, value: T)
        requires
            old(self)@.len() == old(self).spec_capacity() ==> old(self).spec_capacity() <= usize::MAX
                / 2,
        ensures
            final(self)@ == old(self)@.push(value),
            final(self).spec_capacity() == (if old(self)@.len() < old(self).spec_capacity() {
                old(self).spec_capacity()
            } else {
                grown_capacity(old(self).spec_capacity())
            }),
    {
        proof {
            use_type_invariant(&*self);
        }
        if self.items.len() == self.cap {
            self.grow();
        }
        // Writing into the slot happens on a local vector swapped out of
        // `self`, so that the container is well formed at every point even if
        // the write unwinds.
        let mut items = Vec::new();
        core::mem::swap(&mut items, &mut self.items);
        items.push(value);
        core::mem::swap(&mut items, &mut self.items);
    }

    /// Removes the last element and yields its ownership to the caller;
    /// returns `None` on an empty container and leaves it unchanged.
    pub fn pop(&mut self) -> (r: Option<T>)
        ensures
            final(self).spec_capacity() == old(self).spec_capacity(),
            match r {
                Some(value) => old(self)@.len() > 0 && value == old(self)@.last() && final(self)@
                    == old(self)@.drop_last(),
                None => old(self)@.len() == 0 && final(self)@ == old(self)@,
            },
    {
        proof {
            use_type_invariant(&*self);
        }
        if self.items.len() == 0 {
            None
        } else {
            let mut items = Vec::new();
            core::mem::swap(&mut items, &mut self.items);
            let value = items.pop();
            core::mem::swap(&mut items, &mut self.items);
            value
        }
    }

    /// Returns a reference to the element at `index`, or `None` whenever
    /// `index` is not below the current length.
    pub fn get(&self, index: usize) -> (r: Option<&T>)
        ensures
            match r {
                Some(value) => index < self@.len() && *value == self@[index as int],
                None => index >= self@.len(),
            },
    {
        if index >= self.items.len() {
            None
        } else {
            Some(&self.items[index])
        }
    }

    /// The number of live elements.
    pub fn len(&self) -> (n: usize)
        ensures
            n == self@.len(),
            n <= self.spec_capacity(),
    {
        proof {
            use_type_invariant(self);
        }
        self.items.len()
    }

    /// The number of element slots currently reserved; the length never
    /// exceeds it, whatever operations produced the container.
    pub fn capacity(&self) -> (n: usize)
        ensures
            n == self.spec_capacity(),
            self@.len() <= n,
    {
        proof {
            use_type_invariant(self);
        }
        self.cap
    }

    /// Whether the container holds no elements.
    pub fn is_empty(&self) -> (b: bool)
        ensures
            b == (self@.len() == 0),
    {
        self.items.len() == 0
    }

    /// Grows the backing store to the doubled capacity while keeping every
    /// element in place.
    fn grow(&mut self)
        requires
            old(self)@.len() == old(self).spec_capacity(),
            old(self).spec_capacity() <= usize::MAX / 2,
        ensures
            final(self)@ == old(self)@,
            final(self).spec_capacity() == grown_capacity(old(self).spec_capacity()),
    {
        proof {
            use_type_invariant(&*self);
        }
        let new_capacity = if self.cap == 0 {
            1
        } else {
            self.cap * 2
        };
        let mut items = Vec::new();
        core::mem::swap(&mut items, &mut self.items);
        items.reserve(new_capacity - items.len());
        core::mem::swap(&mut items, &mut self.items);
        self.cap = new_capacity;
    }
}

/// Appending a value and then removing from the end yields that same value
/// and restores the previous contents, hence also the previous length.
pub proof fn lemma_append_then_remove<T>(s: Seq<T>, value: T)
    ensures
        s.push(value).len() == s.len() + 1,
        s.push(value).last() == value,
        s.push(value).drop_last() == s,
{
    assert(s.push(value).drop_last() =~= s);
}

/// Appending at the end leaves every element already stored at its index, so
/// a run of appends preserves the order of its values.
pub proof fn lemma_append_preserves_contents<T>(s: Seq<T>, value: T, i: int)
    requires
        0 <= i < s.len(),
    ensures
        s.push(value)[i] == s[i],
{
}

/// Starting from an empty container, every capacity that growth produces is
/// zero or a power of two: one growth step takes such a capacity to the next
/// power of two, and `push` either keeps the capacity or performs exactly one
/// growth step.
pub proof fn lemma_growth_doubles(cap: nat)
    requires
        zero_or_pow2(cap),
    ensures
        zero_or_pow2(grown_capacity(cap)),
        grown_capacity(cap) > cap,
{
}

} // verus!
