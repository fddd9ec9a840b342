//! A growable, index-addressable sequence that tracks its capacity and
//! doubles it when full.
use vstd::prelude::*;

verus! {

/// Why an indexed read failed.
#[derive(Clone, Copy, Debug, PartialEq, Eq, Structural)]
pub enum SequenceError {
    /// The index was not below the length.
    IndexOutOfRange,
}

/// The capacity that a full sequence of capacity `cap` grows to: double, or
/// one when it was zero, and never past the largest `usize`.
pub open spec fn grown(cap: nat) -> nat {
    if cap == 0 {
        1
    } else if 2 * cap > usize::MAX {
        usize::MAX as nat
    } else {
        2 * cap
    }
}

/// An ordered list of values of one type, addressed by index from zero.
pub struct Sequence<T> {
    items: Vec<T>,
    cap: usize,
}

impl<T> View for Sequence<T> {
    type V = Seq<T>;

    closed spec fn view(&self) -> Seq<T> {
        self.items@
    }
}

impl<T> Sequence<T> {
    /// The capacity: how many values fit before the storage grows.
    pub closed spec fn spec_capacity(&self) -> nat {
        self.cap as nat
    }

    /// The length never exceeds the capacity.
    pub closed spec fn well_formed(&self) -> bool {
        self.items@.len() <= self.cap
    }

    /// An empty sequence with no room reserved.
    pub fn new() -> (s: Self)
        ensures
            s.well_formed(),
            s@ == Seq::<T>::empty(),
            s.spec_capacity() == 0,
    {
        Sequence { items: Vec::new(), cap: 0 }
    }

    /// An empty sequence with room for `capacity` values.
    pub fn with_capacity(capacity: usize) -> (s: Self)
        ensures
            s.well_formed(),
            s@ == Seq::<T>::empty(),
            s.spec_capacity() == capacity,
    {
        Sequence { items: Vec::with_capacity(capacity), cap: capacity }
    }

    /// Adds `value` at the end, growing the capacity first when the sequence is full.
    pub fn append(&mut self, value: T)
        requires
            old(self).well_formed(),
            old(self)@.len() < usize::MAX,
        ensures
            final(self).well_formed(),
            final(self)@ == old(self)@.push(value),
            final(self).spec_capacity() == (if old(self)@.len() == old(self).spec_capacity() {
                grown(old(self).spec_capacity())
            } else {
                old(self).spec_capacity()
            }),
    {
        if self.items.len() == self.cap {
            if self.cap == 0 {
                self.cap = 1;
            } else if self.cap > usize::MAX / 2 {
                self.cap = usize::MAX;
            } else {
                self.cap = 2 * self.cap;
            }
        }
        self.items.push(value);
    }

    /// Removes and returns the last value; `None` when the sequence is empty.
    /// The capacity is kept.
    pub fn remove_last(&mut self) -> (r: Option<T>)
        requires
            old(self).well_formed(),
        ensures
            final(self).well_formed(),
            final(self).spec_capacity() == old(self).spec_capacity(),
            old(self)@.len() == 0 ==> r.is_none() && final(self)@ == old(self)@,
            old(self)@.len() > 0 ==> r == Some(old(self)@.last()) && final(self)@
                == old(self)@.drop_last(),
    {
        self.items.pop()
    }

    /// The value at `index`; `IndexOutOfRange` when `index` is not below the length.
    pub fn get(&self, index: usize) -> (r: Result<&T, SequenceError>)
        ensures
            index < self@.len() ==> r == Ok::<&T, SequenceError>(&self@[index as int]),
            index >= self@.len() ==> r == Err::<&T, SequenceError>(SequenceError::IndexOutOfRange),
    {
        if index < self.items.len() {
            Ok(&self.items[index])
        } else {
            Err(SequenceError::IndexOutOfRange)
        }
    }

    /// The number of values held.
    pub fn length(&self) -> (r: usize)
        ensures
            r == self@.len(),
    {
        self.items.len()
    }

    /// How many values fit before the storage grows.
    pub fn capacity(&self) -> (r: usize)
        ensures
            r == self.spec_capacity(),
    {
        self.cap
    }
}

} // verus!
