//! Dense arena storage with stable integer handles.
//!
//! An arena owns a growable array of values. `insert` appends and returns the
//! handle of the new slot; handles stay valid until `clear`, which invalidates
//! all of them wholesale (there is no per-slot removal, so handles are never
//! silently reused while the arena is live). `next_key` names the handle the
//! next `insert` will return, which lets a caller reserve a contiguous block
//! of slots before they exist.

use vstd::prelude::*;

verus! {

/// Flat indexed storage; the quadtree wraps its handles in strongly typed
/// keys so node handles and element handles cannot be mixed up.
pub struct Arena<T> {
    items: Vec<T>,
}

impl<T> View for Arena<T> {
    type V = Seq<T>;

    closed spec fn view(&self) -> Seq<T> {
        self.items@
    }
}

impl<T> Arena<T> {
    /// An empty arena.
    pub fn new() -> (r: Arena<T>)
        ensures
            r@ == Seq::<T>::empty(),
    {
        Arena { items: Vec::new() }
    }

    /// An empty arena with room reserved for `capacity` values.
    pub fn with_capacity(capacity: usize) -> (r: Arena<T>)
        ensures
            r@ == Seq::<T>::empty(),
    {
        Arena { items: Vec::with_capacity(capacity) }
    }

    /// The number of stored values.
    pub fn len(&self) -> (r: usize)
        ensures
            r == self@.len(),
    {
        self.items.len()
    }

    /// The handle that the next `insert` will return.
    pub fn next_key(&self) -> (r: usize)
        ensures
            r == self@.len(),
    {
        self.items.len()
    }

    /// Append a value; returns its handle.
    pub fn insert(&mut self, value: T) -> (r: usize)
        ensures
            final(self)@ == old(self)@.push(value),
            r == old(self)@.len(),
    {
        let key = self.items.len();
        self.items.push(value);
        key
    }

    /// Read the value of a handle known to be in range.
    pub fn get(&self, key: usize) -> (r: &T)
        requires
            key < self@.len(),
        ensures
            *r == self@[key as int],
    {
        &self.items[key]
    }

    /// Read the value of a handle, failing fast on a handle that is out of
    /// range (for example one taken before a `clear`).
    pub fn try_get(&self, key: usize) -> (r: Option<&T>)
        ensures
            match r {
                Some(v) => key < self@.len() && *v == self@[key as int],
                None => key >= self@.len(),
            },
    {
        if key < self.items.len() {
            Some(&self.items[key])
        } else {
            None
        }
    }

    /// Overwrite the value of a handle known to be in range.
    pub fn set(&mut self, key: usize, value: T)
        requires
            key < old(self)@.len(),
        ensures
            final(self)@ == old(self)@.update(key as int, value),
    {
        self.items[key] = value;
    }

    /// Drop all values and invalidate every handle, keeping capacity.
    pub fn clear(&mut self)
        ensures
            final(self)@ == Seq::<T>::empty(),
    {
        self.items.clear();
    }

    /// The stored values in handle order.
    pub fn values(&self) -> (r: &Vec<T>)
        ensures
            r@ == self@,
    {
        &self.items
    }
}

} // verus!
