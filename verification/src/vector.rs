//! The runtime shape of the schema's vector values: a heap-backed growable
//! sequence. Schema layout describes such a value as a pointer plus a
//! 64-bit length and capacity; this safe counterpart carries the elements
//! themselves and offers the same operations.

use vstd::prelude::*;

verus! {

/// A heap-backed growable sequence of `T`.
#[derive(Debug)]
pub struct Vector<T> {
    items: Vec<T>,
}

impl<T> View for Vector<T> {
    type V = Seq<T>;

    closed spec fn view(&self) -> Seq<T> {
        self.items@
    }
}

impl<T> Vector<T> {
    /// The empty vector.
    pub fn new() -> (r: Self)
        ensures
            r@ == Seq::<T>::empty(),
    {
        let r = Vector { items: Vec::new() };
        proof {
            assert(r@ =~= Seq::<T>::empty());
        }
        r
    }

    /// An empty vector with room reserved for `capacity` elements.
    pub fn with_capacity(capacity: u64) -> (r: Self)
        ensures
            r@ == Seq::<T>::empty(),
    {
        let cap: usize = if capacity > usize::MAX as u64 {
            usize::MAX
        } else {
            capacity as usize
        };
        let r = Vector { items: Vec::with_capacity(cap) };
        proof {
            assert(r@ =~= Seq::<T>::empty());
        }
        r
    }

    /// How many elements the vector holds.
    pub fn length(&self) -> (r: usize)
        ensures
            r == self@.len(),
    {
        self.items.len()
    }

    /// Appends one element at the end.
    pub fn push(&mut self, elem: T)
        ensures
            final(self)@ == old(self)@.push(elem),
    {
        self.items.push(elem);
    }

    /// Removes and returns the last element, if any.
    pub fn pop(&mut self) -> (r: Option<T>)
        ensures
            match r {
                Some(elem) => old(self)@.len() > 0 && elem == old(self)@.last()
                    && final(self)@ == old(self)@.drop_last(),
                None => old(self)@.len() == 0 && final(self)@ == old(self)@,
            },
    {
        self.items.pop()
    }

    /// The elements, as a slice.
    pub fn as_slice(&self) -> (r: &[T])
        ensures
            r@ == self@,
    {
        self.items.as_slice()
    }

    /// Replaces the whole contents with the elements of `v`.
    pub fn update_from_vec(&mut self, v: Vec<T>)
        ensures
            final(self)@ == v@,
    {
        self.items = v;
    }
}

} // verus!
