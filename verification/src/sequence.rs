//! An immutable ordered list used for node lists, results and name chains.

use vstd::prelude::*;

verus! {

/// An ordered list of items, compared by content.
#[derive(Debug, Clone, PartialEq, Eq)]
pub struct Sequence<T> {
    items: Vec<T>,
}

impl<T> View for Sequence<T> {
    type V = Seq<T>;

    closed spec fn view(&self) -> Seq<T> {
        self.items@
    }
}

impl<T> Sequence<T> {
    /// A sequence with no items.
    pub fn empty() -> (r: Sequence<T>)
        ensures
            r@ == Seq::<T>::empty(),
    {
        let r = Sequence { items: Vec::new() };
        proof {
            assert(r@ =~= Seq::<T>::empty());
        }
        r
    }

    /// A sequence holding the given items, in their order.
    pub fn new(items: Vec<T>) -> (r: Sequence<T>)
        ensures
            r@ == items@,
    {
        Sequence { items }
    }

    /// The items, for iteration.
    pub fn iter(&self) -> (r: &Vec<T>)
        ensures
            r@ == self@,
    {
        &self.items
    }

    /// The number of items.
    pub fn len(&self) -> (r: usize)
        ensures
            r == self@.len(),
    {
        self.items.len()
    }

    /// The item at a position.
    pub fn get(&self, i: usize) -> (r: &T)
        requires
            i < self@.len(),
        ensures
            *r == self@[i as int],
    {
        &self.items[i]
    }
}

} // verus!
