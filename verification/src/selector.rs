//! A list of values with one of them chosen: a pointer to the chosen one.

use vstd::prelude::*;

verus! {

/// A list of elements, one of which is the current one.
pub struct Selector<T> {
    /// Elements available in this `Selector`.
    pub elements: Vec<T>,
    /// The index of the current element in `elements`. A `Selector` can be
    /// read through only while this is an index of `elements`.
    pub current: usize,
}

impl<T> Selector<T> {
    /// `current` picks one of the elements.
    pub open spec fn is_valid(self) -> bool {
        self.current < self.elements@.len()
    }

    /// The element that `current` picks.
    pub open spec fn chosen(self) -> T
        recommends
            self.is_valid(),
    {
        self.elements@[self.current as int]
    }

    /// The current element.
    pub fn deref(&self) -> (element: &T)
        requires
            self.is_valid(),
        ensures
            *element == self.chosen(),
    {
        &self.elements[self.current]
    }

    /// The current element, to be written through: what the caller leaves
    /// there takes the current element's place, and nothing else changes.
    pub fn deref_mut(&mut self) -> (element: &mut T)
        requires
            old(self).is_valid(),
        ensures
            *element == old(self).chosen(),
            final(self).current == old(self).current,
            final(self).elements@ == old(self).elements@.update(
                old(self).current as int,
                *final(element),
            ),
    {
        &mut self.elements[self.current]
    }
}

} // verus!
