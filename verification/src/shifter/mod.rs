use std::rc::Rc;
use vstd::prelude::*;

verus! {

/// An element paired with the position it was shifted to.
///
/// Shifting moves forward and backward across elements, advancing their states one at a
/// time, so that states which can be skipped at once are skipped without working out the
/// deeper permutations.
pub struct ShiftedElement<T> {
    element: Rc<T>,
    index: usize,
}

impl<T> ShiftedElement<T> {
    /// The shared element.
    pub closed spec fn spec_element(&self) -> Rc<T> {
        self.element
    }

    /// The position of the element.
    pub closed spec fn spec_index(&self) -> usize {
        self.index
    }

    /// Pairs `element` with `index`.
    pub fn new(element: Rc<T>, index: usize) -> (shifted: Self)
        ensures
            shifted.spec_element() == element,
            shifted.spec_index() == index,
    {
        ShiftedElement { element: element, index: index }
    }

    /// The shared element.
    pub fn element(&self) -> (element: &Rc<T>)
        ensures
            *element == self.spec_element(),
    {
        &self.element
    }

    /// The position of the element.
    pub fn index(&self) -> (index: usize)
        ensures
            index == self.spec_index(),
    {
        self.index
    }
}

} // verus!
