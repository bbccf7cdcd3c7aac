use vstd::prelude::*;

verus! {

use crate::vector_based::VectorBasedDataStructure;
use crate::vector_based::vec_capacity;

/// LIFO stack backed by a resizable contiguous buffer. The view is the
/// buffer contents, bottom of the stack first; the top is the last element.
pub struct Stack<T> {
    entry: Vec<T>,
}

impl<T> View for Stack<T> {
    type V = Seq<T>;

    closed spec fn view(&self) -> Seq<T> {
        self.entry@
    }
}

impl<T> Stack<T> {
    /// Places `element` on top of the stack.
    pub fn push(&mut self, element: T)
        ensures
            final(self)@ == old(self)@.push(element),
    {
        self.entry.push(element);
    }

    /// Removes and returns the top element; `None` on an empty stack.
    pub fn pop(&mut self) -> (result: Option<T>)
        ensures
            old(self)@.len() == 0 ==> result is None && final(self)@ == old(self)@,
            old(self)@.len() > 0 ==> result == Some(old(self)@.last())
                && final(self)@ == old(self)@.drop_last(),
    {
        let entry_len = self.entry.len();
        if entry_len == 0 {
            None
        } else {
            let element = self.entry.remove(entry_len - 1);
            proof {
                assert(final(self)@ =~= old(self)@.drop_last());
            }
            Some(element)
        }
    }

    /// Returns the top element without removing it; `None` on an empty stack.
    pub fn peek(&self) -> (result: Option<&T>)
        ensures
            self@.len() == 0 ==> result is None,
            self@.len() > 0 ==> (result matches Some(v) && *v == self@.last()),
    {
        let entry_len = self.entry.len();
        if entry_len == 0 {
            None
        } else {
            Some(&self.entry[entry_len - 1])
        }
    }

    /// A stack holding the elements of `vec`, bottom first: the last element
    /// of the vector becomes the top.
    pub fn from(vec: Vec<T>) -> (stack: Stack<T>)
        ensures
            stack@ == vec@,
    {
        Stack { entry: vec }
    }
}

impl<T> VectorBasedDataStructure<T> for Stack<T> {
    open spec fn spec_view(&self) -> Seq<T> {
        self@
    }

    fn new() -> (s: Self) {
        Stack { entry: Vec::new() }
    }

    fn with_capacity(capacity: usize) -> (s: Self) {
        Stack { entry: Vec::with_capacity(capacity) }
    }

    fn len(&self) -> (r: usize) {
        self.entry.len()
    }

    fn capacity(&self) -> (r: usize) {
        vec_capacity(&self.entry)
    }
}

} // verus!
