use vstd::prelude::*;

verus! {

/// Common construction and size interface of the structures that keep their
/// elements in one resizable contiguous buffer (`Stack` and `Graph`), as
/// opposed to the node-based chains.
pub trait VectorBasedDataStructure<T>: Sized {
    /// The elements currently held, in buffer order.
    spec fn spec_view(&self) -> Seq<T>;

    /// An empty structure with the default capacity.
    fn new() -> (s: Self)
        ensures
            s.spec_view() == Seq::<T>::empty(),
    ;

    /// An empty structure pre-sized for `capacity` elements.
    fn with_capacity(capacity: usize) -> (s: Self)
        ensures
            s.spec_view() == Seq::<T>::empty(),
    ;

    /// The number of live elements.
    fn len(&self) -> (r: usize)
        ensures
            r == self.spec_view().len(),
    ;

    /// The number of currently allocated slots; never below `len`.
    fn capacity(&self) -> (r: usize)
        ensures
            r >= self.spec_view().len(),
    ;
}

/// Relies on `Vec::capacity`: std documents that a vector's capacity is at
/// least its length.
#[verifier::external_body]
pub(crate) fn vec_capacity<T>(v: &Vec<T>) -> (r: usize)
    ensures
        r >= v@.len(),
{
    v.capacity()
}

} // verus!
