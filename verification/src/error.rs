use vstd::prelude::*;

verus! {

/// Returned by mutations that need an existing anchor element and do not
/// find one: inserting after a missing chain value, or removing a graph
/// edge that is not present. Query-style misses (lookups, pops on an empty
/// structure) are reported as `None` instead, never through this type.
#[derive(Debug, Clone, Copy, PartialEq, Eq, Structural)]
pub struct NotFound;

} // verus!
