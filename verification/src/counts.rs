//! Strong counts of reference-counted allocations, as `Rc::strong_count`
//! reads them.
use vstd::prelude::*;

use std::rc::Rc;

verus! {

/// A strong count read from an allocation by [`rc_strong_count`]. Its field
/// is private to this module, so the rest of the crate cannot make one up:
/// every `StrongCount` it holds was read from some `Rc`.
pub struct StrongCount {
    n: usize,
}

impl StrongCount {
    /// The count that was read.
    pub closed spec fn count(self) -> usize {
        self.n
    }

    /// The count that was read.
    pub fn value(&self) -> (n: usize)
        ensures
            n == self.count(),
    {
        self.n
    }
}

/// Calls `Rc::strong_count`: the number of `Rc` pointers to the allocation,
/// of which `r` itself is one. What the other pointers are depends on the
/// rest of the program, so nothing more is claimed.
#[verifier::external_body]
pub(crate) fn rc_strong_count<T>(r: &Rc<T>) -> (c: StrongCount)
    ensures
        c.count() >= 1,
{
    StrongCount { n: Rc::strong_count(r) }
}

} // verus!
