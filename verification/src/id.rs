use vstd::prelude::*;

verus! {

/// The counter value that follows `c`, wrapping around at the end of `usize`.
pub open spec fn id_after(c: usize) -> usize {
    if c == usize::MAX {
        0
    } else {
        (c + 1) as usize
    }
}

/// The identity of a list node, for tracking allocations while debugging.
#[derive(Debug, Hash, PartialEq, Eq, Default, Clone, Copy)]
pub struct Id(pub usize);

impl Id {
    /// Takes the next identity from `counter` and advances the counter by
    /// one, wrapping around at the end of `usize` as an atomic
    /// `fetch_add` does.
    pub fn next(counter: &mut usize) -> (id: Id)
        ensures
            id.0 == *old(counter),
            *final(counter) == id_after(*old(counter)),
    {
        let id = *counter;
        *counter = counter.wrapping_add(1);
        Id(id)
    }
}

} // verus!
