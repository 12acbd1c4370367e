//! A doubly linked list whose nodes can be moved to the front through
//! handles, and a least-recently-used cache built on it.
use vstd::prelude::*;

use std::rc::Rc;

use crate::counts::rc_strong_count;

pub mod counts;
pub mod id;
pub mod list;
pub mod lru;

verus! {

/// Reference counts of a shared allocation.
#[derive(Debug, Clone, Copy, PartialEq, Eq)]
pub struct RefCount {
    pub strong: usize,
    pub weak: usize,
}

/// Calls `Rc::weak_count`: the number of `Weak` pointers to the allocation.
/// It depends on the rest of the program, so nothing is claimed of it.
#[verifier::external_body]
fn rc_weak_count<T>(r: &Rc<T>) -> usize {
    Rc::weak_count(r)
}

impl RefCount {
    /// The strong and weak counts of the allocation behind `r`.
    pub fn of<T>(r: &Rc<T>) -> (rc: Self)
        ensures
            rc.strong >= 1,
    {
        RefCount { strong: rc_strong_count(r).value(), weak: rc_weak_count(r) }
    }
}

} // verus!
