//! The read/modify/write capability of the cache tables.

use vstd::prelude::*;

verus! {

/// Computes a new value from the previous one (or from nothing, when the
/// key was absent), for the tables' `update` operations.
pub trait UpdateFrom<T>: Sized {
    /// The value the update computes.
    spec fn update_spec(self, old: Option<T>) -> T;

    /// Applies the update.
    fn update_from(self, old: Option<T>) -> (r: T)
        ensures
            r == self.update_spec(old),
    ;
}

} // verus!
