//! The simplest type-level share witnesses: a full share, and the half of any
//! other witness.  `Partial<N>` stands for half of what `N` stands for, so the
//! depth of nesting alone fixes the share; the only runtime trace a witness
//! leaves is the answer to `is_full`, which decides whether a handle may
//! deallocate.

use vstd::prelude::*;

verus! {

/// The witness for the whole share `1/1`.
pub struct Full;

/// The witness for half of the share that `N` stands for.
pub struct Partial<N: Ownership>(N);

/// A type-level share witness.  `is_full` holds exactly for [`Full`]: a
/// handle may deallocate, convert back into a box, or hand out a mutable
/// borrow only when its witness answers true here.
pub trait Ownership: Sized {
    /// Whether this witness stands for the whole share.
    spec fn is_full_spec() -> bool;

    /// Runtime form of `is_full_spec`, for the deallocation decision.
    fn is_full() -> (b: bool)
        ensures
            b == Self::is_full_spec(),
    ;
}

impl Ownership for Full {
    open spec fn is_full_spec() -> bool {
        true
    }

    fn is_full() -> bool {
        true
    }
}

impl<N: Ownership> Ownership for Partial<N> {
    open spec fn is_full_spec() -> bool {
        false
    }

    fn is_full() -> bool {
        false
    }
}

}
