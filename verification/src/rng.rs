//! Where random field elements come from.

use vstd::prelude::*;

verus! {

/// A source of random elements of `F`.
pub trait RandomSource<F>: Sized {
    /// Drawing this element can take the source from this state to a later one.
    /// By default it can do anything.
    open spec fn draws(&self, later: &Self, value: F) -> bool {
        true
    }

    /// Draws the next element.
    fn random(&mut self) -> (r: F)
        ensures
            old(self).draws(final(self), r),
    ;
}

} // verus!
