//! Commitments as points of a curve.

use vstd::prelude::*;

verus! {

/// A point of a curve in the form in which it is computed with.
pub trait Curve: Sized + Copy {
    /// A point in the form in which it is written to a transcript.
    type AffineRepr: Copy;

    /// `a` is the affine form of this point.
    spec fn is_affine_form(&self, a: Self::AffineRepr) -> bool;

    /// The affine forms of a batch of points.
    fn batch_normalize(points: &Vec<Self>) -> (r: Vec<Self::AffineRepr>)
        ensures
            r@.len() == points@.len(),
            forall|i: int|
                0 <= i < points@.len() ==> points@[i].is_affine_form(#[trigger] r@[i]),
    ;
}

} // verus!
