//! What a prover needs of a Fiat-Shamir transcript.

use vstd::prelude::*;

verus! {

/// A transcript could not take in a value. The number is the transcript's own,
/// by which it can tell what went wrong.
#[derive(Clone, Copy, Debug, PartialEq, Eq, Structural)]
pub struct TranscriptError(pub u64);

/// What can be entered in a transcript.
pub enum Entry<F, P> {
    /// A point that is absorbed.
    CommonPoint(P),
    /// A scalar that is absorbed.
    CommonScalar(F),
    /// A point that is absorbed and written to the proof.
    WrittenPoint(P),
    /// A scalar that is absorbed and written to the proof.
    WrittenScalar(F),
}

/// In what way an operation failed, if at all.
pub open spec fn failure_of<X, E>(outcome: Result<X, E>) -> Option<E> {
    match outcome {
        Ok(_) => None,
        Err(e) => Some(e),
    }
}

/// The transcript of a non-interactive argument, from the perspective of the
/// prover. Scalars are of type `F` and points of type `P`.
pub trait TranscriptWrite<F, P>: Sized {
    /// Squeezing this challenge can take the transcript from this state to a
    /// later one. By default it can do anything.
    open spec fn squeezes(&self, later: &Self, challenge: F) -> bool {
        true
    }

    /// Entering a value can take the transcript from this state to a later one,
    /// and fail in this way, if at all. By default it can do anything.
    open spec fn enters(
        &self,
        later: &Self,
        entry: Entry<F, P>,
        failure: Option<TranscriptError>,
    ) -> bool {
        true
    }

    /// Squeezes a challenge out of all that has been absorbed so far.
    fn squeeze_challenge_scalar(&mut self) -> (r: F)
        ensures
            old(self).squeezes(final(self), r),
    ;

    /// Absorbs a point that the verifier knows.
    fn common_point(&mut self, point: P) -> (r: Result<(), TranscriptError>)
        ensures
            old(self).enters(final(self), Entry::CommonPoint(point), failure_of(r)),
    ;

    /// Absorbs a scalar that the verifier knows.
    fn common_scalar(&mut self, scalar: F) -> (r: Result<(), TranscriptError>)
        ensures
            old(self).enters(final(self), Entry::CommonScalar(scalar), failure_of(r)),
    ;

    /// Absorbs a point and writes it to the proof.
    fn write_point(&mut self, point: P) -> (r: Result<(), TranscriptError>)
        ensures
            old(self).enters(final(self), Entry::WrittenPoint(point), failure_of(r)),
    ;

    /// Absorbs a scalar and writes it to the proof.
    fn write_scalar(&mut self, scalar: F) -> (r: Result<(), TranscriptError>)
        ensures
            old(self).enters(final(self), Entry::WrittenScalar(scalar), failure_of(r)),
    ;
}

} // verus!
