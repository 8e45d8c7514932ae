//! Errors of proof generation.

use crate::transcript::TranscriptError;
use vstd::prelude::*;

verus! {

/// This is an error that could occur during proving or circuit synthesis.
#[derive(Clone, Copy, Debug, PartialEq, Eq, Structural)]
pub enum Error {
    /// This is an error that can occur during synthesis of the circuit, for
    /// example, when the witness is not present.
    Synthesis,
    /// The provided instances do not match the circuit parameters.
    InvalidInstances,
    /// The constraint system is not satisfied.
    ConstraintSystemFailure,
    /// Out of bounds index passed to a backend
    BoundsFailure,
    /// The transcript could not take in a value, for the reason that it gives.
    Transcript(TranscriptError),
    /// `k` is too small for the given circuit.
    NotEnoughRowsAvailable {
        /// The current value of `k` being used.
        current_k: u32,
    },
}

} // verus!
