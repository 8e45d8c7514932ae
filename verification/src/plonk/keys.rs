//! Keys of a circuit.

use super::channel;
use super::channel::{Channel, Step};
use super::{ConstraintSystem, Error};
use crate::field::Field;
use crate::poly::{Coeff, EvaluationDomain, LagrangeCoeff, Polynomial};
use crate::rng::RandomSource;
use crate::transcript::TranscriptWrite;
use vstd::prelude::*;

verus! {

/// This is a verifying key which allows for the verification of proofs for a
/// particular circuit.
pub struct VerifyingKey<F> {
    /// The domain that the columns are laid out on.
    pub domain: EvaluationDomain<F>,
    /// The columns, queries and challenges of the circuit.
    pub cs: ConstraintSystem,
    /// The scalar that stands for this key in transcripts.
    pub transcript_repr: F,
}

impl<F: Field> VerifyingKey<F> {
    /// Hashes a verification key into a transcript.
    pub fn hash_into<P, T, R>(&self, channel: &mut Channel<F, P, T, R>) -> (r: Result<(), Error>) where
        T: TranscriptWrite<F, P>,
        R: RandomSource<F>,

        ensures
            channel::recorded(
                old(channel).trace(),
                final(channel).trace(),
                Step::CommonScalar(self.transcript_repr),
                r,
            ),
            r is Ok ==> old(channel).goes_on(final(channel), channel::plainly()),
            r matches Err(e) ==> e is Transcript && old(channel).breaks_off(
                final(channel),
                channel::plainly(),
                e,
            ),
    {
        channel.common_scalar(self.transcript_repr)
    }
}

/// This is a proving key which allows for the creation of proofs for a
/// particular circuit.
pub struct ProvingKey<F> {
    /// The verifying key of the circuit.
    pub vk: VerifyingKey<F>,
    /// The values of the fixed columns.
    pub fixed_values: Vec<Polynomial<F, LagrangeCoeff>>,
    /// The coefficients of the fixed columns.
    pub fixed_polys: Vec<Polynomial<F, Coeff>>,
}

impl<F: Field> ProvingKey<F> {
    /// The domain has as many points as the parameters of the commitment
    /// scheme allow for, of which some are left when every column has been
    /// blinded, and all that the circuit refers to is there.
    pub open spec fn wf(&self, n: usize) -> bool {
        &&& self.vk.domain.wf()
        &&& self.vk.domain.n == n
        &&& self.vk.cs.wf()
        &&& self.vk.cs.blinding_factors < n
        &&& self.fixed_polys@.len() == self.vk.cs.num_fixed_columns
    }

    /// The row at which those rows start that blind the columns.
    pub open spec fn unusable_rows_start(&self) -> int {
        self.vk.domain.n - (self.vk.cs.blinding_factors + 1)
    }
}

} // verus!
