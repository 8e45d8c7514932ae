//! What a prover does to the world around it: the transcript that it writes,
//! the randomness that it draws, and the arguments that it runs over them.
//!
//! All of it goes through a [`Channel`], which keeps a ghost record of every
//! step and of the states that it led through, so that contracts can say what
//! was done, with which values and in which order.

use super::Error;
use crate::poly::commitment;
use crate::poly::commitment::{Prover, ProverQuery, Query};
use crate::poly::{Coeff, ExtendedLagrangeCoeff, LagrangeCoeff, Polynomial};
use crate::rng::RandomSource;
use crate::transcript;
use crate::transcript::{Entry, TranscriptError, TranscriptWrite};
use vstd::prelude::*;

verus! {

/// Which argument of a proof a value belongs to.
pub struct Slot {
    /// The index of the circuit.
    pub circuit: int,
    /// The index of the lookup argument among those of the circuit, or zero
    /// for the permutation argument.
    pub lookup: int,
}

/// One step of a prover, with the values that went in and, where they decide
/// what follows, those that came out.
pub enum Step<F, P> {
    /// A challenge was squeezed from the transcript.
    Squeeze(F),
    /// A scalar was absorbed.
    CommonScalar(F),
    /// A point was absorbed.
    CommonPoint(P),
    /// A scalar was absorbed and written to the proof.
    WriteScalar(F),
    /// A point was absorbed and written to the proof.
    WritePoint(P),
    /// A field element was drawn at random.
    Random(F),
    /// The permuted input and table of a lookup argument were committed to.
    LookupPermuted {
        slot: Slot,
        theta: F,
        advice: Seq<Seq<F>>,
        fixed: Seq<Seq<F>>,
        instance: Seq<Seq<F>>,
        challenges: Seq<F>,
    },
    /// The products of a permutation argument were committed to.
    PermutationCommitted {
        slot: Slot,
        advice: Seq<Seq<F>>,
        fixed: Seq<Seq<F>>,
        instance: Seq<Seq<F>>,
        beta: F,
        gamma: F,
    },
    /// The product of a lookup argument was committed to.
    LookupCommitted { slot: Slot, beta: F, gamma: F },
    /// The random polynomial of the vanishing argument was committed to.
    VanishingCommitted,
    /// The quotient polynomial was computed.
    Quotient {
        advice_polys: Seq<Seq<Seq<F>>>,
        instance_polys: Seq<Seq<Seq<F>>>,
        challenges: Seq<F>,
        y: F,
        beta: F,
        gamma: F,
        theta: F,
        lookups: Seq<Seq<Slot>>,
        permutations: Seq<Slot>,
        h: Seq<F>,
    },
    /// The pieces of the quotient polynomial were committed to.
    VanishingConstructed { h: Seq<F> },
    /// The vanishing argument was evaluated.
    VanishingEvaluated { x: F, xn: F },
    /// The polynomials that all permutation arguments share were evaluated.
    CommonPermutationEvaluated { x: F },
    /// A permutation argument was evaluated.
    PermutationEvaluated { slot: Slot, x: F },
    /// A lookup argument was evaluated.
    LookupEvaluated { slot: Slot, x: F },
    /// The queries of a permutation argument were listed.
    PermutationOpened { slot: Slot, x: F, queries: Seq<Query<F>> },
    /// The queries of a lookup argument were listed.
    LookupOpened { slot: Slot, x: F, queries: Seq<Query<F>> },
    /// The queries of the polynomials that all permutation arguments share
    /// were listed.
    CommonPermutationOpened { x: F, queries: Seq<Query<F>> },
    /// The queries of the vanishing argument were listed.
    VanishingOpened { x: F, queries: Seq<Query<F>> },
    /// The queried polynomials were opened.
    MultiOpen { queries: Seq<Query<F>> },
    /// A step was attempted and could not be taken.
    Failed {
        attempt: Box<Step<F, P>>,
        failure: Failure,
    },
}

/// An argument could not be run to its end.
#[derive(Clone, Copy, Debug, PartialEq, Eq, Structural)]
pub enum ArgumentError {
    /// The transcript could not take in a value, for the reason that it gives.
    Transcript(TranscriptError),
    /// The constraint system is not satisfied.
    ConstraintSystemFailure,
}

/// Why a step could not be taken.
pub enum Failure {
    /// The transcript could not take in a value.
    Transcript(TranscriptError),
    /// An argument could not be run to its end.
    Argument(ArgumentError),
    /// The queried polynomials could not be opened.
    Opening,
}

/// The error of the prover that a failure amounts to.
pub open spec fn error_of(failure: Failure) -> Error {
    match failure {
        Failure::Transcript(e) => Error::Transcript(e),
        Failure::Argument(ArgumentError::Transcript(e)) => Error::Transcript(e),
        Failure::Argument(ArgumentError::ConstraintSystemFailure) => Error::ConstraintSystemFailure,
        Failure::Opening => Error::ConstraintSystemFailure,
    }
}

fn argument_error(e: ArgumentError) -> (r: Error)
    ensures
        r == error_of(Failure::Argument(e)),
{
    match e {
        ArgumentError::Transcript(e) => Error::Transcript(e),
        ArgumentError::ConstraintSystemFailure => Error::ConstraintSystemFailure,
    }
}

/// The values of polynomials.
pub open spec fn values_of<F, B>(polys: Seq<Polynomial<F, B>>) -> Seq<Seq<F>> {
    polys.map_values(|p: Polynomial<F, B>| p@)
}

/// The values of lists of polynomials.
pub open spec fn all_values_of<F, B>(polys: Seq<&[Polynomial<F, B>]>) -> Seq<Seq<Seq<F>>> {
    polys.map_values(|p: &[Polynomial<F, B>]| values_of(p@))
}

/// Polynomials, and lists of them, are told by their values, in their order.
pub proof fn lemma_values_of<F, B>(polys: Seq<&[Polynomial<F, B>]>, i: int, c: int)
    requires
        0 <= i < polys.len(),
        0 <= c < polys[i]@.len(),
    ensures
        all_values_of(polys).len() == polys.len(),
        all_values_of(polys)[i].len() == polys[i]@.len(),
        all_values_of(polys)[i] == values_of(polys[i]@),
        all_values_of(polys)[i][c] == polys[i]@[c]@,
{
}

/// A value that an argument has come to, tied to the argument that it belongs
/// to. Only a [`Channel`] makes one.
pub struct Stage<X> {
    value: X,
    slot: Ghost<Slot>,
}

impl<X> Stage<X> {
    /// The argument that the value belongs to.
    pub closed spec fn slot(&self) -> Slot {
        self.slot@
    }

    /// The value.
    pub closed spec fn spec_value(&self) -> X {
        self.value
    }

    /// The value.
    pub fn value(&self) -> (r: &X)
        ensures
            *r == self.spec_value(),
    {
        &self.value
    }
}

/// The arguments that the values belong to.
pub open spec fn slots_of<X>(stages: Seq<Stage<X>>) -> Seq<Slot> {
    stages.map_values(|s: Stage<X>| s.slot())
}

/// The values.
pub open spec fn stage_values<X>(stages: Seq<Stage<X>>) -> Seq<X> {
    stages.map_values(|s: Stage<X>| s.spec_value())
}

/// The lists of values.
pub open spec fn all_stage_values<X>(stages: Seq<Vec<Stage<X>>>) -> Seq<Seq<X>> {
    stages.map_values(|s: Vec<Stage<X>>| stage_values(s@))
}

/// The arguments that lists of values belong to.
pub open spec fn all_slots_of<X>(stages: Seq<Vec<Stage<X>>>) -> Seq<Seq<Slot>> {
    stages.map_values(|s: Vec<Stage<X>>| slots_of(s@))
}

/// What arguments have come to, and which they are, stands in the order of the lists.
pub proof fn lemma_stages<X>(stages: Seq<Vec<Stage<X>>>, i: int, j: int)
    requires
        0 <= i < stages.len(),
        0 <= j < stages[i]@.len(),
    ensures
        all_stage_values(stages).len() == stages.len(),
        all_stage_values(stages)[i].len() == stages[i]@.len(),
        all_stage_values(stages)[i] == stage_values(stages[i]@),
        all_stage_values(stages)[i][j] == stages[i]@[j].spec_value(),
        all_slots_of(stages).len() == stages.len(),
        all_slots_of(stages)[i].len() == stages[i]@.len(),
        all_slots_of(stages)[i] == slots_of(stages[i]@),
        all_slots_of(stages)[i][j] == stages[i]@[j].slot(),
{
}

/// The lookup, permutation and vanishing arguments of a circuit, over
/// transcripts `T` and randomness `R`.
///
/// Each operation comes with a relation, which says what it can do. By default
/// it can do anything.
pub trait Arguments<F, T, R> {
    /// A lookup argument whose permuted columns have been committed to.
    type LookupPermuted;

    /// A lookup argument whose product has been committed to.
    type LookupCommitted;

    /// A lookup argument that has been evaluated.
    type LookupEvaluated;

    /// A permutation argument whose products have been committed to.
    type PermutationCommitted;

    /// A permutation argument that has been evaluated.
    type PermutationEvaluated;

    /// A vanishing argument whose random polynomial has been committed to.
    type VanishingCommitted;

    /// A vanishing argument whose quotient has been committed to.
    type VanishingConstructed;

    /// A vanishing argument that has been evaluated.
    type VanishingEvaluated;

    /// Committing to the permuted columns of this lookup can take randomness
    /// and transcript from `before` to `after`, with this outcome.
    open spec fn permutes_lookup(
        &self,
        lookup: int,
        theta: F,
        advice: Seq<Seq<F>>,
        fixed: Seq<Seq<F>>,
        instance: Seq<Seq<F>>,
        challenges: Seq<F>,
        before: (R, T),
        after: (R, T),
        outcome: Result<Self::LookupPermuted, ArgumentError>,
    ) -> bool {
        true
    }

    /// Commits to the permuted input and table of the lookup with this index.
    fn lookup_commit_permuted(
        &self,
        lookup: usize,
        theta: F,
        advice: &Vec<Polynomial<F, LagrangeCoeff>>,
        fixed: &Vec<Polynomial<F, LagrangeCoeff>>,
        instance: &Vec<Polynomial<F, LagrangeCoeff>>,
        challenges: &Vec<F>,
        rng: &mut R,
        transcript: &mut T,
    ) -> (r: Result<Self::LookupPermuted, ArgumentError>)
        ensures
            self.permutes_lookup(
                lookup as int,
                theta,
                values_of(advice@),
                values_of(fixed@),
                values_of(instance@),
                challenges@,
                (*old(rng), *old(transcript)),
                (*final(rng), *final(transcript)),
                r,
            ),
    ;

    /// Committing to the products of the permutation argument can take
    /// randomness and transcript from `before` to `after`, with this outcome.
    open spec fn commits_permutation(
        &self,
        advice: Seq<Seq<F>>,
        fixed: Seq<Seq<F>>,
        instance: Seq<Seq<F>>,
        beta: F,
        gamma: F,
        before: (R, T),
        after: (R, T),
        outcome: Result<Self::PermutationCommitted, ArgumentError>,
    ) -> bool {
        true
    }

    /// Commits to the products of the permutation argument.
    fn permutation_commit(
        &self,
        advice: &Vec<Polynomial<F, LagrangeCoeff>>,
        fixed: &Vec<Polynomial<F, LagrangeCoeff>>,
        instance: &Vec<Polynomial<F, LagrangeCoeff>>,
        beta: F,
        gamma: F,
        rng: &mut R,
        transcript: &mut T,
    ) -> (r: Result<Self::PermutationCommitted, ArgumentError>)
        ensures
            self.commits_permutation(
                values_of(advice@),
                values_of(fixed@),
                values_of(instance@),
                beta,
                gamma,
                (*old(rng), *old(transcript)),
                (*final(rng), *final(transcript)),
                r,
            ),
    ;

    /// Committing to the product of this lookup argument can take randomness
    /// and transcript from `before` to `after`, with this outcome.
    open spec fn commits_product(
        &self,
        permuted: Self::LookupPermuted,
        beta: F,
        gamma: F,
        before: (R, T),
        after: (R, T),
        outcome: Result<Self::LookupCommitted, ArgumentError>,
    ) -> bool {
        true
    }

    /// Commits to the product of a lookup argument.
    fn lookup_commit_product(
        &self,
        permuted: Self::LookupPermuted,
        beta: F,
        gamma: F,
        rng: &mut R,
        transcript: &mut T,
    ) -> (r: Result<Self::LookupCommitted, ArgumentError>)
        ensures
            self.commits_product(
                permuted,
                beta,
                gamma,
                (*old(rng), *old(transcript)),
                (*final(rng), *final(transcript)),
                r,
            ),
    ;

    /// Committing to the random polynomial can take randomness and transcript
    /// from `before` to `after`, with this outcome.
    open spec fn commits_vanishing(
        &self,
        before: (R, T),
        after: (R, T),
        outcome: Result<Self::VanishingCommitted, ArgumentError>,
    ) -> bool {
        true
    }

    /// Commits to the random polynomial that blinds the quotient.
    fn vanishing_commit(
        &self,
        rng: &mut R,
        transcript: &mut T,
    ) -> (r: Result<Self::VanishingCommitted, ArgumentError>)
        ensures
            self.commits_vanishing(
                (*old(rng), *old(transcript)),
                (*final(rng), *final(transcript)),
                r,
            ),
    ;

    /// The quotient polynomial of these columns can be `h`.
    open spec fn evaluates_h(
        &self,
        advice: Seq<Seq<Seq<F>>>,
        instance: Seq<Seq<Seq<F>>>,
        challenges: Seq<F>,
        y: F,
        beta: F,
        gamma: F,
        theta: F,
        lookups: Seq<Seq<Self::LookupCommitted>>,
        permutations: Seq<Self::PermutationCommitted>,
        h: Seq<F>,
    ) -> bool {
        true
    }

    /// Computes the quotient polynomial.
    fn evaluate_h(
        &self,
        advice: &Vec<&[Polynomial<F, Coeff>]>,
        instance: &Vec<&[Polynomial<F, Coeff>]>,
        challenges: &Vec<F>,
        y: F,
        beta: F,
        gamma: F,
        theta: F,
        lookups: &Vec<Vec<Stage<Self::LookupCommitted>>>,
        permutations: &Vec<Stage<Self::PermutationCommitted>>,
    ) -> (h: Polynomial<F, ExtendedLagrangeCoeff>)
        ensures
            self.evaluates_h(
                all_values_of(advice@),
                all_values_of(instance@),
                challenges@,
                y,
                beta,
                gamma,
                theta,
                all_stage_values(lookups@),
                stage_values(permutations@),
                h@,
            ),
    ;

    /// Committing to the pieces of this quotient can take randomness and
    /// transcript from `before` to `after`, with this outcome.
    open spec fn constructs_vanishing(
        &self,
        committed: Self::VanishingCommitted,
        h: Seq<F>,
        before: (R, T),
        after: (R, T),
        outcome: Result<Self::VanishingConstructed, ArgumentError>,
    ) -> bool {
        true
    }

    /// Commits to the pieces of the quotient polynomial.
    fn vanishing_construct(
        &self,
        committed: Self::VanishingCommitted,
        h: Polynomial<F, ExtendedLagrangeCoeff>,
        rng: &mut R,
        transcript: &mut T,
    ) -> (r: Result<Self::VanishingConstructed, ArgumentError>)
        ensures
            self.constructs_vanishing(
                committed,
                h@,
                (*old(rng), *old(transcript)),
                (*final(rng), *final(transcript)),
                r,
            ),
    ;

    /// Evaluating the vanishing argument can take transcript from `before` to
    /// `after`, with this outcome.
    open spec fn evaluates_vanishing(
        &self,
        constructed: Self::VanishingConstructed,
        x: F,
        xn: F,
        before: T,
        after: T,
        outcome: Result<Self::VanishingEvaluated, ArgumentError>,
    ) -> bool {
        true
    }

    /// Evaluates the vanishing argument at `x`, whose `n`-th power is `xn`.
    fn vanishing_evaluate(
        &self,
        constructed: Self::VanishingConstructed,
        x: F,
        xn: F,
        transcript: &mut T,
    ) -> (r: Result<Self::VanishingEvaluated, ArgumentError>)
        ensures
            self.evaluates_vanishing(
                constructed,
                x,
                xn,
                *old(transcript),
                *final(transcript),
                r,
            ),
    ;

    /// Evaluating what all permutation arguments share can take transcript from
    /// `before` to `after`, with this outcome.
    open spec fn evaluates_common(
        &self,
        x: F,
        before: T,
        after: T,
        outcome: Result<(), ArgumentError>,
    ) -> bool {
        true
    }

    /// Evaluates the polynomials that all permutation arguments share.
    fn permutation_evaluate_common(
        &self,
        x: F,
        transcript: &mut T,
    ) -> (r: Result<(), ArgumentError>)
        ensures
            self.evaluates_common(
                x,
                *old(transcript),
                *final(transcript),
                r,
            ),
    ;

    /// Evaluating this permutation argument can take transcript from `before`
    /// to `after`, with this outcome.
    open spec fn evaluates_permutation(
        &self,
        committed: Self::PermutationCommitted,
        x: F,
        before: T,
        after: T,
        outcome: Result<Self::PermutationEvaluated, ArgumentError>,
    ) -> bool {
        true
    }

    /// Evaluates a permutation argument.
    fn permutation_evaluate(
        &self,
        committed: Self::PermutationCommitted,
        x: F,
        transcript: &mut T,
    ) -> (r: Result<Self::PermutationEvaluated, ArgumentError>)
        ensures
            self.evaluates_permutation(
                committed,
                x,
                *old(transcript),
                *final(transcript),
                r,
            ),
    ;

    /// Evaluating this lookup argument can take transcript from `before` to
    /// `after`, with this outcome.
    open spec fn evaluates_lookup(
        &self,
        committed: Self::LookupCommitted,
        x: F,
        before: T,
        after: T,
        outcome: Result<Self::LookupEvaluated, ArgumentError>,
    ) -> bool {
        true
    }

    /// Evaluates a lookup argument.
    fn lookup_evaluate(
        &self,
        committed: Self::LookupCommitted,
        x: F,
        transcript: &mut T,
    ) -> (r: Result<Self::LookupEvaluated, ArgumentError>)
        ensures
            self.evaluates_lookup(
                committed,
                x,
                *old(transcript),
                *final(transcript),
                r,
            ),
    ;

    /// The queries of this permutation argument at `x` can be these.
    open spec fn opens_permutation(
        &self,
        evaluated: Self::PermutationEvaluated,
        x: F,
        queries: Seq<Query<F>>,
    ) -> bool {
        true
    }

    /// The queries of a permutation argument.
    fn permutation_open<'a>(&'a self, evaluated: &'a Self::PermutationEvaluated, x: F) -> (r: Vec<
        ProverQuery<'a, F>,
    >)
        ensures
            self.opens_permutation(*evaluated, x, commitment::queries_of(r@)),
    ;

    /// The queries of this lookup argument at `x` can be these.
    open spec fn opens_lookup(
        &self,
        evaluated: Self::LookupEvaluated,
        x: F,
        queries: Seq<Query<F>>,
    ) -> bool {
        true
    }

    /// The queries of a lookup argument.
    fn lookup_open<'a>(&'a self, evaluated: &'a Self::LookupEvaluated, x: F) -> (r: Vec<
        ProverQuery<'a, F>,
    >)
        ensures
            self.opens_lookup(*evaluated, x, commitment::queries_of(r@)),
    ;

    /// The queries of what all permutation arguments share at `x` can be these.
    open spec fn opens_common(&self, x: F, queries: Seq<Query<F>>) -> bool {
        true
    }

    /// The queries of the polynomials that all permutation arguments share.
    fn permutation_open_common<'a>(&'a self, x: F) -> (r: Vec<
        ProverQuery<'a, F>,
    >)
        ensures
            self.opens_common(x, commitment::queries_of(r@)),
    ;

    /// The queries of the vanishing argument at `x` can be these.
    open spec fn opens_vanishing(
        &self,
        evaluated: Self::VanishingEvaluated,
        x: F,
        queries: Seq<Query<F>>,
    ) -> bool {
        true
    }

    /// The queries of the vanishing argument.
    fn vanishing_open<'a>(&'a self, evaluated: &'a Self::VanishingEvaluated, x: F) -> (r: Vec<
        ProverQuery<'a, F>,
    >)
        ensures
            self.opens_vanishing(*evaluated, x, commitment::queries_of(r@)),
    ;
}

/// How a step can take randomness and transcript from one state to the next.
pub type Taking<F, P, T, R> = spec_fn(Step<F, P>, (R, T), (R, T)) -> bool;

/// What a step enters in the transcript, if it does nothing else.
pub open spec fn entry_of<F, P>(step: Step<F, P>) -> Option<Entry<F, P>> {
    match step {
        Step::CommonScalar(scalar) => Some(Entry::CommonScalar(scalar)),
        Step::CommonPoint(point) => Some(Entry::CommonPoint(point)),
        Step::WriteScalar(scalar) => Some(Entry::WrittenScalar(scalar)),
        Step::WritePoint(point) => Some(Entry::WrittenPoint(point)),
        _ => None,
    }
}

/// A step on the transcript or the randomness was taken, or was attempted on the
/// transcript and failed.
pub open spec fn is_plain<F, P, T: TranscriptWrite<F, P>, R: RandomSource<F>>(
    step: Step<F, P>,
    before: (R, T),
    after: (R, T),
) -> bool {
    match step {
        Step::Squeeze(challenge) => after.0 == before.0 && before.1.squeezes(&after.1, challenge),
        Step::Random(value) => after.1 == before.1 && before.0.draws(&after.0, value),
        Step::Failed { attempt, failure: Failure::Transcript(e) } => {
            &&& entry_of(*attempt) is Some
            &&& after.0 == before.0
            &&& before.1.enters(&after.1, entry_of(*attempt)->0, Some(e))
        },
        _ => {
            &&& entry_of(step) is Some
            &&& after.0 == before.0
            &&& before.1.enters(&after.1, entry_of(step)->0, None)
        },
    }
}

/// This can be done, and fail in this way, if at all: see [`Arguments::permutes_lookup`].
pub open spec fn may_permute_lookup<F, T, R, A: Arguments<F, T, R>>(
    arguments: &A,
    lookup: int,
    theta: F,
    advice: Seq<Seq<F>>,
    fixed: Seq<Seq<F>>,
    instance: Seq<Seq<F>>,
    challenges: Seq<F>,
    before: (R, T),
    after: (R, T),
    failure: Option<ArgumentError>,
) -> bool {
    exists|r: Result<A::LookupPermuted, ArgumentError>|
        {
            &&& #[trigger] arguments.permutes_lookup(
                lookup,
                theta,
                advice,
                fixed,
                instance,
                challenges,
                before,
                after,
                r,
            )
            &&& transcript::failure_of(r) == failure
        }
}

/// This can be done, and fail in this way, if at all: see [`Arguments::commits_permutation`].
pub open spec fn may_commit_permutation<F, T, R, A: Arguments<F, T, R>>(
    arguments: &A,
    advice: Seq<Seq<F>>,
    fixed: Seq<Seq<F>>,
    instance: Seq<Seq<F>>,
    beta: F,
    gamma: F,
    before: (R, T),
    after: (R, T),
    failure: Option<ArgumentError>,
) -> bool {
    exists|r: Result<A::PermutationCommitted, ArgumentError>|
        {
            &&& #[trigger] arguments.commits_permutation(
                advice,
                fixed,
                instance,
                beta,
                gamma,
                before,
                after,
                r,
            )
            &&& transcript::failure_of(r) == failure
        }
}

/// This can be done, and fail in this way, if at all: see [`Arguments::commits_product`].
pub open spec fn may_commit_product<F, T, R, A: Arguments<F, T, R>>(
    arguments: &A,
    beta: F,
    gamma: F,
    before: (R, T),
    after: (R, T),
    failure: Option<ArgumentError>,
) -> bool {
    exists|input: A::LookupPermuted, r: Result<A::LookupCommitted, ArgumentError>|
        {
            &&& #[trigger] arguments.commits_product(
                input,
                beta,
                gamma,
                before,
                after,
                r,
            )
            &&& transcript::failure_of(r) == failure
        }
}

/// This can be done, and fail in this way, if at all: see [`Arguments::commits_vanishing`].
pub open spec fn may_commit_vanishing<F, T, R, A: Arguments<F, T, R>>(
    arguments: &A,
    before: (R, T),
    after: (R, T),
    failure: Option<ArgumentError>,
) -> bool {
    exists|r: Result<A::VanishingCommitted, ArgumentError>|
        {
            &&& #[trigger] arguments.commits_vanishing(
                before,
                after,
                r,
            )
            &&& transcript::failure_of(r) == failure
        }
}

/// This can be done, and fail in this way, if at all: see [`Arguments::constructs_vanishing`].
pub open spec fn may_construct_vanishing<F, T, R, A: Arguments<F, T, R>>(
    arguments: &A,
    h: Seq<F>,
    before: (R, T),
    after: (R, T),
    failure: Option<ArgumentError>,
) -> bool {
    exists|input: A::VanishingCommitted, r: Result<A::VanishingConstructed, ArgumentError>|
        {
            &&& #[trigger] arguments.constructs_vanishing(
                input,
                h,
                before,
                after,
                r,
            )
            &&& transcript::failure_of(r) == failure
        }
}

/// This can be done, and fail in this way, if at all: see [`Arguments::evaluates_vanishing`].
pub open spec fn may_evaluate_vanishing<F, T, R, A: Arguments<F, T, R>>(
    arguments: &A,
    x: F,
    xn: F,
    before: T,
    after: T,
    failure: Option<ArgumentError>,
) -> bool {
    exists|input: A::VanishingConstructed, r: Result<A::VanishingEvaluated, ArgumentError>|
        {
            &&& #[trigger] arguments.evaluates_vanishing(
                input,
                x,
                xn,
                before,
                after,
                r,
            )
            &&& transcript::failure_of(r) == failure
        }
}

/// This can be done, and fail in this way, if at all: see [`Arguments::evaluates_common`].
pub open spec fn may_evaluate_common<F, T, R, A: Arguments<F, T, R>>(
    arguments: &A,
    x: F,
    before: T,
    after: T,
    failure: Option<ArgumentError>,
) -> bool {
    exists|r: Result<(), ArgumentError>|
        {
            &&& #[trigger] arguments.evaluates_common(
                x,
                before,
                after,
                r,
            )
            &&& transcript::failure_of(r) == failure
        }
}

/// This can be done, and fail in this way, if at all: see [`Arguments::evaluates_permutation`].
pub open spec fn may_evaluate_permutation<F, T, R, A: Arguments<F, T, R>>(
    arguments: &A,
    x: F,
    before: T,
    after: T,
    failure: Option<ArgumentError>,
) -> bool {
    exists|input: A::PermutationCommitted, r: Result<A::PermutationEvaluated, ArgumentError>|
        {
            &&& #[trigger] arguments.evaluates_permutation(
                input,
                x,
                before,
                after,
                r,
            )
            &&& transcript::failure_of(r) == failure
        }
}

/// This can be done, and fail in this way, if at all: see [`Arguments::evaluates_lookup`].
pub open spec fn may_evaluate_lookup<F, T, R, A: Arguments<F, T, R>>(
    arguments: &A,
    x: F,
    before: T,
    after: T,
    failure: Option<ArgumentError>,
) -> bool {
    exists|input: A::LookupCommitted, r: Result<A::LookupEvaluated, ArgumentError>|
        {
            &&& #[trigger] arguments.evaluates_lookup(
                input,
                x,
                before,
                after,
                r,
            )
            &&& transcript::failure_of(r) == failure
        }
}

/// This can be the quotient: see [`Arguments::evaluates_h`].
pub open spec fn may_evaluate_h<F, T, R, A: Arguments<F, T, R>>(
    arguments: &A,
    advice: Seq<Seq<Seq<F>>>,
    instance: Seq<Seq<Seq<F>>>,
    challenges: Seq<F>,
    y: F,
    beta: F,
    gamma: F,
    theta: F,
    h: Seq<F>,
) -> bool {
    exists|lookups: Seq<Seq<A::LookupCommitted>>, permutations: Seq<A::PermutationCommitted>|
        #[trigger] arguments.evaluates_h(
            advice,
            instance,
            challenges,
            y,
            beta,
            gamma,
            theta,
            lookups,
            permutations,
            h,
        )
}

/// These can be the queries: see [`Arguments::opens_permutation`].
pub open spec fn may_open_permutation<F, T, R, A: Arguments<F, T, R>>(
    arguments: &A,
    x: F,
    queries: Seq<Query<F>>,
) -> bool {
    exists|evaluated: A::PermutationEvaluated| #[trigger]
        arguments.opens_permutation(evaluated, x, queries)
}

/// These can be the queries: see [`Arguments::opens_lookup`].
pub open spec fn may_open_lookup<F, T, R, A: Arguments<F, T, R>>(
    arguments: &A,
    x: F,
    queries: Seq<Query<F>>,
) -> bool {
    exists|evaluated: A::LookupEvaluated| #[trigger] arguments.opens_lookup(evaluated, x, queries)
}

/// These can be the queries: see [`Arguments::opens_vanishing`].
pub open spec fn may_open_vanishing<F, T, R, A: Arguments<F, T, R>>(
    arguments: &A,
    x: F,
    queries: Seq<Query<F>>,
) -> bool {
    exists|evaluated: A::VanishingEvaluated| #[trigger]
        arguments.opens_vanishing(evaluated, x, queries)
}

/// A step was attempted by an argument, and failed in this way, if at all.
pub open spec fn is_argued<F, P, T, R, A: Arguments<F, T, R>>(
    arguments: &A,
    step: Step<F, P>,
    before: (R, T),
    after: (R, T),
    failure: Option<ArgumentError>,
) -> bool {
    match step {
        Step::LookupPermuted { slot, theta, advice, fixed, instance, challenges } =>
            may_permute_lookup(
            arguments,
            slot.lookup,
            theta,
            advice,
            fixed,
            instance,
            challenges,
            before,
            after,
            failure,
        ),
        Step::PermutationCommitted { advice, fixed, instance, beta, gamma, .. } =>
            may_commit_permutation(
            arguments,
            advice,
            fixed,
            instance,
            beta,
            gamma,
            before,
            after,
            failure,
        ),
        Step::LookupCommitted { beta, gamma, .. } => may_commit_product(
            arguments,
            beta,
            gamma,
            before,
            after,
            failure,
        ),
        Step::VanishingCommitted => may_commit_vanishing(arguments, before, after, failure),
        Step::VanishingConstructed { h } => may_construct_vanishing(
            arguments,
            h,
            before,
            after,
            failure,
        ),
        Step::VanishingEvaluated { x, xn } => after.0 == before.0 && may_evaluate_vanishing(
            arguments,
            x,
            xn,
            before.1,
            after.1,
            failure,
        ),
        Step::CommonPermutationEvaluated { x } => after.0 == before.0 && may_evaluate_common(
            arguments,
            x,
            before.1,
            after.1,
            failure,
        ),
        Step::PermutationEvaluated { x, .. } => after.0 == before.0 && may_evaluate_permutation(
            arguments,
            x,
            before.1,
            after.1,
            failure,
        ),
        Step::LookupEvaluated { x, .. } => after.0 == before.0 && may_evaluate_lookup(
            arguments,
            x,
            before.1,
            after.1,
            failure,
        ),
        Step::Quotient {
            advice_polys,
            instance_polys,
            challenges,
            y,
            beta,
            gamma,
            theta,
            h,
            ..
        } => {
            &&& failure is None
            &&& after == before
            &&& may_evaluate_h(
                arguments,
                advice_polys,
                instance_polys,
                challenges,
                y,
                beta,
                gamma,
                theta,
                h,
            )
        },
        Step::PermutationOpened { x, queries, .. } => {
            &&& failure is None
            &&& after == before
            &&& may_open_permutation(arguments, x, queries)
        },
        Step::LookupOpened { x, queries, .. } => {
            &&& failure is None
            &&& after == before
            &&& may_open_lookup(arguments, x, queries)
        },
        Step::CommonPermutationOpened { x, queries } => {
            &&& failure is None
            &&& after == before
            &&& arguments.opens_common(x, queries)
        },
        Step::VanishingOpened { x, queries } => {
            &&& failure is None
            &&& after == before
            &&& may_open_vanishing(arguments, x, queries)
        },
        _ => false,
    }
}

/// How steps are taken on the transcript and the randomness alone.
pub open spec fn plainly<F, P, T: TranscriptWrite<F, P>, R: RandomSource<F>>() -> Taking<
    F,
    P,
    T,
    R,
> {
    |step: Step<F, P>, before: (R, T), after: (R, T)| is_plain(step, before, after)
}

/// How steps are taken, or fail, with the help of arguments, whatever values these
/// come to on the way.
pub open spec fn with_arguments<
    F,
    P,
    T: TranscriptWrite<F, P>,
    R: RandomSource<F>,
    A: Arguments<F, T, R>,
>(arguments: &A) -> Taking<F, P, T, R> {
    |step: Step<F, P>, before: (R, T), after: (R, T)|
        {
            ||| is_plain(step, before, after)
            ||| is_argued(arguments, step, before, after, None)
            ||| {
                &&& step matches Step::Failed { attempt, failure: Failure::Argument(e) }
                &&& is_argued(arguments, *attempt, before, after, Some(e))
            }
        }
}

/// Opening these polynomials can succeed or fail: see [`Prover::opens`].
pub open spec fn may_open<F, T, R, O: Prover<F, T, R>>(
    prover: &O,
    queries: Seq<Query<F>>,
    before: (R, T),
    after: (R, T),
    success: bool,
) -> bool {
    exists|r: Result<(), crate::poly::Error>|
        {
            &&& #[trigger] prover.opens(queries, before, after, r)
            &&& r is Ok <==> success
        }
}

/// A step opened polynomials, or attempted to.
pub open spec fn is_opened<F, P, T, R, O: Prover<F, T, R>>(
    prover: &O,
    step: Step<F, P>,
    before: (R, T),
    after: (R, T),
) -> bool {
    match step {
        Step::MultiOpen { queries } => may_open(prover, queries, before, after, true),
        Step::Failed { attempt, failure: Failure::Opening } => match *attempt {
            Step::MultiOpen { queries } => may_open(prover, queries, before, after, false),
            _ => false,
        },
        _ => false,
    }
}

/// How steps are taken, or fail, with the help of arguments and an opening
/// argument.
pub open spec fn with_prover<
    F,
    P,
    T: TranscriptWrite<F, P>,
    R: RandomSource<F>,
    A: Arguments<F, T, R>,
    O: Prover<F, T, R>,
>(arguments: &A, prover: &O) -> Taking<F, P, T, R> {
    |step: Step<F, P>, before: (R, T), after: (R, T)|
        {
            ||| with_arguments::<F, P, T, R, A>(arguments)(step, before, after)
            ||| is_opened(prover, step, before, after)
        }
}

/// The run was stopped in the course of these steps: the steps up to one of
/// them were added to `before`, and then that the next one failed.
pub open spec fn stops_in<F, P>(
    before: Seq<Step<F, P>>,
    steps: Seq<Step<F, P>>,
    after: Seq<Step<F, P>>,
) -> bool {
    let taken = after.len() - before.len() - 1;
    &&& 0 <= taken < steps.len()
    &&& after.drop_last() == before + steps.take(taken)
    &&& after.last() matches Step::Failed { attempt, .. } && *attempt == steps[taken]
}

/// The run was stopped at the last of these steps.
pub open spec fn fails_last<F, P>(
    before: Seq<Step<F, P>>,
    steps: Seq<Step<F, P>>,
    after: Seq<Step<F, P>>,
) -> bool {
    &&& stops_in(before, steps, after)
    &&& after.len() == before.len() + steps.len()
}

/// What a fallible operation leaves behind: it has added `step` to the steps
/// `before`, or that it failed.
pub open spec fn recorded<F, P, X>(
    before: Seq<Step<F, P>>,
    after: Seq<Step<F, P>>,
    step: Step<F, P>,
    r: Result<X, Error>,
) -> bool {
    match r {
        Ok(_) => after == before.push(step),
        Err(_) => stops_in(before, seq![step], after),
    }
}

/// A transcript and a source of randomness, with the steps that were taken on
/// them.
pub struct Channel<F, P, T, R> {
    transcript: T,
    rng: R,
    log: Ghost<Seq<(Step<F, P>, (R, T))>>,
}

impl<F, P, T, R> Channel<F, P, T, R> {
    /// The steps that have been taken, in order.
    pub closed spec fn trace(&self) -> Seq<Step<F, P>> {
        self.log@.map_values(|entry: (Step<F, P>, (R, T))| entry.0)
    }

    /// The randomness and the transcript as they were before a step, or as they
    /// are after the last one.
    pub closed spec fn state(&self, k: int) -> (R, T) {
        if 0 <= k < self.log@.len() {
            self.log@[k].1
        } else {
            (self.rng, self.transcript)
        }
    }

    /// The randomness and the transcript as they are.
    pub open spec fn now(&self) -> (R, T) {
        self.state(self.trace().len() as int)
    }

    /// What was done before is the same in a later channel.
    pub open spec fn precedes(&self, later: &Self) -> bool {
        let count = self.trace().len() as int;
        &&& count <= later.trace().len()
        &&& forall|k: int| 0 <= k < count ==> #[trigger] later.trace()[k] == self.trace()[k]
        &&& forall|k: int| 0 <= k <= count ==> #[trigger] later.state(k) == self.state(k)
    }

    /// Steps were taken and none of them failed.
    #[verifier::opaque]
    pub open spec fn goes_on(&self, later: &Self, how: Taking<F, P, T, R>) -> bool {
        &&& self.precedes(later)
        &&& forall|k: int|
            self.trace().len() <= k < later.trace().len() ==> {
                &&& !((#[trigger] later.trace()[k]) is Failed)
                &&& how(later.trace()[k], later.state(k), later.state(k + 1))
            }
    }

    /// Steps were taken until one failed, for a reason that amounts to the
    /// error `e`.
    #[verifier::opaque]
    pub open spec fn breaks_off(
        &self,
        later: &Self,
        how: Taking<F, P, T, R>,
        e: Error,
    ) -> bool {
        let last = later.trace().len() - 1;
        &&& self.precedes(later)
        &&& self.trace().len() <= last
        &&& forall|k: int|
            self.trace().len() <= k <= last ==> {
                &&& (#[trigger] later.trace()[k]) is Failed <==> k == last
                &&& how(later.trace()[k], later.state(k), later.state(k + 1))
            }
        &&& later.trace()[last] matches Step::Failed { failure, .. } && e == error_of(failure)
    }

    /// A channel has gone on to itself.
    pub broadcast proof fn lemma_stays(&self, how: Taking<F, P, T, R>)
        ensures
            #[trigger] self.goes_on(self, how),
    {
        reveal(Channel::goes_on);
    }

    /// Going on twice is going on.
    pub broadcast proof fn lemma_goes_on(&self, b: &Self, c: &Self, how: Taking<F, P, T, R>)
        requires
            #[trigger] self.goes_on(b, how),
            #[trigger] b.goes_on(c, how),
        ensures
            self.goes_on(c, how),
    {
        reveal(Channel::goes_on);
        assert forall|k: int| self.trace().len() <= k < c.trace().len() implies {
            &&& !((#[trigger] c.trace()[k]) is Failed)
            &&& how(c.trace()[k], c.state(k), c.state(k + 1))
        } by {
            if k < b.trace().len() {
                assert(c.trace()[k] == b.trace()[k]);
                assert(c.state(k) == b.state(k) && c.state(k + 1) == b.state(k + 1));
            }
        }
        assert forall|k: int| 0 <= k < self.trace().len() implies #[trigger] c.trace()[k]
            == self.trace()[k] by {
            assert(b.trace()[k] == self.trace()[k]);
        }
        assert forall|k: int| 0 <= k <= self.trace().len() implies #[trigger] c.state(k)
            == self.state(k) by {
            assert(b.state(k) == self.state(k));
        }
    }

    /// Breaking off after going on is breaking off.
    pub broadcast proof fn lemma_breaks_off(
        &self,
        b: &Self,
        c: &Self,
        how: Taking<F, P, T, R>,
        e: Error,
    )
        requires
            #[trigger] self.goes_on(b, how),
            #[trigger] b.breaks_off(c, how, e),
        ensures
            self.breaks_off(c, how, e),
    {
        reveal(Channel::goes_on);
        reveal(Channel::breaks_off);
        let last = c.trace().len() - 1;
        assert forall|k: int| self.trace().len() <= k <= last implies {
            &&& (#[trigger] c.trace()[k]) is Failed <==> k == last
            &&& how(c.trace()[k], c.state(k), c.state(k + 1))
        } by {
            if k < b.trace().len() {
                assert(c.trace()[k] == b.trace()[k]);
                assert(c.state(k) == b.state(k) && c.state(k + 1) == b.state(k + 1));
            }
        }
        assert forall|k: int| 0 <= k < self.trace().len() implies #[trigger] c.trace()[k]
            == self.trace()[k] by {
            assert(b.trace()[k] == self.trace()[k]);
        }
        assert forall|k: int| 0 <= k <= self.trace().len() implies #[trigger] c.state(k)
            == self.state(k) by {
            assert(b.state(k) == self.state(k));
        }
    }

    /// The errors with which a channel can break off.
    pub broadcast proof fn lemma_errors(&self, later: &Self, how: Taking<F, P, T, R>, e: Error)
        requires
            #[trigger] self.breaks_off(later, how, e),
        ensures
            e is Transcript || e == Error::ConstraintSystemFailure,
    {
        reveal(Channel::breaks_off);
    }

    /// What is taken in one way is taken in every way that allows for more.
    pub proof fn lemma_by_more(
        &self,
        later: &Self,
        how: Taking<F, P, T, R>,
        more: Taking<F, P, T, R>,
    )
        requires
            forall|step: Step<F, P>, a: (R, T), b: (R, T)| #[trigger]
                how(step, a, b) ==> more(step, a, b),
        ensures
            self.goes_on(later, how) ==> self.goes_on(later, more),
            forall|e: Error| #[trigger]
                self.breaks_off(later, how, e) ==> self.breaks_off(later, more, e),
    {
        reveal(Channel::goes_on);
        reveal(Channel::breaks_off);
    }

    /// One step.
    proof fn lemma_step(&self, later: &Self, step: Step<F, P>, how: Taking<F, P, T, R>)
        requires
            later.log@ == self.log@.push((step, (self.rng, self.transcript))),
            how(step, (self.rng, self.transcript), (later.rng, later.transcript)),
        ensures
            later.trace() == self.trace().push(step),
            later.state(self.trace().len() as int) == self.now(),
            later.now() == (later.rng, later.transcript),
            self.now() == (self.rng, self.transcript),
            !(step is Failed) ==> self.goes_on(later, how),
            step matches Step::Failed { failure, .. } ==> self.breaks_off(
                later,
                how,
                error_of(failure),
            ),
    {
        reveal(Channel::goes_on);
        reveal(Channel::breaks_off);
        assert(later.trace() =~= self.trace().push(step));
    }

    /// A channel on which no step has been taken.
    pub fn new(rng: R, transcript: T) -> (r: Self)
        ensures
            r.now() == (rng, transcript),
            r.trace() == Seq::<Step<F, P>>::empty(),
    {
        let r = Channel { transcript, rng, log: Ghost(Seq::empty()) };
        assert(r.trace() =~= Seq::<Step<F, P>>::empty());
        r
    }

    /// The transcript as it has been left.
    pub fn into_transcript(self) -> (r: T)
        ensures
            r == self.now().1,
    {
        self.transcript
    }
}

/// What holds of channels that go on and break off.
pub broadcast group group_channel {
    Channel::lemma_stays,
    Channel::lemma_goes_on,
    Channel::lemma_breaks_off,
    Channel::lemma_errors,
}

impl<F: Copy, P, T: TranscriptWrite<F, P>, R: RandomSource<F>> Channel<F, P, T, R> {
    /// Squeezes a challenge.
    pub fn squeeze_challenge_scalar(&mut self) -> (r: F)
        ensures
            final(self).trace() == old(self).trace().push(Step::Squeeze(r)),
            is_plain(Step::Squeeze(r), old(self).now(), final(self).now()),
            old(self).goes_on(final(self), plainly()),
    {
        let ghost before = (self.rng, self.transcript);
        let r = self.transcript.squeeze_challenge_scalar();
        proof {
            let step = Step::Squeeze(r);
            self.log@ = self.log@.push((step, before));
            old(self).lemma_step(self, step, plainly());
        }
        r
    }

    /// Draws a field element at random.
    pub fn random(&mut self) -> (r: F)
        ensures
            final(self).trace() == old(self).trace().push(Step::Random(r)),
            is_plain(Step::<F, P>::Random(r), old(self).now(), final(self).now()),
            old(self).goes_on(final(self), plainly()),
    {
        let ghost before = (self.rng, self.transcript);
        let r = self.rng.random();
        proof {
            let step = Step::Random(r);
            self.log@ = self.log@.push((step, before));
            old(self).lemma_step(self, step, plainly());
        }
        r
    }

    /// Absorbs a scalar.
    pub fn common_scalar(&mut self, scalar: F) -> (r: Result<(), Error>)
        ensures
            recorded(old(self).trace(), final(self).trace(), Step::CommonScalar(scalar), r),
            is_plain(final(self).trace().last(), old(self).now(), final(self).now()),
            r is Ok ==> old(self).goes_on(final(self), plainly()),
            r matches Err(e) ==> e is Transcript && old(self).breaks_off(
                final(self),
                plainly(),
                e,
            ),
    {
        let ghost before = (self.rng, self.transcript);
        let ghost step = Step::<F, P>::CommonScalar(scalar);
        let outcome = self.transcript.common_scalar(scalar);
        match outcome {
            Ok(_) => {
                proof {
                    self.log@ = self.log@.push((step, before));
                    old(self).lemma_step(self, step, plainly());
                }
                Ok(())
            },
            Err(e) => {
                proof {
                    let failed = Step::Failed {
                        attempt: Box::new(step),
                        failure: Failure::Transcript(e),
                    };
                    self.log@ = self.log@.push((failed, before));
                    old(self).lemma_step(self, failed, plainly());
                    lemma_stopped(old(self).trace(), step, self.trace());
                }
                Err(Error::Transcript(e))
            },
        }
    }

    /// Absorbs a point.
    pub fn common_point(&mut self, point: P) -> (r: Result<(), Error>)
        ensures
            recorded(old(self).trace(), final(self).trace(), Step::CommonPoint(point), r),
            is_plain(final(self).trace().last(), old(self).now(), final(self).now()),
            r is Ok ==> old(self).goes_on(final(self), plainly()),
            r matches Err(e) ==> e is Transcript && old(self).breaks_off(
                final(self),
                plainly(),
                e,
            ),
    {
        let ghost before = (self.rng, self.transcript);
        let ghost step = Step::<F, P>::CommonPoint(point);
        let outcome = self.transcript.common_point(point);
        match outcome {
            Ok(_) => {
                proof {
                    self.log@ = self.log@.push((step, before));
                    old(self).lemma_step(self, step, plainly());
                }
                Ok(())
            },
            Err(e) => {
                proof {
                    let failed = Step::Failed {
                        attempt: Box::new(step),
                        failure: Failure::Transcript(e),
                    };
                    self.log@ = self.log@.push((failed, before));
                    old(self).lemma_step(self, failed, plainly());
                    lemma_stopped(old(self).trace(), step, self.trace());
                }
                Err(Error::Transcript(e))
            },
        }
    }

    /// Absorbs a scalar and writes it to the proof.
    pub fn write_scalar(&mut self, scalar: F) -> (r: Result<(), Error>)
        ensures
            recorded(old(self).trace(), final(self).trace(), Step::WriteScalar(scalar), r),
            is_plain(final(self).trace().last(), old(self).now(), final(self).now()),
            r is Ok ==> old(self).goes_on(final(self), plainly()),
            r matches Err(e) ==> e is Transcript && old(self).breaks_off(
                final(self),
                plainly(),
                e,
            ),
    {
        let ghost before = (self.rng, self.transcript);
        let ghost step = Step::<F, P>::WriteScalar(scalar);
        let outcome = self.transcript.write_scalar(scalar);
        match outcome {
            Ok(_) => {
                proof {
                    self.log@ = self.log@.push((step, before));
                    old(self).lemma_step(self, step, plainly());
                }
                Ok(())
            },
            Err(e) => {
                proof {
                    let failed = Step::Failed {
                        attempt: Box::new(step),
                        failure: Failure::Transcript(e),
                    };
                    self.log@ = self.log@.push((failed, before));
                    old(self).lemma_step(self, failed, plainly());
                    lemma_stopped(old(self).trace(), step, self.trace());
                }
                Err(Error::Transcript(e))
            },
        }
    }

    /// Absorbs a point and writes it to the proof.
    pub fn write_point(&mut self, point: P) -> (r: Result<(), Error>)
        ensures
            recorded(old(self).trace(), final(self).trace(), Step::WritePoint(point), r),
            is_plain(final(self).trace().last(), old(self).now(), final(self).now()),
            r is Ok ==> old(self).goes_on(final(self), plainly()),
            r matches Err(e) ==> e is Transcript && old(self).breaks_off(
                final(self),
                plainly(),
                e,
            ),
    {
        let ghost before = (self.rng, self.transcript);
        let ghost step = Step::<F, P>::WritePoint(point);
        let outcome = self.transcript.write_point(point);
        match outcome {
            Ok(_) => {
                proof {
                    self.log@ = self.log@.push((step, before));
                    old(self).lemma_step(self, step, plainly());
                }
                Ok(())
            },
            Err(e) => {
                proof {
                    let failed = Step::Failed {
                        attempt: Box::new(step),
                        failure: Failure::Transcript(e),
                    };
                    self.log@ = self.log@.push((failed, before));
                    old(self).lemma_step(self, failed, plainly());
                    lemma_stopped(old(self).trace(), step, self.trace());
                }
                Err(Error::Transcript(e))
            },
        }
    }

    /// Commits to the permuted input and table of a lookup argument.
    pub fn lookup_commit_permuted<A: Arguments<F, T, R>>(
        &mut self,
        arguments: &A,
        circuit: usize,
        lookup: usize,
        theta: F,
        advice: &Vec<Polynomial<F, LagrangeCoeff>>,
        fixed: &Vec<Polynomial<F, LagrangeCoeff>>,
        instance: &Vec<Polynomial<F, LagrangeCoeff>>,
        challenges: &Vec<F>,
    ) -> (r: Result<Stage<A::LookupPermuted>, Error>)
        ensures
            r matches Ok(stage) ==> stage.slot() == (Slot {
                circuit: circuit as int,
                lookup: lookup as int,
            }),
            exists|outcome: Result<A::LookupPermuted, ArgumentError>|
                {
                    &&& #[trigger] arguments.permutes_lookup(
                        lookup as int,
                        theta,
                        values_of(advice@),
                        values_of(fixed@),
                        values_of(instance@),
                        challenges@,
                        old(self).now(),
                        final(self).now(),
                        outcome,
                    )
                    &&& r is Ok <==> outcome is Ok
                    &&& r matches Ok(stage) ==> stage.spec_value() == outcome->Ok_0
                    &&& outcome matches Err(e) ==> r == Err::<Stage<A::LookupPermuted>, Error>(
                        error_of(Failure::Argument(e)),
                    )
                },
            recorded(
                old(self).trace(),
                final(self).trace(),
                Step::LookupPermuted {
                    slot: Slot { circuit: circuit as int, lookup: lookup as int },
                    theta,
                    advice: values_of(advice@),
                    fixed: values_of(fixed@),
                    instance: values_of(instance@),
                    challenges: challenges@,
                },
                r,
            ),
            r is Ok ==> old(self).goes_on(final(self), with_arguments(arguments)),
            r matches Err(e) ==> old(self).breaks_off(
                final(self),
                with_arguments(arguments),
                e,
            ),
    {
        let ghost before = (self.rng, self.transcript);
        let ghost step = Step::<F, P>::LookupPermuted {
            slot: Slot { circuit: circuit as int, lookup: lookup as int },
            theta,
            advice: values_of(advice@),
            fixed: values_of(fixed@),
            instance: values_of(instance@),
            challenges: challenges@,
        };
        let ghost slot = Slot { circuit: circuit as int, lookup: lookup as int };
        let outcome = arguments.lookup_commit_permuted(
            lookup,
            theta,
            advice,
            fixed,
            instance,
            challenges,
            &mut self.rng,
            &mut self.transcript,
        );
        let ghost reached = outcome;
        let ghost how = with_arguments::<F, P, T, R, A>(arguments);
        assert(arguments.permutes_lookup(
            lookup as int,
            theta,
            values_of(advice@),
            values_of(fixed@),
            values_of(instance@),
            challenges@,
            before,
            (self.rng, self.transcript),
            reached,
        ));
        let r = match outcome {
            Ok(value) => {
                proof {
                    assert(is_argued(arguments, step, before, (self.rng, self.transcript), None));
                    self.log@ = self.log@.push((step, before));
                    old(self).lemma_step(self, step, how);
                }
                Ok(Stage { value, slot: Ghost(slot) })
            },
            Err(e) => {
                proof {
                    let failed = Step::Failed {
                        attempt: Box::new(step),
                        failure: Failure::Argument(e),
                    };
                    assert(is_argued(
                        arguments,
                        step,
                        before,
                        (self.rng, self.transcript),
                        Some(e),
                    ));
                    self.log@ = self.log@.push((failed, before));
                    old(self).lemma_step(self, failed, how);
                    lemma_stopped(old(self).trace(), step, self.trace());
                }
                Err(argument_error(e))
            },
        };
        assert(arguments.permutes_lookup(
            lookup as int,
            theta,
            values_of(advice@),
            values_of(fixed@),
            values_of(instance@),
            challenges@,
            old(self).now(),
            self.now(),
            reached,
        ));
        r
    }

    /// Commits to the products of the permutation argument of a circuit.
    pub fn permutation_commit<A: Arguments<F, T, R>>(
        &mut self,
        arguments: &A,
        circuit: usize,
        advice: &Vec<Polynomial<F, LagrangeCoeff>>,
        fixed: &Vec<Polynomial<F, LagrangeCoeff>>,
        instance: &Vec<Polynomial<F, LagrangeCoeff>>,
        beta: F,
        gamma: F,
    ) -> (r: Result<Stage<A::PermutationCommitted>, Error>)
        ensures
            r matches Ok(stage) ==> stage.slot() == (Slot { circuit: circuit as int, lookup: 0 }),
            exists|outcome: Result<A::PermutationCommitted, ArgumentError>|
                {
                    &&& #[trigger] arguments.commits_permutation(
                        values_of(advice@),
                        values_of(fixed@),
                        values_of(instance@),
                        beta,
                        gamma,
                        old(self).now(),
                        final(self).now(),
                        outcome,
                    )
                    &&& r is Ok <==> outcome is Ok
                    &&& r matches Ok(stage) ==> stage.spec_value() == outcome->Ok_0
                    &&& outcome matches Err(e) ==> r == Err::<Stage<A::PermutationCommitted>, Error>(
                        error_of(Failure::Argument(e)),
                    )
                },
            recorded(
                old(self).trace(),
                final(self).trace(),
                Step::PermutationCommitted {
                    slot: Slot { circuit: circuit as int, lookup: 0 },
                    advice: values_of(advice@),
                    fixed: values_of(fixed@),
                    instance: values_of(instance@),
                    beta,
                    gamma,
                },
                r,
            ),
            r is Ok ==> old(self).goes_on(final(self), with_arguments(arguments)),
            r matches Err(e) ==> old(self).breaks_off(
                final(self),
                with_arguments(arguments),
                e,
            ),
    {
        let ghost before = (self.rng, self.transcript);
        let ghost step = Step::<F, P>::PermutationCommitted {
            slot: Slot { circuit: circuit as int, lookup: 0 },
            advice: values_of(advice@),
            fixed: values_of(fixed@),
            instance: values_of(instance@),
            beta,
            gamma,
        };
        let ghost slot = Slot { circuit: circuit as int, lookup: 0 };
        let outcome = arguments.permutation_commit(
            advice,
            fixed,
            instance,
            beta,
            gamma,
            &mut self.rng,
            &mut self.transcript,
        );
        let ghost reached = outcome;
        let ghost how = with_arguments::<F, P, T, R, A>(arguments);
        assert(arguments.commits_permutation(
            values_of(advice@),
            values_of(fixed@),
            values_of(instance@),
            beta,
            gamma,
            before,
            (self.rng, self.transcript),
            reached,
        ));
        let r = match outcome {
            Ok(value) => {
                proof {
                    assert(is_argued(arguments, step, before, (self.rng, self.transcript), None));
                    self.log@ = self.log@.push((step, before));
                    old(self).lemma_step(self, step, how);
                }
                Ok(Stage { value, slot: Ghost(slot) })
            },
            Err(e) => {
                proof {
                    let failed = Step::Failed {
                        attempt: Box::new(step),
                        failure: Failure::Argument(e),
                    };
                    assert(is_argued(
                        arguments,
                        step,
                        before,
                        (self.rng, self.transcript),
                        Some(e),
                    ));
                    self.log@ = self.log@.push((failed, before));
                    old(self).lemma_step(self, failed, how);
                    lemma_stopped(old(self).trace(), step, self.trace());
                }
                Err(argument_error(e))
            },
        };
        assert(arguments.commits_permutation(
            values_of(advice@),
            values_of(fixed@),
            values_of(instance@),
            beta,
            gamma,
            old(self).now(),
            self.now(),
            reached,
        ));
        r
    }

    /// Commits to the product of a lookup argument.
    pub fn lookup_commit_product<A: Arguments<F, T, R>>(
        &mut self,
        arguments: &A,
        permuted: Stage<A::LookupPermuted>,
        beta: F,
        gamma: F,
    ) -> (r: Result<Stage<A::LookupCommitted>, Error>)
        ensures
            r matches Ok(stage) ==> stage.slot() == permuted.slot(),
            exists|outcome: Result<A::LookupCommitted, ArgumentError>|
                {
                    &&& #[trigger] arguments.commits_product(
                        permuted.spec_value(),
                        beta,
                        gamma,
                        old(self).now(),
                        final(self).now(),
                        outcome,
                    )
                    &&& r is Ok <==> outcome is Ok
                    &&& r matches Ok(stage) ==> stage.spec_value() == outcome->Ok_0
                    &&& outcome matches Err(e) ==> r == Err::<Stage<A::LookupCommitted>, Error>(
                        error_of(Failure::Argument(e)),
                    )
                },
            recorded(
                old(self).trace(),
                final(self).trace(),
                Step::LookupCommitted {
                    slot: permuted.slot(),
                    beta,
                    gamma,
                },
                r,
            ),
            r is Ok ==> old(self).goes_on(final(self), with_arguments(arguments)),
            r matches Err(e) ==> old(self).breaks_off(
                final(self),
                with_arguments(arguments),
                e,
            ),
    {
        let ghost before = (self.rng, self.transcript);
        let ghost step = Step::<F, P>::LookupCommitted {
            slot: permuted.slot(),
            beta,
            gamma,
        };
        let ghost slot = permuted.slot();
        let ghost input = permuted.spec_value();
        let outcome = arguments.lookup_commit_product(
            permuted.value,
            beta,
            gamma,
            &mut self.rng,
            &mut self.transcript,
        );
        let ghost reached = outcome;
        let ghost how = with_arguments::<F, P, T, R, A>(arguments);
        assert(arguments.commits_product(
            input,
            beta,
            gamma,
            before,
            (self.rng, self.transcript),
            reached,
        ));
        let r = match outcome {
            Ok(value) => {
                proof {
                    assert(is_argued(arguments, step, before, (self.rng, self.transcript), None));
                    self.log@ = self.log@.push((step, before));
                    old(self).lemma_step(self, step, how);
                }
                Ok(Stage { value, slot: Ghost(slot) })
            },
            Err(e) => {
                proof {
                    let failed = Step::Failed {
                        attempt: Box::new(step),
                        failure: Failure::Argument(e),
                    };
                    assert(is_argued(
                        arguments,
                        step,
                        before,
                        (self.rng, self.transcript),
                        Some(e),
                    ));
                    self.log@ = self.log@.push((failed, before));
                    old(self).lemma_step(self, failed, how);
                    lemma_stopped(old(self).trace(), step, self.trace());
                }
                Err(argument_error(e))
            },
        };
        assert(arguments.commits_product(
            input,
            beta,
            gamma,
            old(self).now(),
            self.now(),
            reached,
        ));
        r
    }

    /// Commits to the random polynomial that blinds the quotient.
    pub fn vanishing_commit<A: Arguments<F, T, R>>(
        &mut self,
        arguments: &A,
    ) -> (r: Result<Stage<A::VanishingCommitted>, Error>)
        ensures
            r matches Ok(stage) ==> stage.slot() == (Slot { circuit: 0, lookup: 0 }),
            exists|outcome: Result<A::VanishingCommitted, ArgumentError>|
                {
                    &&& #[trigger] arguments.commits_vanishing(
                        old(self).now(),
                        final(self).now(),
                        outcome,
                    )
                    &&& r is Ok <==> outcome is Ok
                    &&& r matches Ok(stage) ==> stage.spec_value() == outcome->Ok_0
                    &&& outcome matches Err(e) ==> r == Err::<Stage<A::VanishingCommitted>, Error>(
                        error_of(Failure::Argument(e)),
                    )
                },
            recorded(
                old(self).trace(),
                final(self).trace(),
                Step::VanishingCommitted,
                r,
            ),
            r is Ok ==> old(self).goes_on(final(self), with_arguments(arguments)),
            r matches Err(e) ==> old(self).breaks_off(
                final(self),
                with_arguments(arguments),
                e,
            ),
    {
        let ghost before = (self.rng, self.transcript);
        let ghost step = Step::<F, P>::VanishingCommitted;
        let ghost slot = Slot { circuit: 0, lookup: 0 };
        let outcome = arguments.vanishing_commit(
            &mut self.rng,
            &mut self.transcript,
        );
        let ghost reached = outcome;
        let ghost how = with_arguments::<F, P, T, R, A>(arguments);
        assert(arguments.commits_vanishing(
            before,
            (self.rng, self.transcript),
            reached,
        ));
        let r = match outcome {
            Ok(value) => {
                proof {
                    assert(is_argued(arguments, step, before, (self.rng, self.transcript), None));
                    self.log@ = self.log@.push((step, before));
                    old(self).lemma_step(self, step, how);
                }
                Ok(Stage { value, slot: Ghost(slot) })
            },
            Err(e) => {
                proof {
                    let failed = Step::Failed {
                        attempt: Box::new(step),
                        failure: Failure::Argument(e),
                    };
                    assert(is_argued(
                        arguments,
                        step,
                        before,
                        (self.rng, self.transcript),
                        Some(e),
                    ));
                    self.log@ = self.log@.push((failed, before));
                    old(self).lemma_step(self, failed, how);
                    lemma_stopped(old(self).trace(), step, self.trace());
                }
                Err(argument_error(e))
            },
        };
        assert(arguments.commits_vanishing(
            old(self).now(),
            self.now(),
            reached,
        ));
        r
    }

    /// Computes the quotient polynomial.
    pub fn evaluate_h<A: Arguments<F, T, R>>(
        &mut self,
        arguments: &A,
        advice: &Vec<&[Polynomial<F, Coeff>]>,
        instance: &Vec<&[Polynomial<F, Coeff>]>,
        challenges: &Vec<F>,
        y: F,
        beta: F,
        gamma: F,
        theta: F,
        lookups: &Vec<Vec<Stage<A::LookupCommitted>>>,
        permutations: &Vec<Stage<A::PermutationCommitted>>,
    ) -> (h: Polynomial<F, ExtendedLagrangeCoeff>)
        ensures
            arguments.evaluates_h(
                all_values_of(advice@),
                all_values_of(instance@),
                challenges@,
                y,
                beta,
                gamma,
                theta,
                all_stage_values(lookups@),
                stage_values(permutations@),
                h@,
            ),
            final(self).now() == old(self).now(),
            final(self).trace() == old(self).trace().push(
                Step::Quotient {
                    advice_polys: all_values_of(advice@),
                    instance_polys: all_values_of(instance@),
                    challenges: challenges@,
                    y,
                    beta,
                    gamma,
                    theta,
                    lookups: all_slots_of(lookups@),
                    permutations: slots_of(permutations@),
                    h: h@,
                },
            ),
            old(self).goes_on(final(self), with_arguments(arguments)),
    {
        let ghost before = (self.rng, self.transcript);
        let h = arguments.evaluate_h(
            advice,
            instance,
            challenges,
            y,
            beta,
            gamma,
            theta,
            lookups,
            permutations,
        );
        proof {
            let step = Step::Quotient {
                advice_polys: all_values_of(advice@),
                instance_polys: all_values_of(instance@),
                challenges: challenges@,
                y,
                beta,
                gamma,
                theta,
                lookups: all_slots_of(lookups@),
                permutations: slots_of(permutations@),
                h: h@,
            };
            self.log@ = self.log@.push((step, before));
            old(self).lemma_step(self, step, with_arguments(arguments));
        }
        h
    }

    /// Commits to the pieces of the quotient polynomial.
    pub fn vanishing_construct<A: Arguments<F, T, R>>(
        &mut self,
        arguments: &A,
        committed: Stage<A::VanishingCommitted>,
        h: Polynomial<F, ExtendedLagrangeCoeff>,
    ) -> (r: Result<Stage<A::VanishingConstructed>, Error>)
        ensures
            r matches Ok(stage) ==> stage.slot() == committed.slot(),
            exists|outcome: Result<A::VanishingConstructed, ArgumentError>|
                {
                    &&& #[trigger] arguments.constructs_vanishing(
                        committed.spec_value(),
                        h@,
                        old(self).now(),
                        final(self).now(),
                        outcome,
                    )
                    &&& r is Ok <==> outcome is Ok
                    &&& r matches Ok(stage) ==> stage.spec_value() == outcome->Ok_0
                    &&& outcome matches Err(e) ==> r == Err::<Stage<A::VanishingConstructed>, Error>(
                        error_of(Failure::Argument(e)),
                    )
                },
            recorded(
                old(self).trace(),
                final(self).trace(),
                Step::VanishingConstructed {
                    h: h@,
                },
                r,
            ),
            r is Ok ==> old(self).goes_on(final(self), with_arguments(arguments)),
            r matches Err(e) ==> old(self).breaks_off(
                final(self),
                with_arguments(arguments),
                e,
            ),
    {
        let ghost before = (self.rng, self.transcript);
        let ghost step = Step::<F, P>::VanishingConstructed {
            h: h@,
        };
        let ghost slot = committed.slot();
        let ghost input = committed.spec_value();
        let ghost quotient = h@;
        let outcome = arguments.vanishing_construct(
            committed.value,
            h,
            &mut self.rng,
            &mut self.transcript,
        );
        let ghost reached = outcome;
        let ghost how = with_arguments::<F, P, T, R, A>(arguments);
        assert(arguments.constructs_vanishing(
            input,
            quotient,
            before,
            (self.rng, self.transcript),
            reached,
        ));
        let r = match outcome {
            Ok(value) => {
                proof {
                    assert(is_argued(arguments, step, before, (self.rng, self.transcript), None));
                    self.log@ = self.log@.push((step, before));
                    old(self).lemma_step(self, step, how);
                }
                Ok(Stage { value, slot: Ghost(slot) })
            },
            Err(e) => {
                proof {
                    let failed = Step::Failed {
                        attempt: Box::new(step),
                        failure: Failure::Argument(e),
                    };
                    assert(is_argued(
                        arguments,
                        step,
                        before,
                        (self.rng, self.transcript),
                        Some(e),
                    ));
                    self.log@ = self.log@.push((failed, before));
                    old(self).lemma_step(self, failed, how);
                    lemma_stopped(old(self).trace(), step, self.trace());
                }
                Err(argument_error(e))
            },
        };
        assert(arguments.constructs_vanishing(
            input,
            quotient,
            old(self).now(),
            self.now(),
            reached,
        ));
        r
    }

    /// Evaluates the vanishing argument at `x`, whose `n`-th power is `xn`.
    pub fn vanishing_evaluate<A: Arguments<F, T, R>>(
        &mut self,
        arguments: &A,
        constructed: Stage<A::VanishingConstructed>,
        x: F,
        xn: F,
    ) -> (r: Result<Stage<A::VanishingEvaluated>, Error>)
        ensures
            r matches Ok(stage) ==> stage.slot() == constructed.slot(),
            exists|outcome: Result<A::VanishingEvaluated, ArgumentError>|
                {
                    &&& #[trigger] arguments.evaluates_vanishing(
                        constructed.spec_value(),
                        x,
                        xn,
                        old(self).now().1,
                        final(self).now().1,
                        outcome,
                    )
                    &&& r is Ok <==> outcome is Ok
                    &&& r matches Ok(stage) ==> stage.spec_value() == outcome->Ok_0
                    &&& outcome matches Err(e) ==> r == Err::<Stage<A::VanishingEvaluated>, Error>(
                        error_of(Failure::Argument(e)),
                    )
                },
            final(self).now().0 == old(self).now().0,
            recorded(
                old(self).trace(),
                final(self).trace(),
                Step::VanishingEvaluated {
                    x,
                    xn,
                },
                r,
            ),
            r is Ok ==> old(self).goes_on(final(self), with_arguments(arguments)),
            r matches Err(e) ==> old(self).breaks_off(
                final(self),
                with_arguments(arguments),
                e,
            ),
    {
        let ghost before = (self.rng, self.transcript);
        let ghost step = Step::<F, P>::VanishingEvaluated {
            x,
            xn,
        };
        let ghost slot = constructed.slot();
        let ghost input = constructed.spec_value();
        let outcome = arguments.vanishing_evaluate(
            constructed.value,
            x,
            xn,
            &mut self.transcript,
        );
        let ghost reached = outcome;
        let ghost how = with_arguments::<F, P, T, R, A>(arguments);
        assert(arguments.evaluates_vanishing(
            input,
            x,
            xn,
            before.1,
            self.transcript,
            reached,
        ));
        let r = match outcome {
            Ok(value) => {
                proof {
                    assert(is_argued(arguments, step, before, (self.rng, self.transcript), None));
                    self.log@ = self.log@.push((step, before));
                    old(self).lemma_step(self, step, how);
                }
                Ok(Stage { value, slot: Ghost(slot) })
            },
            Err(e) => {
                proof {
                    let failed = Step::Failed {
                        attempt: Box::new(step),
                        failure: Failure::Argument(e),
                    };
                    assert(is_argued(
                        arguments,
                        step,
                        before,
                        (self.rng, self.transcript),
                        Some(e),
                    ));
                    self.log@ = self.log@.push((failed, before));
                    old(self).lemma_step(self, failed, how);
                    lemma_stopped(old(self).trace(), step, self.trace());
                }
                Err(argument_error(e))
            },
        };
        assert(arguments.evaluates_vanishing(
            input,
            x,
            xn,
            old(self).now().1,
            self.now().1,
            reached,
        ));
        r
    }

    /// Evaluates the polynomials that all permutation arguments share.
    pub fn permutation_evaluate_common<A: Arguments<F, T, R>>(
        &mut self,
        arguments: &A,
        x: F,
    ) -> (r: Result<(), Error>)
        ensures
            exists|outcome: Result<(), ArgumentError>|
                {
                    &&& #[trigger] arguments.evaluates_common(
                        x,
                        old(self).now().1,
                        final(self).now().1,
                        outcome,
                    )
                    &&& r is Ok <==> outcome is Ok
                    &&& outcome matches Err(e) ==> r == Err::<(), Error>(
                        error_of(Failure::Argument(e)),
                    )
                },
            final(self).now().0 == old(self).now().0,
            recorded(
                old(self).trace(),
                final(self).trace(),
                Step::CommonPermutationEvaluated {
                    x,
                },
                r,
            ),
            r is Ok ==> old(self).goes_on(final(self), with_arguments(arguments)),
            r matches Err(e) ==> old(self).breaks_off(
                final(self),
                with_arguments(arguments),
                e,
            ),
    {
        let ghost before = (self.rng, self.transcript);
        let ghost step = Step::<F, P>::CommonPermutationEvaluated {
            x,
        };
        let outcome = arguments.permutation_evaluate_common(
            x,
            &mut self.transcript,
        );
        let ghost reached = outcome;
        let ghost how = with_arguments::<F, P, T, R, A>(arguments);
        assert(arguments.evaluates_common(
            x,
            before.1,
            self.transcript,
            reached,
        ));
        let r = match outcome {
            Ok(_) => {
                proof {
                    assert(is_argued(arguments, step, before, (self.rng, self.transcript), None));
                    self.log@ = self.log@.push((step, before));
                    old(self).lemma_step(self, step, how);
                }
                Ok(())
            },
            Err(e) => {
                proof {
                    let failed = Step::Failed {
                        attempt: Box::new(step),
                        failure: Failure::Argument(e),
                    };
                    assert(is_argued(
                        arguments,
                        step,
                        before,
                        (self.rng, self.transcript),
                        Some(e),
                    ));
                    self.log@ = self.log@.push((failed, before));
                    old(self).lemma_step(self, failed, how);
                    lemma_stopped(old(self).trace(), step, self.trace());
                }
                Err(argument_error(e))
            },
        };
        assert(arguments.evaluates_common(
            x,
            old(self).now().1,
            self.now().1,
            reached,
        ));
        r
    }

    /// Evaluates a permutation argument.
    pub fn permutation_evaluate<A: Arguments<F, T, R>>(
        &mut self,
        arguments: &A,
        committed: Stage<A::PermutationCommitted>,
        x: F,
    ) -> (r: Result<Stage<A::PermutationEvaluated>, Error>)
        ensures
            r matches Ok(stage) ==> stage.slot() == committed.slot(),
            exists|outcome: Result<A::PermutationEvaluated, ArgumentError>|
                {
                    &&& #[trigger] arguments.evaluates_permutation(
                        committed.spec_value(),
                        x,
                        old(self).now().1,
                        final(self).now().1,
                        outcome,
                    )
                    &&& r is Ok <==> outcome is Ok
                    &&& r matches Ok(stage) ==> stage.spec_value() == outcome->Ok_0
                    &&& outcome matches Err(e) ==> r == Err::<Stage<A::PermutationEvaluated>, Error>(
                        error_of(Failure::Argument(e)),
                    )
                },
            final(self).now().0 == old(self).now().0,
            recorded(
                old(self).trace(),
                final(self).trace(),
                Step::PermutationEvaluated {
                    slot: committed.slot(),
                    x,
                },
                r,
            ),
            r is Ok ==> old(self).goes_on(final(self), with_arguments(arguments)),
            r matches Err(e) ==> old(self).breaks_off(
                final(self),
                with_arguments(arguments),
                e,
            ),
    {
        let ghost before = (self.rng, self.transcript);
        let ghost step = Step::<F, P>::PermutationEvaluated {
            slot: committed.slot(),
            x,
        };
        let ghost slot = committed.slot();
        let ghost input = committed.spec_value();
        let outcome = arguments.permutation_evaluate(
            committed.value,
            x,
            &mut self.transcript,
        );
        let ghost reached = outcome;
        let ghost how = with_arguments::<F, P, T, R, A>(arguments);
        assert(arguments.evaluates_permutation(
            input,
            x,
            before.1,
            self.transcript,
            reached,
        ));
        let r = match outcome {
            Ok(value) => {
                proof {
                    assert(is_argued(arguments, step, before, (self.rng, self.transcript), None));
                    self.log@ = self.log@.push((step, before));
                    old(self).lemma_step(self, step, how);
                }
                Ok(Stage { value, slot: Ghost(slot) })
            },
            Err(e) => {
                proof {
                    let failed = Step::Failed {
                        attempt: Box::new(step),
                        failure: Failure::Argument(e),
                    };
                    assert(is_argued(
                        arguments,
                        step,
                        before,
                        (self.rng, self.transcript),
                        Some(e),
                    ));
                    self.log@ = self.log@.push((failed, before));
                    old(self).lemma_step(self, failed, how);
                    lemma_stopped(old(self).trace(), step, self.trace());
                }
                Err(argument_error(e))
            },
        };
        assert(arguments.evaluates_permutation(
            input,
            x,
            old(self).now().1,
            self.now().1,
            reached,
        ));
        r
    }

    /// Evaluates a lookup argument.
    pub fn lookup_evaluate<A: Arguments<F, T, R>>(
        &mut self,
        arguments: &A,
        committed: Stage<A::LookupCommitted>,
        x: F,
    ) -> (r: Result<Stage<A::LookupEvaluated>, Error>)
        ensures
            r matches Ok(stage) ==> stage.slot() == committed.slot(),
            exists|outcome: Result<A::LookupEvaluated, ArgumentError>|
                {
                    &&& #[trigger] arguments.evaluates_lookup(
                        committed.spec_value(),
                        x,
                        old(self).now().1,
                        final(self).now().1,
                        outcome,
                    )
                    &&& r is Ok <==> outcome is Ok
                    &&& r matches Ok(stage) ==> stage.spec_value() == outcome->Ok_0
                    &&& outcome matches Err(e) ==> r == Err::<Stage<A::LookupEvaluated>, Error>(
                        error_of(Failure::Argument(e)),
                    )
                },
            final(self).now().0 == old(self).now().0,
            recorded(
                old(self).trace(),
                final(self).trace(),
                Step::LookupEvaluated {
                    slot: committed.slot(),
                    x,
                },
                r,
            ),
            r is Ok ==> old(self).goes_on(final(self), with_arguments(arguments)),
            r matches Err(e) ==> old(self).breaks_off(
                final(self),
                with_arguments(arguments),
                e,
            ),
    {
        let ghost before = (self.rng, self.transcript);
        let ghost step = Step::<F, P>::LookupEvaluated {
            slot: committed.slot(),
            x,
        };
        let ghost slot = committed.slot();
        let ghost input = committed.spec_value();
        let outcome = arguments.lookup_evaluate(
            committed.value,
            x,
            &mut self.transcript,
        );
        let ghost reached = outcome;
        let ghost how = with_arguments::<F, P, T, R, A>(arguments);
        assert(arguments.evaluates_lookup(
            input,
            x,
            before.1,
            self.transcript,
            reached,
        ));
        let r = match outcome {
            Ok(value) => {
                proof {
                    assert(is_argued(arguments, step, before, (self.rng, self.transcript), None));
                    self.log@ = self.log@.push((step, before));
                    old(self).lemma_step(self, step, how);
                }
                Ok(Stage { value, slot: Ghost(slot) })
            },
            Err(e) => {
                proof {
                    let failed = Step::Failed {
                        attempt: Box::new(step),
                        failure: Failure::Argument(e),
                    };
                    assert(is_argued(
                        arguments,
                        step,
                        before,
                        (self.rng, self.transcript),
                        Some(e),
                    ));
                    self.log@ = self.log@.push((failed, before));
                    old(self).lemma_step(self, failed, how);
                    lemma_stopped(old(self).trace(), step, self.trace());
                }
                Err(argument_error(e))
            },
        };
        assert(arguments.evaluates_lookup(
            input,
            x,
            old(self).now().1,
            self.now().1,
            reached,
        ));
        r
    }

    /// Lists the queries of a permutation argument.
    pub fn permutation_open<'a, A: Arguments<F, T, R>>(
        &mut self,
        arguments: &'a A,
        evaluated: &'a Stage<A::PermutationEvaluated>,
        x: F,
    ) -> (r: Vec<ProverQuery<'a, F>>)
        ensures
            arguments.opens_permutation(evaluated.spec_value(), x, commitment::queries_of(r@)),
            final(self).now() == old(self).now(),
            final(self).trace() == old(self).trace().push(
                Step::PermutationOpened {
                    slot: evaluated.slot(),
                    x,
                    queries: commitment::queries_of(r@),
                },
            ),
            old(self).goes_on(final(self), with_arguments(arguments)),
    {
        let ghost before = (self.rng, self.transcript);
        let r = arguments.permutation_open(&evaluated.value, x);
        proof {
            let step = Step::PermutationOpened {
                slot: evaluated.slot(),
                x,
                queries: commitment::queries_of(r@),
            };
            self.log@ = self.log@.push((step, before));
            old(self).lemma_step(self, step, with_arguments(arguments));
        }
        r
    }

    /// Lists the queries of a lookup argument.
    pub fn lookup_open<'a, A: Arguments<F, T, R>>(
        &mut self,
        arguments: &'a A,
        evaluated: &'a Stage<A::LookupEvaluated>,
        x: F,
    ) -> (r: Vec<ProverQuery<'a, F>>)
        ensures
            arguments.opens_lookup(evaluated.spec_value(), x, commitment::queries_of(r@)),
            final(self).now() == old(self).now(),
            final(self).trace() == old(self).trace().push(
                Step::LookupOpened {
                    slot: evaluated.slot(),
                    x,
                    queries: commitment::queries_of(r@),
                },
            ),
            old(self).goes_on(final(self), with_arguments(arguments)),
    {
        let ghost before = (self.rng, self.transcript);
        let r = arguments.lookup_open(&evaluated.value, x);
        proof {
            let step = Step::LookupOpened {
                slot: evaluated.slot(),
                x,
                queries: commitment::queries_of(r@),
            };
            self.log@ = self.log@.push((step, before));
            old(self).lemma_step(self, step, with_arguments(arguments));
        }
        r
    }

    /// Lists the queries of the polynomials that all permutation arguments share.
    pub fn permutation_open_common<'a, A: Arguments<F, T, R>>(
        &mut self,
        arguments: &'a A,
        x: F,
    ) -> (r: Vec<ProverQuery<'a, F>>)
        ensures
            arguments.opens_common(x, commitment::queries_of(r@)),
            final(self).now() == old(self).now(),
            final(self).trace() == old(self).trace().push(
                Step::CommonPermutationOpened {
                    x,
                    queries: commitment::queries_of(r@),
                },
            ),
            old(self).goes_on(final(self), with_arguments(arguments)),
    {
        let ghost before = (self.rng, self.transcript);
        let r = arguments.permutation_open_common(x);
        proof {
            let step = Step::CommonPermutationOpened {
                x,
                queries: commitment::queries_of(r@),
            };
            self.log@ = self.log@.push((step, before));
            old(self).lemma_step(self, step, with_arguments(arguments));
        }
        r
    }

    /// Lists the queries of the vanishing argument.
    pub fn vanishing_open<'a, A: Arguments<F, T, R>>(
        &mut self,
        arguments: &'a A,
        evaluated: &'a Stage<A::VanishingEvaluated>,
        x: F,
    ) -> (r: Vec<ProverQuery<'a, F>>)
        ensures
            arguments.opens_vanishing(evaluated.spec_value(), x, commitment::queries_of(r@)),
            final(self).now() == old(self).now(),
            final(self).trace() == old(self).trace().push(
                Step::VanishingOpened {
                    x,
                    queries: commitment::queries_of(r@),
                },
            ),
            old(self).goes_on(final(self), with_arguments(arguments)),
    {
        let ghost before = (self.rng, self.transcript);
        let r = arguments.vanishing_open(&evaluated.value, x);
        proof {
            let step = Step::VanishingOpened {
                x,
                queries: commitment::queries_of(r@),
            };
            self.log@ = self.log@.push((step, before));
            old(self).lemma_step(self, step, with_arguments(arguments));
        }
        r
    }

    /// Opens the queried polynomials. Whatever goes wrong amounts to a failure
    /// of the constraint system.
    pub fn multi_open<'a, A: Arguments<F, T, R>, O: Prover<F, T, R>>(
        &mut self,
        arguments: &A,
        prover: &O,
        queries: Vec<ProverQuery<'a, F>>,
    ) -> (r: Result<(), Error>)
        ensures
            exists|outcome: Result<(), crate::poly::Error>|
                {
                    &&& #[trigger] prover.opens(
                        commitment::queries_of(queries@),
                        old(self).now(),
                        final(self).now(),
                        outcome,
                    )
                    &&& r is Ok <==> outcome is Ok
                },
            recorded(
                old(self).trace(),
                final(self).trace(),
                Step::MultiOpen { queries: commitment::queries_of(queries@) },
                r,
            ),
            r is Ok ==> old(self).goes_on(final(self), with_prover(arguments, prover)),
            r matches Err(e) ==> e == Error::ConstraintSystemFailure && old(self).breaks_off(
                final(self),
                with_prover(arguments, prover),
                e,
            ),
    {
        let ghost before = (self.rng, self.transcript);
        let ghost opened = commitment::queries_of(queries@);
        let ghost step = Step::<F, P>::MultiOpen { queries: opened };
        let ghost how = with_prover::<F, P, T, R, A, O>(arguments, prover);
        let outcome = prover.create_proof(&mut self.rng, &mut self.transcript, queries);
        assert(prover.opens(opened, before, (self.rng, self.transcript), outcome));
        let r = match outcome {
            Ok(_) => {
                proof {
                    self.log@ = self.log@.push((step, before));
                    old(self).lemma_step(self, step, how);
                }
                Ok(())
            },
            Err(_) => {
                proof {
                    let failed = Step::Failed {
                        attempt: Box::new(step),
                        failure: Failure::Opening,
                    };
                    self.log@ = self.log@.push((failed, before));
                    old(self).lemma_step(self, failed, how);
                    lemma_stopped(old(self).trace(), step, self.trace());
                }
                Err(Error::ConstraintSystemFailure)
            },
        };
        assert(prover.opens(opened, old(self).now(), self.now(), outcome));
        r
    }
}

/// Going on without arguments is a case of going on with them.
pub broadcast proof fn lemma_goes_on_arguing<
    F,
    P,
    T: TranscriptWrite<F, P>,
    R: RandomSource<F>,
    A: Arguments<F, T, R>,
>(
    a: &Channel<F, P, T, R>,
    b: &Channel<F, P, T, R>,
    arguments: &A,
)
    requires
        #[trigger] a.goes_on(b, plainly()),
    ensures
        a.goes_on(b, #[trigger] with_arguments::<F, P, T, R, A>(arguments)),
{
    a.lemma_by_more(b, plainly(), with_arguments::<F, P, T, R, A>(arguments));
}

/// Going on without openings is a case of going on with them.
pub broadcast proof fn lemma_goes_on_opening<
    F,
    P,
    T: TranscriptWrite<F, P>,
    R: RandomSource<F>,
    A: Arguments<F, T, R>,
    O: Prover<F, T, R>,
>(
    a: &Channel<F, P, T, R>,
    b: &Channel<F, P, T, R>,
    arguments: &A,
    prover: &O,
)
    requires
        #[trigger] a.goes_on(b, with_arguments::<F, P, T, R, A>(arguments)),
    ensures
        a.goes_on(b, #[trigger] with_prover::<F, P, T, R, A, O>(arguments, prover)),
{
    a.lemma_by_more(
        b,
        with_arguments::<F, P, T, R, A>(arguments),
        with_prover::<F, P, T, R, A, O>(arguments, prover),
    );
}

/// Going on with neither is a case of going on with both.
pub broadcast proof fn lemma_goes_on_proving<
    F,
    P,
    T: TranscriptWrite<F, P>,
    R: RandomSource<F>,
    A: Arguments<F, T, R>,
    O: Prover<F, T, R>,
>(
    a: &Channel<F, P, T, R>,
    b: &Channel<F, P, T, R>,
    arguments: &A,
    prover: &O,
)
    requires
        #[trigger] a.goes_on(b, plainly()),
    ensures
        a.goes_on(b, #[trigger] with_prover::<F, P, T, R, A, O>(arguments, prover)),
{
    a.lemma_by_more(b, plainly(), with_prover::<F, P, T, R, A, O>(arguments, prover));
}

/// Breaking off without arguments is a case of breaking off with them.
pub broadcast proof fn lemma_breaks_off_arguing<
    F,
    P,
    T: TranscriptWrite<F, P>,
    R: RandomSource<F>,
    A: Arguments<F, T, R>,
>(
    a: &Channel<F, P, T, R>,
    b: &Channel<F, P, T, R>,
    arguments: &A,
    e: Error,
)
    requires
        #[trigger] a.breaks_off(b, plainly(), e),
    ensures
        a.breaks_off(b, #[trigger] with_arguments::<F, P, T, R, A>(arguments), e),
{
    a.lemma_by_more(b, plainly(), with_arguments::<F, P, T, R, A>(arguments));
}

/// Breaking off without openings is a case of breaking off with them.
pub broadcast proof fn lemma_breaks_off_opening<
    F,
    P,
    T: TranscriptWrite<F, P>,
    R: RandomSource<F>,
    A: Arguments<F, T, R>,
    O: Prover<F, T, R>,
>(
    a: &Channel<F, P, T, R>,
    b: &Channel<F, P, T, R>,
    arguments: &A,
    prover: &O,
    e: Error,
)
    requires
        #[trigger] a.breaks_off(b, with_arguments::<F, P, T, R, A>(arguments), e),
    ensures
        a.breaks_off(b, #[trigger] with_prover::<F, P, T, R, A, O>(arguments, prover), e),
{
    a.lemma_by_more(
        b,
        with_arguments::<F, P, T, R, A>(arguments),
        with_prover::<F, P, T, R, A, O>(arguments, prover),
    );
}

/// Breaking off with neither is a case of breaking off with both.
pub broadcast proof fn lemma_breaks_off_proving<
    F,
    P,
    T: TranscriptWrite<F, P>,
    R: RandomSource<F>,
    A: Arguments<F, T, R>,
    O: Prover<F, T, R>,
>(
    a: &Channel<F, P, T, R>,
    b: &Channel<F, P, T, R>,
    arguments: &A,
    prover: &O,
    e: Error,
)
    requires
        #[trigger] a.breaks_off(b, plainly(), e),
    ensures
        a.breaks_off(b, #[trigger] with_prover::<F, P, T, R, A, O>(arguments, prover), e),
{
    a.lemma_by_more(b, plainly(), with_prover::<F, P, T, R, A, O>(arguments, prover));
}

/// What is done with less help is done with more.
pub broadcast group group_ways {
    lemma_goes_on_arguing,
    lemma_goes_on_opening,
    lemma_goes_on_proving,
    lemma_breaks_off_arguing,
    lemma_breaks_off_opening,
    lemma_breaks_off_proving,
}

/// A single step that failed.
proof fn lemma_stopped<F, P>(
    before: Seq<Step<F, P>>,
    step: Step<F, P>,
    after: Seq<Step<F, P>>,
)
    requires
        after.len() > 0,
        after == before.push(after.last()),
        after.last() matches Step::Failed { attempt, .. } && *attempt == step,
    ensures
        stops_in(before, seq![step], after),
{
    assert(after.drop_last() =~= before);
    assert(before + seq![step].take(0) =~= before);
}

/// Stopping in steps that come after others is stopping in all of them.
pub proof fn lemma_stops_later<F, P>(
    before: Seq<Step<F, P>>,
    a: Seq<Step<F, P>>,
    b: Seq<Step<F, P>>,
    after: Seq<Step<F, P>>,
)
    requires
        stops_in(before + a, b, after),
    ensures
        stops_in(before, a + b, after),
{
    let taken = after.len() - before.len() - 1;
    assert(before + (a + b).take(taken) =~= (before + a) + b.take(taken - a.len()));
}

/// Stopping in some steps is stopping in them and others that come after them.
pub proof fn lemma_stops_earlier<F, P>(
    before: Seq<Step<F, P>>,
    a: Seq<Step<F, P>>,
    b: Seq<Step<F, P>>,
    after: Seq<Step<F, P>>,
)
    requires
        stops_in(before, a, after),
    ensures
        stops_in(before, a + b, after),
{
    let taken = after.len() - before.len() - 1;
    assert((a + b).take(taken) =~= a.take(taken));
}

/// Stopping at one of some steps.
pub broadcast proof fn lemma_stops_at<F, P>(
    before: Seq<Step<F, P>>,
    steps: Seq<Step<F, P>>,
    k: int,
    step: Seq<Step<F, P>>,
    after: Seq<Step<F, P>>,
)
    requires
        #[trigger] stops_in(before + steps.take(k), step, after),
        0 <= k < steps.len(),
        step.len() == 1,
        step[0] == steps[k],
    ensures
        stops_in(before, steps, after),
{
    assert(step.take(0) =~= Seq::empty());
    assert(before + steps.take(k) + step.take(0) =~= before + steps.take(k));
}

} // verus!
