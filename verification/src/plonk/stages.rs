//! The values that the arguments of a proof come to, and how each step of a proof
//! goes from one to the next.

use super::channel;
use super::channel::{
    ArgumentError, Arguments, Channel, Failure, Slot, Stage, Step, Taking,
};
use super::Error;
use crate::poly::commitment::Prover;
use crate::rng::RandomSource;
use crate::transcript::TranscriptWrite;
use vstd::prelude::*;

verus! {

/// The values that the arguments of a proof come to, by the argument that they
/// belong to.
pub struct Stages<F, T, R, A: Arguments<F, T, R>> {
    /// The permuted columns of each lookup.
    pub lookup_permuted: spec_fn(Slot) -> A::LookupPermuted,
    /// The product of each permutation argument.
    pub permutation_committed: spec_fn(Slot) -> A::PermutationCommitted,
    /// The product of each lookup.
    pub lookup_committed: spec_fn(Slot) -> A::LookupCommitted,
    /// The polynomial that blinds the quotient.
    pub vanishing_committed: A::VanishingCommitted,
    /// The pieces of the quotient.
    pub vanishing_constructed: A::VanishingConstructed,
    /// The quotient when it has been evaluated.
    pub vanishing_evaluated: A::VanishingEvaluated,
    /// Each permutation argument when it has been evaluated.
    pub permutation_evaluated: spec_fn(Slot) -> A::PermutationEvaluated,
    /// Each lookup when it has been evaluated.
    pub lookup_evaluated: spec_fn(Slot) -> A::LookupEvaluated,
}

/// The value of a stage is the one that belongs to its argument.
pub open spec fn holds<X>(values: spec_fn(Slot) -> X, stage: Stage<X>) -> bool {
    values(stage.slot()) == stage.spec_value()
}

/// The values of stages are those that belong to their arguments.
pub open spec fn hold<X>(values: spec_fn(Slot) -> X, stages: Seq<Stage<X>>) -> bool {
    forall|i: int| 0 <= i < stages.len() ==> holds(values, #[trigger] stages[i])
}

/// The values of lists of stages are those that belong to their arguments.
pub open spec fn all_hold<X>(values: spec_fn(Slot) -> X, stages: Seq<Vec<Stage<X>>>) -> bool {
    forall|i: int| 0 <= i < stages.len() ==> hold(values, (#[trigger] stages[i])@)
}

/// What comes out of a step that comes to a value unless it fails.
pub open spec fn outcome<X>(value: X, failure: Option<ArgumentError>) -> Result<
    X,
    ArgumentError,
> {
    match failure {
        None => Ok(value),
        Some(e) => Err(e),
    }
}

/// A step was attempted by an argument with the values that belong to it, and
/// failed in this way, if at all.
pub open spec fn is_staged<F, P, T, R, A: Arguments<F, T, R>>(
    arguments: &A,
    stages: Stages<F, T, R, A>,
    step: Step<F, P>,
    before: (R, T),
    after: (R, T),
    failure: Option<ArgumentError>,
) -> bool {
    match step {
        Step::LookupPermuted { slot, theta, advice, fixed, instance, challenges } =>
            arguments.permutes_lookup(
            slot.lookup,
            theta,
            advice,
            fixed,
            instance,
            challenges,
            before,
            after,
            outcome((stages.lookup_permuted)(slot), failure),
        ),
        Step::PermutationCommitted { slot, advice, fixed, instance, beta, gamma } =>
            arguments.commits_permutation(
            advice,
            fixed,
            instance,
            beta,
            gamma,
            before,
            after,
            outcome((stages.permutation_committed)(slot), failure),
        ),
        Step::LookupCommitted { slot, beta, gamma } => arguments.commits_product(
            (stages.lookup_permuted)(slot),
            beta,
            gamma,
            before,
            after,
            outcome((stages.lookup_committed)(slot), failure),
        ),
        Step::VanishingCommitted => arguments.commits_vanishing(
            before,
            after,
            outcome(stages.vanishing_committed, failure),
        ),
        Step::Quotient {
            advice_polys,
            instance_polys,
            challenges,
            y,
            beta,
            gamma,
            theta,
            lookups,
            permutations,
            h,
        } => {
            &&& failure is None
            &&& after == before
            &&& arguments.evaluates_h(
                advice_polys,
                instance_polys,
                challenges,
                y,
                beta,
                gamma,
                theta,
                lookups.map_values(
                    |slots: Seq<Slot>| slots.map_values(stages.lookup_committed),
                ),
                permutations.map_values(stages.permutation_committed),
                h,
            )
        },
        Step::VanishingConstructed { h } => arguments.constructs_vanishing(
            stages.vanishing_committed,
            h,
            before,
            after,
            outcome(stages.vanishing_constructed, failure),
        ),
        Step::VanishingEvaluated { x, xn } => after.0 == before.0 && arguments.evaluates_vanishing(
            stages.vanishing_constructed,
            x,
            xn,
            before.1,
            after.1,
            outcome(stages.vanishing_evaluated, failure),
        ),
        Step::CommonPermutationEvaluated { x } => after.0 == before.0
            && channel::may_evaluate_common(arguments, x, before.1, after.1, failure),
        Step::PermutationEvaluated { slot, x } => after.0 == before.0
            && arguments.evaluates_permutation(
            (stages.permutation_committed)(slot),
            x,
            before.1,
            after.1,
            outcome((stages.permutation_evaluated)(slot), failure),
        ),
        Step::LookupEvaluated { slot, x } => after.0 == before.0 && arguments.evaluates_lookup(
            (stages.lookup_committed)(slot),
            x,
            before.1,
            after.1,
            outcome((stages.lookup_evaluated)(slot), failure),
        ),
        Step::PermutationOpened { slot, x, queries } => failure is None && after == before
            && arguments.opens_permutation((stages.permutation_evaluated)(slot), x, queries),
        Step::LookupOpened { slot, x, queries } => failure is None && after == before
            && arguments.opens_lookup((stages.lookup_evaluated)(slot), x, queries),
        Step::CommonPermutationOpened { x, queries } => failure is None && after == before
            && arguments.opens_common(x, queries),
        Step::VanishingOpened { x, queries } => failure is None && after == before
            && arguments.opens_vanishing(stages.vanishing_evaluated, x, queries),
        _ => false,
    }
}

/// How steps are taken, or fail, with the help of arguments that come to these
/// values.
pub open spec fn with_stages<
    F,
    P,
    T: TranscriptWrite<F, P>,
    R: RandomSource<F>,
    A: Arguments<F, T, R>,
>(arguments: &A, stages: Stages<F, T, R, A>) -> Taking<F, P, T, R> {
    |step: Step<F, P>, before: (R, T), after: (R, T)|
        {
            ||| channel::is_plain(step, before, after)
            ||| is_staged(arguments, stages, step, before, after, None)
            ||| {
                &&& step matches Step::Failed { attempt, failure: Failure::Argument(e) }
                &&& is_staged(arguments, stages, *attempt, before, after, Some(e))
            }
        }
}

/// How the steps of a proof are taken, or fail, with the help of arguments that
/// come to these values, and of an opening argument.
pub open spec fn proving<
    F,
    P,
    T: TranscriptWrite<F, P>,
    R: RandomSource<F>,
    A: Arguments<F, T, R>,
    O: Prover<F, T, R>,
>(arguments: &A, stages: Stages<F, T, R, A>, prover: &O) -> Taking<F, P, T, R> {
    |step: Step<F, P>, before: (R, T), after: (R, T)|
        {
            ||| channel::is_plain(step, before, after)
            ||| is_staged(arguments, stages, step, before, after, None)
            ||| {
                &&& step matches Step::Failed { attempt, failure: Failure::Argument(e) }
                &&& is_staged(arguments, stages, *attempt, before, after, Some(e))
            }
            ||| channel::is_opened(prover, step, before, after)
        }
}

/// Going on without arguments is a case of going on with them.
pub broadcast proof fn lemma_plain_is_staged<
    F,
    P,
    T: TranscriptWrite<F, P>,
    R: RandomSource<F>,
    A: Arguments<F, T, R>,
>(
    a: &Channel<F, P, T, R>,
    b: &Channel<F, P, T, R>,
    arguments: &A,
    stages: Stages<F, T, R, A>,
)
    requires
        #[trigger] a.goes_on(b, channel::plainly()),
    ensures
        a.goes_on(b, #[trigger] with_stages::<F, P, T, R, A>(arguments, stages)),
{
    a.lemma_by_more(
        b,
        channel::plainly(),
        with_stages::<F, P, T, R, A>(arguments, stages),
    );
}

/// Going on without openings is a case of going on with them.
pub broadcast proof fn lemma_staged_is_proving<
    F,
    P,
    T: TranscriptWrite<F, P>,
    R: RandomSource<F>,
    A: Arguments<F, T, R>,
    O: Prover<F, T, R>,
>(
    a: &Channel<F, P, T, R>,
    b: &Channel<F, P, T, R>,
    arguments: &A,
    stages: Stages<F, T, R, A>,
    prover: &O,
)
    requires
        #[trigger] a.goes_on(b, with_stages::<F, P, T, R, A>(arguments, stages)),
    ensures
        a.goes_on(b, #[trigger] proving::<F, P, T, R, A, O>(arguments, stages, prover)),
{
    a.lemma_by_more(
        b,
        with_stages::<F, P, T, R, A>(arguments, stages),
        proving::<F, P, T, R, A, O>(arguments, stages, prover),
    );
}

/// Going on with neither is a case of going on with both.
pub broadcast proof fn lemma_plain_is_proving<
    F,
    P,
    T: TranscriptWrite<F, P>,
    R: RandomSource<F>,
    A: Arguments<F, T, R>,
    O: Prover<F, T, R>,
>(
    a: &Channel<F, P, T, R>,
    b: &Channel<F, P, T, R>,
    arguments: &A,
    stages: Stages<F, T, R, A>,
    prover: &O,
)
    requires
        #[trigger] a.goes_on(b, channel::plainly()),
    ensures
        a.goes_on(b, #[trigger] proving::<F, P, T, R, A, O>(arguments, stages, prover)),
{
    a.lemma_by_more(
        b,
        channel::plainly(),
        proving::<F, P, T, R, A, O>(arguments, stages, prover),
    );
}

/// Breaking off without arguments is a case of breaking off with them.
pub broadcast proof fn lemma_plain_stop_is_staged<
    F,
    P,
    T: TranscriptWrite<F, P>,
    R: RandomSource<F>,
    A: Arguments<F, T, R>,
>(
    a: &Channel<F, P, T, R>,
    b: &Channel<F, P, T, R>,
    arguments: &A,
    stages: Stages<F, T, R, A>,
    e: Error,
)
    requires
        #[trigger] a.breaks_off(b, channel::plainly(), e),
    ensures
        a.breaks_off(b, #[trigger] with_stages::<F, P, T, R, A>(arguments, stages), e),
{
    a.lemma_by_more(
        b,
        channel::plainly(),
        with_stages::<F, P, T, R, A>(arguments, stages),
    );
}

/// Breaking off without openings is a case of breaking off with them.
pub broadcast proof fn lemma_staged_stop_is_proving<
    F,
    P,
    T: TranscriptWrite<F, P>,
    R: RandomSource<F>,
    A: Arguments<F, T, R>,
    O: Prover<F, T, R>,
>(
    a: &Channel<F, P, T, R>,
    b: &Channel<F, P, T, R>,
    arguments: &A,
    stages: Stages<F, T, R, A>,
    prover: &O,
    e: Error,
)
    requires
        #[trigger] a.breaks_off(b, with_stages::<F, P, T, R, A>(arguments, stages), e),
    ensures
        a.breaks_off(b, #[trigger] proving::<F, P, T, R, A, O>(arguments, stages, prover), e),
{
    a.lemma_by_more(
        b,
        with_stages::<F, P, T, R, A>(arguments, stages),
        proving::<F, P, T, R, A, O>(arguments, stages, prover),
    );
}

/// Breaking off with neither is a case of breaking off with both.
pub broadcast proof fn lemma_plain_stop_is_proving<
    F,
    P,
    T: TranscriptWrite<F, P>,
    R: RandomSource<F>,
    A: Arguments<F, T, R>,
    O: Prover<F, T, R>,
>(
    a: &Channel<F, P, T, R>,
    b: &Channel<F, P, T, R>,
    arguments: &A,
    stages: Stages<F, T, R, A>,
    prover: &O,
    e: Error,
)
    requires
        #[trigger] a.breaks_off(b, channel::plainly(), e),
    ensures
        a.breaks_off(b, #[trigger] proving::<F, P, T, R, A, O>(arguments, stages, prover), e),
{
    a.lemma_by_more(
        b,
        channel::plainly(),
        proving::<F, P, T, R, A, O>(arguments, stages, prover),
    );
}

/// What is done with less help is done with more.
pub broadcast group group_stages {
    lemma_plain_is_staged,
    lemma_staged_is_proving,
    lemma_plain_is_proving,
    lemma_plain_stop_is_staged,
    lemma_staged_stop_is_proving,
    lemma_plain_stop_is_proving,
}

/// A step that an argument took with the values that belong to it.
pub proof fn lemma_staged<
    F,
    P,
    T: TranscriptWrite<F, P>,
    R: RandomSource<F>,
    A: Arguments<F, T, R>,
>(
    a: &Channel<F, P, T, R>,
    b: &Channel<F, P, T, R>,
    arguments: &A,
    stages: Stages<F, T, R, A>,
    step: Step<F, P>,
)
    requires
        a.goes_on(b, channel::with_arguments::<F, P, T, R, A>(arguments)),
        b.trace() == a.trace().push(step),
        is_staged(arguments, stages, step, a.now(), b.now(), None),
    ensures
        a.goes_on(b, with_stages::<F, P, T, R, A>(arguments, stages)),
{
    reveal(Channel::goes_on);
    let len = a.trace().len() as int;
    assert(b.state(len) == a.now());
    assert(b.trace()[len] == step);
}

/// The reason why an argument failed, by the error that it amounts to.
pub open spec fn reason_of(e: Error) -> ArgumentError {
    match e {
        Error::Transcript(e) => ArgumentError::Transcript(e),
        _ => ArgumentError::ConstraintSystemFailure,
    }
}

/// A step that an argument attempted with the values that belong to it, and that
/// failed.
pub proof fn lemma_staged_stop<
    F,
    P,
    T: TranscriptWrite<F, P>,
    R: RandomSource<F>,
    A: Arguments<F, T, R>,
>(
    a: &Channel<F, P, T, R>,
    b: &Channel<F, P, T, R>,
    arguments: &A,
    stages: Stages<F, T, R, A>,
    step: Step<F, P>,
    e: Error,
)
    requires
        a.breaks_off(b, channel::with_arguments::<F, P, T, R, A>(arguments), e),
        channel::stops_in(a.trace(), seq![step], b.trace()),
        is_staged(arguments, stages, step, a.now(), b.now(), Some(reason_of(e))),
    ensures
        a.breaks_off(b, with_stages::<F, P, T, R, A>(arguments, stages), e),
{
    reveal(Channel::breaks_off);
    let len = a.trace().len() as int;
    assert(b.state(len) == a.now());
    assert(b.trace().last() == b.trace()[len]);
    assert(b.trace().last() matches Step::Failed { attempt, failure: Failure::Argument(f) }
        && *attempt == step && f == reason_of(e));
}

/// An opening that failed.
pub proof fn lemma_opening_stop<
    F,
    P,
    T: TranscriptWrite<F, P>,
    R: RandomSource<F>,
    A: Arguments<F, T, R>,
    O: Prover<F, T, R>,
>(
    a: &Channel<F, P, T, R>,
    b: &Channel<F, P, T, R>,
    arguments: &A,
    stages: Stages<F, T, R, A>,
    prover: &O,
    step: Step<F, P>,
    e: Error,
)
    requires
        step is MultiOpen,
        a.breaks_off(b, channel::with_prover::<F, P, T, R, A, O>(arguments, prover), e),
        channel::stops_in(a.trace(), seq![step], b.trace()),
    ensures
        a.breaks_off(b, proving::<F, P, T, R, A, O>(arguments, stages, prover), e),
{
    reveal(Channel::breaks_off);
    let len = a.trace().len() as int;
    assert(b.trace().last() == b.trace()[len]);
}

/// A step that opened polynomials.
pub proof fn lemma_opened<
    F,
    P,
    T: TranscriptWrite<F, P>,
    R: RandomSource<F>,
    A: Arguments<F, T, R>,
    O: Prover<F, T, R>,
>(
    a: &Channel<F, P, T, R>,
    b: &Channel<F, P, T, R>,
    arguments: &A,
    stages: Stages<F, T, R, A>,
    prover: &O,
    step: Step<F, P>,
)
    requires
        a.goes_on(b, channel::with_prover::<F, P, T, R, A, O>(arguments, prover)),
        b.trace() == a.trace().push(step),
        channel::is_opened(prover, step, a.now(), b.now()),
    ensures
        a.goes_on(b, proving::<F, P, T, R, A, O>(arguments, stages, prover)),
{
    reveal(Channel::goes_on);
    let len = a.trace().len() as int;
    assert(b.state(len) == a.now());
    assert(b.trace()[len] == step);
}

/// The steps of a proof were taken, none of them failed, and the arguments came to
/// some values by them: each step took up those that belong to it as the steps
/// before had left them.
pub open spec fn proves<
    F,
    P,
    T: TranscriptWrite<F, P>,
    R: RandomSource<F>,
    A: Arguments<F, T, R>,
    O: Prover<F, T, R>,
>(
    before: &Channel<F, P, T, R>,
    after: &Channel<F, P, T, R>,
    arguments: &A,
    prover: &O,
) -> bool {
    exists|stages: Stages<F, T, R, A>|
        before.goes_on(after, #[trigger] proving::<F, P, T, R, A, O>(arguments, stages, prover))
}

/// Steps on the transcript and the randomness may come first.
pub proof fn lemma_proves_later<
    F,
    P,
    T: TranscriptWrite<F, P>,
    R: RandomSource<F>,
    A: Arguments<F, T, R>,
    O: Prover<F, T, R>,
>(
    a: &Channel<F, P, T, R>,
    b: &Channel<F, P, T, R>,
    c: &Channel<F, P, T, R>,
    arguments: &A,
    prover: &O,
)
    requires
        a.goes_on(b, channel::plainly()),
        proves(b, c, arguments, prover),
    ensures
        proves(a, c, arguments, prover),
{
    let stages = choose|stages: Stages<F, T, R, A>|
        b.goes_on(c, #[trigger] proving::<F, P, T, R, A, O>(arguments, stages, prover));
    let how = proving::<F, P, T, R, A, O>(arguments, stages, prover);
    lemma_plain_is_proving(a, b, arguments, stages, prover);
    a.lemma_goes_on(b, c, how);
}

/// Steps were taken until one failed, with the help of arguments that come to any
/// values that fit.
pub open spec fn stops_if<
    F,
    P,
    T: TranscriptWrite<F, P>,
    R: RandomSource<F>,
    A: Arguments<F, T, R>,
>(
    before: &Channel<F, P, T, R>,
    after: &Channel<F, P, T, R>,
    arguments: &A,
    fits: spec_fn(Stages<F, T, R, A>) -> bool,
    e: Error,
) -> bool {
    forall|stages: Stages<F, T, R, A>|
        fits(stages) ==> before.breaks_off(
            after,
            #[trigger] with_stages::<F, P, T, R, A>(arguments, stages),
            e,
        )
}

/// The permuted columns of lookups are these.
pub open spec fn permuted_as<F, T, R, A: Arguments<F, T, R>>(
    values: spec_fn(Slot) -> A::LookupPermuted,
) -> spec_fn(Stages<F, T, R, A>) -> bool {
    |stages: Stages<F, T, R, A>| stages.lookup_permuted == values
}

/// The products of permutation arguments are these.
pub open spec fn multiplied_as<F, T, R, A: Arguments<F, T, R>>(
    values: spec_fn(Slot) -> A::PermutationCommitted,
) -> spec_fn(Stages<F, T, R, A>) -> bool {
    |stages: Stages<F, T, R, A>| stages.permutation_committed == values
}

/// The permuted columns of lookups are the given ones, and their products are these.
pub open spec fn committed_as<F, T, R, A: Arguments<F, T, R>>(
    permuted: Seq<Vec<Stage<A::LookupPermuted>>>,
    values: spec_fn(Slot) -> A::LookupCommitted,
) -> spec_fn(Stages<F, T, R, A>) -> bool {
    |stages: Stages<F, T, R, A>|
        all_hold(stages.lookup_permuted, permuted) && stages.lookup_committed == values
}

/// The products of permutation arguments are the given ones, and what they are
/// when evaluated are these.
pub open spec fn evaluated_as<F, T, R, A: Arguments<F, T, R>>(
    committed: Seq<Stage<A::PermutationCommitted>>,
    values: spec_fn(Slot) -> A::PermutationEvaluated,
) -> spec_fn(Stages<F, T, R, A>) -> bool {
    |stages: Stages<F, T, R, A>|
        hold(stages.permutation_committed, committed) && stages.permutation_evaluated == values
}

/// The products of lookups are the given ones, and what they are when evaluated
/// are these.
pub open spec fn looked_up_as<F, T, R, A: Arguments<F, T, R>>(
    committed: Seq<Vec<Stage<A::LookupCommitted>>>,
    values: spec_fn(Slot) -> A::LookupEvaluated,
) -> spec_fn(Stages<F, T, R, A>) -> bool {
    |stages: Stages<F, T, R, A>|
        all_hold(stages.lookup_committed, committed) && stages.lookup_evaluated == values
}

/// The values before evaluation are the given ones, and those after it are the same
/// as in `found`.
pub open spec fn argued_as<F, T, R, A: Arguments<F, T, R>>(
    lookups: Seq<Vec<Stage<A::LookupCommitted>>>,
    permutations: Seq<Stage<A::PermutationCommitted>>,
    vanishing: A::VanishingConstructed,
    found: Stages<F, T, R, A>,
) -> spec_fn(Stages<F, T, R, A>) -> bool {
    |stages: Stages<F, T, R, A>|
        {
            &&& all_hold(stages.lookup_committed, lookups)
            &&& hold(stages.permutation_committed, permutations)
            &&& stages.vanishing_constructed == vanishing
            &&& stages.vanishing_evaluated == found.vanishing_evaluated
            &&& stages.permutation_evaluated == found.permutation_evaluated
            &&& stages.lookup_evaluated == found.lookup_evaluated
        }
}

/// The first steps of a proof were taken until one failed, for a reason that amounts
/// to the error `e`. The arguments came to some values by them: each step took up
/// those that belong to it as the steps before had left them.
pub open spec fn stops_proving<
    F,
    P,
    T: TranscriptWrite<F, P>,
    R: RandomSource<F>,
    A: Arguments<F, T, R>,
    O: Prover<F, T, R>,
>(
    before: &Channel<F, P, T, R>,
    after: &Channel<F, P, T, R>,
    arguments: &A,
    prover: &O,
    e: Error,
) -> bool {
    exists|stages: Stages<F, T, R, A>|
        before.breaks_off(
            after,
            #[trigger] proving::<F, P, T, R, A, O>(arguments, stages, prover),
            e,
        )
}

/// Steps on the transcript and the randomness may come first.
pub proof fn lemma_stops_proving_later<
    F,
    P,
    T: TranscriptWrite<F, P>,
    R: RandomSource<F>,
    A: Arguments<F, T, R>,
    O: Prover<F, T, R>,
>(
    a: &Channel<F, P, T, R>,
    b: &Channel<F, P, T, R>,
    c: &Channel<F, P, T, R>,
    arguments: &A,
    prover: &O,
    e: Error,
)
    requires
        a.goes_on(b, channel::plainly()),
        stops_proving(b, c, arguments, prover, e),
    ensures
        stops_proving(a, c, arguments, prover, e),
{
    let stages = choose|stages: Stages<F, T, R, A>|
        b.breaks_off(
            c,
            #[trigger] proving::<F, P, T, R, A, O>(arguments, stages, prover),
            e,
        );
    let how = proving::<F, P, T, R, A, O>(arguments, stages, prover);
    lemma_plain_is_proving(a, b, arguments, stages, prover);
    a.lemma_breaks_off(b, c, how, e);
}

} // verus!
