//! What the steps of a trace did to the transcript, to the randomness and with the
//! arguments.

use super::channel;
use super::channel::{ArgumentError, Arguments, Channel, Failure, Slot, Step};
use super::stages;
use super::stages::Stages;
use super::Error;
use crate::poly;
use crate::poly::commitment::Prover;
use crate::rng::RandomSource;
use crate::transcript;
use crate::transcript::{Entry, TranscriptError, TranscriptWrite};
use vstd::prelude::*;

verus! {

/// The step took a challenge or a random element from where it comes from, or entered
/// in the transcript just what it says, and touched nothing else.
pub open spec fn touches<F, P, T: TranscriptWrite<F, P>, R: RandomSource<F>>(
    step: Step<F, P>,
    before: (R, T),
    after: (R, T),
) -> bool {
    match step {
        Step::Squeeze(challenge) => after.0 == before.0 && before.1.squeezes(&after.1, challenge),
        Step::Random(value) => after.1 == before.1 && before.0.draws(&after.0, value),
        Step::CommonScalar(scalar) => enters(before, after, Entry::CommonScalar(scalar), None),
        Step::CommonPoint(point) => enters(before, after, Entry::CommonPoint(point), None),
        Step::WriteScalar(scalar) => enters(before, after, Entry::WrittenScalar(scalar), None),
        Step::WritePoint(point) => enters(before, after, Entry::WrittenPoint(point), None),
        _ => false,
    }
}

/// The value was entered in the transcript, or was to be, and nothing else was touched.
pub open spec fn enters<F, P, T: TranscriptWrite<F, P>, R>(
    before: (R, T),
    after: (R, T),
    entry: Entry<F, P>,
    failure: Option<TranscriptError>,
) -> bool {
    after.0 == before.0 && before.1.enters(&after.1, entry, failure)
}

/// The transcript refused just what the step was to enter, and nothing else was
/// touched.
pub open spec fn is_refused_entry<F, P, T: TranscriptWrite<F, P>, R>(
    step: Step<F, P>,
    before: (R, T),
    after: (R, T),
    e: TranscriptError,
) -> bool {
    match step {
        Step::CommonScalar(scalar) => enters(before, after, Entry::CommonScalar(scalar), Some(e)),
        Step::CommonPoint(point) => enters(before, after, Entry::CommonPoint(point), Some(e)),
        Step::WriteScalar(scalar) => enters(before, after, Entry::WrittenScalar(scalar), Some(e)),
        Step::WritePoint(point) => enters(before, after, Entry::WrittenPoint(point), Some(e)),
        _ => false,
    }
}

/// What an argument came to, or why it did not.
pub open spec fn comes_to<X>(
    outcome: Result<X, ArgumentError>,
    value: X,
    failure: Option<ArgumentError>,
) -> bool {
    match failure {
        None => outcome == Ok::<X, ArgumentError>(value),
        Some(e) => outcome == Err::<X, ArgumentError>(e),
    }
}

/// The products of lookups are the ones at these places.
pub open spec fn are_at<X>(
    values: spec_fn(Slot) -> X,
    slots: Seq<Seq<Slot>>,
    found: Seq<Seq<X>>,
) -> bool {
    &&& found.len() == slots.len()
    &&& forall|i: int| 0 <= i < slots.len() ==> (#[trigger] found[i]).len() == slots[i].len()
    &&& forall|i: int, j: int|
        0 <= i < slots.len() && 0 <= j < slots[i].len() ==> #[trigger] found[i][j] == values(
            slots[i][j],
        )
}

/// The step handed to the argument that it names just the values that it tells, and the
/// values that the same argument of the same circuit had come to before; what that came
/// to is kept under the name of that argument and circuit.
pub open spec fn runs<F, P, T, R, A: Arguments<F, T, R>>(
    arguments: &A,
    v: Stages<F, T, R, A>,
    step: Step<F, P>,
    before: (R, T),
    after: (R, T),
    failure: Option<ArgumentError>,
) -> bool {
    match step {
        Step::LookupPermuted { slot, theta, advice, fixed, instance, challenges } => exists|
            r: Result<A::LookupPermuted, ArgumentError>,
        |
            comes_to(r, (v.lookup_permuted)(slot), failure) && #[trigger] arguments.permutes_lookup(
                slot.lookup,
                theta,
                advice,
                fixed,
                instance,
                challenges,
                before,
                after,
                r,
            ),
        Step::PermutationCommitted { slot, advice, fixed, instance, beta, gamma } => exists|
            r: Result<A::PermutationCommitted, ArgumentError>,
        |
            comes_to(r, (v.permutation_committed)(slot), failure)
                && #[trigger] arguments.commits_permutation(
                advice,
                fixed,
                instance,
                beta,
                gamma,
                before,
                after,
                r,
            ),
        Step::LookupCommitted { slot, beta, gamma } => exists|
            r: Result<A::LookupCommitted, ArgumentError>,
        |
            comes_to(r, (v.lookup_committed)(slot), failure) && #[trigger] arguments.commits_product(
                (v.lookup_permuted)(slot),
                beta,
                gamma,
                before,
                after,
                r,
            ),
        Step::VanishingCommitted => exists|r: Result<A::VanishingCommitted, ArgumentError>|
            comes_to(r, v.vanishing_committed, failure) && #[trigger] arguments.commits_vanishing(
                before,
                after,
                r,
            ),
        Step::Quotient {
            advice_polys,
            instance_polys,
            challenges,
            y,
            beta,
            gamma,
            theta,
            lookups,
            permutations,
            h,
        } => failure is None && after == before && exists|
            products: Seq<Seq<A::LookupCommitted>>,
            permuted: Seq<A::PermutationCommitted>,
        |
            {
                &&& are_at(v.lookup_committed, lookups, products)
                &&& are_at(v.permutation_committed, seq![permutations], seq![permuted])
                &&& #[trigger] arguments.evaluates_h(
                    advice_polys,
                    instance_polys,
                    challenges,
                    y,
                    beta,
                    gamma,
                    theta,
                    products,
                    permuted,
                    h,
                )
            },
        Step::VanishingConstructed { h } => exists|
            r: Result<A::VanishingConstructed, ArgumentError>,
        |
            comes_to(r, v.vanishing_constructed, failure)
                && #[trigger] arguments.constructs_vanishing(
                v.vanishing_committed,
                h,
                before,
                after,
                r,
            ),
        Step::VanishingEvaluated { x, xn } => after.0 == before.0 && exists|
            r: Result<A::VanishingEvaluated, ArgumentError>,
        |
            comes_to(r, v.vanishing_evaluated, failure) && #[trigger] arguments.evaluates_vanishing(
                v.vanishing_constructed,
                x,
                xn,
                before.1,
                after.1,
                r,
            ),
        Step::CommonPermutationEvaluated { x } => after.0 == before.0 && exists|
            r: Result<(), ArgumentError>,
        |
            comes_to(r, r->Ok_0, failure) && #[trigger] arguments.evaluates_common(
                x,
                before.1,
                after.1,
                r,
            ),
        Step::PermutationEvaluated { slot, x } => after.0 == before.0 && exists|
            r: Result<A::PermutationEvaluated, ArgumentError>,
        |
            comes_to(r, (v.permutation_evaluated)(slot), failure)
                && #[trigger] arguments.evaluates_permutation(
                (v.permutation_committed)(slot),
                x,
                before.1,
                after.1,
                r,
            ),
        Step::LookupEvaluated { slot, x } => after.0 == before.0 && exists|
            r: Result<A::LookupEvaluated, ArgumentError>,
        |
            comes_to(r, (v.lookup_evaluated)(slot), failure)
                && #[trigger] arguments.evaluates_lookup(
                (v.lookup_committed)(slot),
                x,
                before.1,
                after.1,
                r,
            ),
        Step::PermutationOpened { slot, x, queries } => failure is None && after == before
            && arguments.opens_permutation((v.permutation_evaluated)(slot), x, queries),
        Step::LookupOpened { slot, x, queries } => failure is None && after == before
            && arguments.opens_lookup((v.lookup_evaluated)(slot), x, queries),
        Step::CommonPermutationOpened { x, queries } => failure is None && after == before
            && arguments.opens_common(x, queries),
        Step::VanishingOpened { x, queries } => failure is None && after == before
            && arguments.opens_vanishing(v.vanishing_evaluated, x, queries),
        _ => false,
    }
}

/// The step was taken: see [`touches`] and [`runs`]. What is opened is just what the
/// step tells.
pub open spec fn is_taken<F, P, T, R, A, O>(
    arguments: &A,
    prover: &O,
    v: Stages<F, T, R, A>,
    step: Step<F, P>,
    before: (R, T),
    after: (R, T),
) -> bool where
    T: TranscriptWrite<F, P>,
    R: RandomSource<F>,
    A: Arguments<F, T, R>,
    O: Prover<F, T, R>,
 {
    ||| touches(step, before, after)
    ||| runs(arguments, v, step, before, after, None)
    ||| step matches Step::MultiOpen { queries } && exists|r: Result<(), poly::Error>|
        r is Ok && #[trigger] prover.opens(queries, before, after, r)
}

/// The step failed in this way.
pub open spec fn is_failed<F, P, T, R, A, O>(
    arguments: &A,
    prover: &O,
    v: Stages<F, T, R, A>,
    step: Step<F, P>,
    failure: Failure,
    before: (R, T),
    after: (R, T),
) -> bool where
    T: TranscriptWrite<F, P>,
    R: RandomSource<F>,
    A: Arguments<F, T, R>,
    O: Prover<F, T, R>,
 {
    match failure {
        Failure::Transcript(e) => is_refused_entry(step, before, after, e),
        Failure::Argument(e) => runs(arguments, v, step, before, after, Some(e)),
        Failure::Opening => step matches Step::MultiOpen { queries } && exists|
            r: Result<(), poly::Error>,
        | r is Err && #[trigger] prover.opens(queries, before, after, r),
    }
}

/// The error tells what went wrong: an error of the transcript is passed on, wherever
/// it came up, and everything else is a failure of the constraint system.
pub open spec fn tells(e: Error, failure: Failure) -> bool {
    match failure {
        Failure::Transcript(t) => e == Error::Transcript(t),
        Failure::Argument(ArgumentError::Transcript(t)) => e == Error::Transcript(t),
        Failure::Argument(ArgumentError::ConstraintSystemFailure) => e
            == Error::ConstraintSystemFailure,
        Failure::Opening => e == Error::ConstraintSystemFailure,
    }
}

proof fn lemma_plain_touches<F, P, T: TranscriptWrite<F, P>, R: RandomSource<F>>(
    step: Step<F, P>,
    before: (R, T),
    after: (R, T),
)
    requires
        channel::is_plain(step, before, after),
    ensures
        !(step is Failed) ==> touches(step, before, after),
        step matches Step::Failed { attempt, failure } ==> (failure matches Failure::Transcript(e)
            && is_refused_entry(*attempt, before, after, e)),
{
}

proof fn lemma_staged_runs<F, P, T, R, A: Arguments<F, T, R>>(
    arguments: &A,
    v: Stages<F, T, R, A>,
    step: Step<F, P>,
    before: (R, T),
    after: (R, T),
    failure: Option<ArgumentError>,
)
    requires
        stages::is_staged(arguments, v, step, before, after, failure),
    ensures
        runs(arguments, v, step, before, after, failure),
{
    match step {
        Step::Quotient {
            advice_polys,
            instance_polys,
            challenges,
            y,
            beta,
            gamma,
            theta,
            lookups,
            permutations,
            h,
        } => {
            let products = lookups.map_values(
                |slots: Seq<Slot>| slots.map_values(v.lookup_committed),
            );
            let permuted = permutations.map_values(v.permutation_committed);
            assert(are_at(v.lookup_committed, lookups, products));
            assert(are_at(v.permutation_committed, seq![permutations], seq![permuted]));
        },
        Step::CommonPermutationEvaluated { x } => {
            let r = choose|r: Result<(), ArgumentError>|
                {
                    &&& #[trigger] arguments.evaluates_common(x, before.1, after.1, r)
                    &&& transcript::failure_of(r) == failure
                };
            assert(comes_to(r, r->Ok_0, failure));
        },
        Step::LookupPermuted { slot, .. } => {
            let r = stages::outcome((v.lookup_permuted)(slot), failure);
            assert(comes_to(r, (v.lookup_permuted)(slot), failure));
        },
        Step::PermutationCommitted { slot, .. } => {
            let r = stages::outcome((v.permutation_committed)(slot), failure);
            assert(comes_to(r, (v.permutation_committed)(slot), failure));
        },
        Step::LookupCommitted { slot, .. } => {
            let r = stages::outcome((v.lookup_committed)(slot), failure);
            assert(comes_to(r, (v.lookup_committed)(slot), failure));
        },
        Step::VanishingCommitted => {
            let r = stages::outcome(v.vanishing_committed, failure);
            assert(comes_to(r, v.vanishing_committed, failure));
        },
        Step::VanishingConstructed { .. } => {
            let r = stages::outcome(v.vanishing_constructed, failure);
            assert(comes_to(r, v.vanishing_constructed, failure));
        },
        Step::VanishingEvaluated { .. } => {
            let r = stages::outcome(v.vanishing_evaluated, failure);
            assert(comes_to(r, v.vanishing_evaluated, failure));
        },
        Step::PermutationEvaluated { slot, .. } => {
            let r = stages::outcome((v.permutation_evaluated)(slot), failure);
            assert(comes_to(r, (v.permutation_evaluated)(slot), failure));
        },
        Step::LookupEvaluated { slot, .. } => {
            let r = stages::outcome((v.lookup_evaluated)(slot), failure);
            assert(comes_to(r, (v.lookup_evaluated)(slot), failure));
        },
        _ => {},
    }
}

/// The later channel is the earlier one with steps added, each of which started from
/// where the one before had left off.
pub open spec fn follows<F, P, T, R>(
    a: &Channel<F, P, T, R>,
    b: &Channel<F, P, T, R>,
) -> bool {
    &&& a.trace().is_prefix_of(b.trace())
    &&& b.state(a.trace().len() as int) == a.now()
    &&& b.state(b.trace().len() as int) == b.now()
}

/// All steps were taken.
pub open spec fn are_taken<F, P, T, R, A, O>(
    a: &Channel<F, P, T, R>,
    b: &Channel<F, P, T, R>,
    arguments: &A,
    prover: &O,
    v: Stages<F, T, R, A>,
    count: int,
) -> bool where
    T: TranscriptWrite<F, P>,
    R: RandomSource<F>,
    A: Arguments<F, T, R>,
    O: Prover<F, T, R>,
 {
    forall|k: int|
        a.trace().len() <= k < count ==> is_taken(
            arguments,
            prover,
            v,
            #[trigger] b.trace()[k],
            b.state(k),
            b.state(k + 1),
        )
}

/// In a proof every step of the trace was taken with just the values that it tells: see
/// [`is_taken`].
pub proof fn lemma_effects_of_a_proof<F, P, T, R, A, O>(
    a: &Channel<F, P, T, R>,
    b: &Channel<F, P, T, R>,
    arguments: &A,
    prover: &O,
) where
    T: TranscriptWrite<F, P>,
    R: RandomSource<F>,
    A: Arguments<F, T, R>,
    O: Prover<F, T, R>,

    requires
        stages::proves(a, b, arguments, prover),
    ensures
        follows(a, b),
        exists|v: Stages<F, T, R, A>| #[trigger]
            are_taken(a, b, arguments, prover, v, b.trace().len() as int),
{
    let v = choose|v: Stages<F, T, R, A>|
        a.goes_on(b, #[trigger] stages::proving::<F, P, T, R, A, O>(arguments, v, prover));
    let how = stages::proving::<F, P, T, R, A, O>(arguments, v, prover);
    reveal(Channel::goes_on);
    lemma_follows(a, b);
    assert forall|k: int| a.trace().len() <= k < b.trace().len() implies is_taken(
        arguments,
        prover,
        v,
        #[trigger] b.trace()[k],
        b.state(k),
        b.state(k + 1),
    ) by {
        let step = b.trace()[k];
        assert(!(step is Failed));
        assert(how(step, b.state(k), b.state(k + 1)));
        lemma_taken(arguments, prover, v, step, b.state(k), b.state(k + 1));
    }
    assert(are_taken(a, b, arguments, prover, v, b.trace().len() as int));
}

proof fn lemma_follows<F, P, T, R>(a: &Channel<F, P, T, R>, b: &Channel<F, P, T, R>)
    requires
        a.precedes(b),
    ensures
        follows(a, b),
{
    assert(b.trace().take(a.trace().len() as int) =~= a.trace());
}

proof fn lemma_taken<F, P, T, R, A, O>(
    arguments: &A,
    prover: &O,
    v: Stages<F, T, R, A>,
    step: Step<F, P>,
    before: (R, T),
    after: (R, T),
) where
    T: TranscriptWrite<F, P>,
    R: RandomSource<F>,
    A: Arguments<F, T, R>,
    O: Prover<F, T, R>,

    requires
        (stages::proving::<F, P, T, R, A, O>(arguments, v, prover))(step, before, after),
    ensures
        !(step is Failed) ==> is_taken(arguments, prover, v, step, before, after),
        step matches Step::Failed { attempt, failure } ==> is_failed(
            arguments,
            prover,
            v,
            *attempt,
            failure,
            before,
            after,
        ),
{
    if channel::is_plain(step, before, after) {
        lemma_plain_touches(step, before, after);
    } else if stages::is_staged(arguments, v, step, before, after, None) {
        lemma_staged_runs(arguments, v, step, before, after, None);
    } else if channel::is_opened(prover, step, before, after) {
    } else if let Step::Failed { attempt, failure: Failure::Argument(e) } = step {
        lemma_staged_runs(arguments, v, *attempt, before, after, Some(e));
    }
}

/// In a proof that was stopped every step but the last was taken with just the values
/// that it tells, and the last one was attempted with them. The error tells why it
/// failed: see [`tells`].
pub proof fn lemma_effects_of_a_stopped_proof<F, P, T, R, A, O>(
    a: &Channel<F, P, T, R>,
    b: &Channel<F, P, T, R>,
    arguments: &A,
    prover: &O,
    e: Error,
) where
    T: TranscriptWrite<F, P>,
    R: RandomSource<F>,
    A: Arguments<F, T, R>,
    O: Prover<F, T, R>,

    requires
        stages::stops_proving(a, b, arguments, prover, e),
    ensures
        follows(a, b),
        a.trace().len() < b.trace().len(),
        exists|v: Stages<F, T, R, A>|
            {
                &&& #[trigger] are_taken(a, b, arguments, prover, v, b.trace().len() - 1)
                &&& b.trace().last() matches Step::Failed { attempt, failure } && is_failed(
                    arguments,
                    prover,
                    v,
                    *attempt,
                    failure,
                    b.state(b.trace().len() - 1),
                    b.now(),
                ) && tells(e, failure)
            },
{
    let v = choose|v: Stages<F, T, R, A>|
        a.breaks_off(b, #[trigger] stages::proving::<F, P, T, R, A, O>(arguments, v, prover), e);
    let how = stages::proving::<F, P, T, R, A, O>(arguments, v, prover);
    reveal(Channel::breaks_off);
    lemma_follows(a, b);
    let last = b.trace().len() - 1;
    assert forall|k: int| a.trace().len() <= k < last implies is_taken(
        arguments,
        prover,
        v,
        #[trigger] b.trace()[k],
        b.state(k),
        b.state(k + 1),
    ) by {
        let step = b.trace()[k];
        assert(how(step, b.state(k), b.state(k + 1)));
        lemma_taken(arguments, prover, v, step, b.state(k), b.state(k + 1));
    }
    assert(how(b.trace()[last], b.state(last), b.state(last + 1)));
    lemma_taken(arguments, prover, v, b.trace()[last], b.state(last), b.state(last + 1));
    assert(are_taken(a, b, arguments, prover, v, last));
}

/// Without arguments, every step of the trace entered in the transcript just what it
/// tells, or took a challenge or a random element: see [`touches`].
pub proof fn lemma_effects_without_arguments<F, P, T, R>(
    a: &Channel<F, P, T, R>,
    b: &Channel<F, P, T, R>,
    k: int,
) where T: TranscriptWrite<F, P>, R: RandomSource<F>
    requires
        a.goes_on(b, channel::plainly()),
        a.trace().len() <= k < b.trace().len(),
    ensures
        follows(a, b),
        touches(b.trace()[k], b.state(k), b.state(k + 1)),
{
    reveal(Channel::goes_on);
    lemma_follows(a, b);
    let how = channel::plainly::<F, P, T, R>();
    assert(how(b.trace()[k], b.state(k), b.state(k + 1)));
    lemma_plain_touches(b.trace()[k], b.state(k), b.state(k + 1));
}

/// Without arguments, a run is stopped only where the transcript refuses a value, and
/// the error is the one that it gave.
pub proof fn lemma_stop_without_arguments<F, P, T, R>(
    a: &Channel<F, P, T, R>,
    b: &Channel<F, P, T, R>,
    e: Error,
    k: int,
) where T: TranscriptWrite<F, P>, R: RandomSource<F>
    requires
        a.breaks_off(b, channel::plainly(), e),
        a.trace().len() <= k < b.trace().len(),
    ensures
        follows(a, b),
        k < b.trace().len() - 1 ==> touches(b.trace()[k], b.state(k), b.state(k + 1)),
        k == b.trace().len() - 1 ==> (b.trace()[k] matches Step::Failed { attempt, failure } && (
        failure matches Failure::Transcript(t) && is_refused_entry(
            *attempt,
            b.state(k),
            b.now(),
            t,
        ) && e == Error::Transcript(t))),
{
    reveal(Channel::breaks_off);
    lemma_follows(a, b);
    let how = channel::plainly::<F, P, T, R>();
    assert(how(b.trace()[k], b.state(k), b.state(k + 1)));
    lemma_plain_touches(b.trace()[k], b.state(k), b.state(k + 1));
}

} // verus!
