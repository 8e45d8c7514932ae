//! Creation of proofs.

use super::arguments;
use super::arguments::{commit_arguments, evaluate_arguments};
use super::channel;
use super::channel::{Arguments, Channel, Slot, Step};
use super::circuit;
use super::circuit::Circuit;
use super::commit;
use super::commit::{absorb_instances, commit_columns, squeeze_challenges};
use super::protocol;
use super::protocol::ProofRecord;
use super::queries::{evaluate_columns, open_arguments};
use super::stages;
use super::stages::Stages;
use super::steps;
use super::steps::{CircuitRecord, PhaseRecord};
use super::witness;
use super::witness::{
    build_instance_single, build_instances, check_instances, collect_challenges,
    column_and_challenge_indices, run_phase1_synthesis, AdviceColumns, AdviceCommitted,
    InstanceSingle,
};
use super::{Error, ProvingKey};
use crate::curve::Curve;
use crate::field::Field;
use crate::poly::commitment::{Params, Prover};
use crate::poly::{LagrangeCoeff, Polynomial};
use crate::rng::RandomSource;
use crate::transcript::TranscriptWrite;
use std::collections::HashMap;
use vstd::prelude::*;

verus! {

broadcast use {channel::group_channel, channel::group_ways, stages::group_stages};

/// Post-phase-1 half of proof generation: given committed instance/advice
/// singles and their per-phase challenges, drives lookups, permutations,
/// vanishing, evaluations, and multiopen.
pub fn create_proof_from_committed<F, P, T, R, A, O>(
    pk: &ProvingKey<F>,
    arguments: &A,
    prover: &O,
    instance: Vec<InstanceSingle<F>>,
    advice: Vec<AdviceCommitted<F, LagrangeCoeff>>,
    challenges: Vec<F>,
    channel: &mut Channel<F, P, T, R>,
) -> (r: Result<(), Error>) where
    F: Field,
    T: TranscriptWrite<F, P>,
    R: RandomSource<F>,
    A: Arguments<F, T, R>,
    O: Prover<F, T, R>,

    requires
        pk.wf(pk.vk.domain.n),
        instance@.len() == advice@.len(),
        forall|i: int|
            0 <= i < instance@.len() ==> (#[trigger] instance@[i]).instance_polys@.len()
                == pk.vk.cs.num_instance_columns,
        forall|i: int|
            0 <= i < advice@.len() ==> witness::advice_fits(
                &pk.vk.cs,
                pk.vk.domain.n,
                #[trigger] advice@[i],
            ),
    ensures
        r is Ok ==> protocol::is_proof(
            pk,
            O::QUERY_INSTANCE,
            instance@,
            advice@,
            challenges@,
            old(channel).trace(),
            final(channel).trace(),
        ),
        r is Ok ==> stages::proves(old(channel), final(channel), arguments, prover),
        r matches Err(e) ==> {
            &&& stages::stops_proving(old(channel), final(channel), arguments, prover, e)
            &&& protocol::is_stopped_proof(
                pk,
                O::QUERY_INSTANCE,
                instance@,
                advice@,
                challenges@,
                old(channel).trace(),
                final(channel).trace(),
            )
        },
{
    let ghost before = channel.trace();
    let ghost given = advice@;
    let (advice, lookups, permutations, vanishing, quotient, used) = match commit_arguments(
        pk,
        arguments,
        &instance,
        advice,
        &challenges,
        channel,
    ) {
        Ok(committed) => committed,
        Err(e) => {
            proof {
                let found = choose|found: Stages<F, T, R, A>|
                    old(channel).breaks_off(
                        channel,
                        #[trigger] stages::with_stages(arguments, found),
                        e,
                    );
                let how = stages::proving::<F, P, T, R, A, O>(arguments, found, prover);
                assert(old(channel).breaks_off(channel, how, e));
            }
            return Err(e);
        },
    };
    let ghost at_quotient = *channel;
    let ghost committed = (lookups@, permutations@, vanishing.spec_value());
    let ghost known = Stages::<F, T, R, A> {
        lookup_permuted: used@.0,
        permutation_committed: |slot: Slot| committed.1[slot.circuit].spec_value(),
        lookup_committed: |slot: Slot| committed.0[slot.circuit]@[slot.lookup].spec_value(),
        vanishing_committed: used@.1,
        vanishing_constructed: committed.2,
        ..arbitrary()
    };
    proof {
        assert(channel::slots_of(committed.1).len() == committed.1.len());
        arguments::lemma_products_held(pk, known, committed.0, committed.1);
    }
    let (x, xn, evaluation) = match evaluate_columns(
        pk,
        O::QUERY_INSTANCE,
        &instance,
        &advice,
        channel,
    ) {
        Ok(evaluated) => evaluated,
        Err(e) => {
            proof {
                let how = stages::proving::<F, P, T, R, A, O>(arguments, known, prover);
                assert(old(channel).goes_on(
                    &at_quotient,
                    stages::with_stages(arguments, known),
                ));
                assert(at_quotient.breaks_off(channel, how, e));
                assert(old(channel).breaks_off(channel, how, e));
                protocol::lemma_stopped_in_columns(
                    pk,
                    O::QUERY_INSTANCE,
                    instance@,
                    given,
                    challenges@,
                    quotient@,
                    before,
                    channel.trace(),
                );
            }
            return Err(e);
        },
    };
    let ghost at_columns = *channel;
    assert(channel::slots_of(permutations@).len() == permutations@.len());
    let (lookups, permutations, vanishing) = match evaluate_arguments(
        pk,
        arguments,
        lookups,
        permutations,
        vanishing,
        x,
        xn,
        channel,
    ) {
        Ok(evaluated) => evaluated,
        Err(e) => {
            proof {
                let found = choose|found: Stages<F, T, R, A>|
                    stages::stops_if(
                        &at_columns,
                        channel,
                        arguments,
                        #[trigger] stages::argued_as(
                            committed.0,
                            committed.1,
                            committed.2,
                            found,
                        ),
                        e,
                    );
                let v = Stages::<F, T, R, A> {
                    vanishing_evaluated: found.vanishing_evaluated,
                    permutation_evaluated: found.permutation_evaluated,
                    lookup_evaluated: found.lookup_evaluated,
                    ..known
                };
                let how = stages::with_stages::<F, P, T, R, A>(arguments, v);
                assert((stages::argued_as(committed.0, committed.1, committed.2, found))(v));
                assert(old(channel).goes_on(&at_quotient, how));
                assert(old(channel).goes_on(&at_columns, how));
                assert(old(channel).breaks_off(channel, how, e));
                assert(old(channel).breaks_off(
                    channel,
                    stages::proving(arguments, v, prover),
                    e,
                ));
                protocol::lemma_stopped_in_arguments(
                    pk,
                    O::QUERY_INSTANCE,
                    instance@,
                    given,
                    challenges@,
                    quotient@,
                    evaluation@,
                    before,
                    channel.trace(),
                );
            }
            return Err(e);
        },
    };
    let ghost at_evaluations = *channel;
    let ghost all_known = Stages::<F, T, R, A> {
        vanishing_evaluated: vanishing.spec_value(),
        permutation_evaluated: |slot: Slot| permutations@[slot.circuit].spec_value(),
        lookup_evaluated: |slot: Slot| lookups@[slot.circuit]@[slot.lookup].spec_value(),
        ..known
    };
    proof {
        let how = stages::with_stages::<F, P, T, R, A>(arguments, all_known);
        arguments::lemma_found_by_circuit(all_known.permutation_evaluated, permutations@);
        assert(channel::all_slots_of(lookups@).len() == lookups@.len());
        arguments::lemma_values_hold(
            all_known.lookup_evaluated,
            lookups@,
            pk.vk.cs.num_lookups as nat,
        );
        assert(old(channel).goes_on(&at_quotient, how));
        assert(at_columns.goes_on(&at_evaluations, how));
        assert(old(channel).goes_on(&at_evaluations, how));
    }
    let ghost evaluated = protocol::quotient_steps::<F, P>(
        pk,
        instance@,
        given,
        challenges@,
        quotient@,
    ) + protocol::evaluation_steps(
        &pk.vk.cs,
        O::QUERY_INSTANCE,
        instance@.len(),
        evaluation@,
    );
    assert(channel.trace() =~= before + evaluated);
    let opening = match open_arguments(
        pk,
        arguments,
        prover,
        &instance,
        &advice,
        &lookups,
        &permutations,
        &vanishing,
        x,
        channel,
    ) {
        Ok(opening) => opening,
        Err(e) => {
            proof {
                assert(old(channel).breaks_off(
                    channel,
                    stages::proving(arguments, all_known, prover),
                    e,
                ));
                assert(before + evaluated =~= before + protocol::quotient_steps::<F, P>(
                    pk,
                    instance@,
                    given,
                    challenges@,
                    quotient@,
                ) + protocol::evaluation_steps(
                    &pk.vk.cs,
                    O::QUERY_INSTANCE,
                    instance@.len(),
                    evaluation@,
                ));
                protocol::lemma_stopped_in_opening(
                    pk,
                    O::QUERY_INSTANCE,
                    instance@,
                    given,
                    challenges@,
                    quotient@,
                    evaluation@,
                    before,
                    channel.trace(),
                );
            }
            return Err(e);
        },
    };
    proof {
        let record = ProofRecord {
            quotient: quotient@,
            evaluation: evaluation@,
            opening: opening@,
        };
        assert(protocol::proof_recorded(pk, O::QUERY_INSTANCE, instance@, given, record));
        assert(channel.trace() =~= before + protocol::proof_steps(
            pk,
            O::QUERY_INSTANCE,
            instance@,
            given,
            challenges@,
            record,
        ));
        let v = all_known;
        assert(old(channel).goes_on(channel, stages::proving(arguments, v, prover)));
    }
    Ok(())
}

/// The steps that took a channel from `before` to `after` are those of a proof
/// for the circuits, and no others: the verifying key is absorbed, the
/// witnesses are committed to, and the arguments are run on them.
pub open spec fn is_created<F: Field, C: Curve, S: Params<F, C>>(
    params: &S,
    pk: &ProvingKey<F>,
    query_instance: bool,
    instances: Seq<Seq<Seq<F>>>,
    instance: Seq<InstanceSingle<F>>,
    advice: Seq<AdviceCommitted<F, LagrangeCoeff>>,
    challenges: Seq<F>,
    before: Seq<Step<F, C::AffineRepr>>,
    after: Seq<Step<F, C::AffineRepr>>,
) -> bool {
    &&& witness::are_instance_singles(&pk.vk.domain, instances, instance)
    &&& exists|middle: Seq<Step<F, C::AffineRepr>>|
        {
            &&& #[trigger] witness::is_phase1::<F, C, S>(
                params,
                pk,
                query_instance,
                instances,
                instance,
                advice,
                challenges,
                before.push(Step::CommonScalar(pk.vk.transcript_repr)),
                middle,
            )
            &&& protocol::is_proof(
                pk,
                query_instance,
                instance,
                advice,
                challenges,
                middle,
                after,
            )
        }
}

/// The steps that took a channel from `before` to `after` are those of a proof
/// for the witnesses that the synthesis of the circuits has assigned.
pub open spec fn proof_synthesized<
    F: Field,
    C: Curve,
    S: Params<F, C>,
    ConcreteCircuit: Circuit<F>,
>(
    params: &S,
    pk: &ProvingKey<F>,
    query_instance: bool,
    circuits: Seq<ConcreteCircuit>,
    instances: Seq<Seq<Seq<F>>>,
    before: Seq<Step<F, C::AffineRepr>>,
    after: Seq<Step<F, C::AffineRepr>>,
) -> bool {
    exists|
        instance: Seq<InstanceSingle<F>>,
        advice: Seq<AdviceCommitted<F, LagrangeCoeff>>,
        challenges: Seq<F>,
    |
        {
            &&& #[trigger] is_created::<F, C, S>(
                params,
                pk,
                query_instance,
                instances,
                instance,
                advice,
                challenges,
                before,
                after,
            )
            &&& witness::all_synthesized(pk, circuits, instances, challenges, advice)
        }
}

/// The steps that took a channel from `before` to `after` are the first ones of
/// a proof for the circuits, up to some after the witnesses were committed to,
/// and the next one failed.
pub open spec fn is_abandoned<F: Field, C: Curve, S: Params<F, C>>(
    params: &S,
    pk: &ProvingKey<F>,
    query_instance: bool,
    instances: Seq<Seq<Seq<F>>>,
    instance: Seq<InstanceSingle<F>>,
    advice: Seq<AdviceCommitted<F, LagrangeCoeff>>,
    challenges: Seq<F>,
    before: Seq<Step<F, C::AffineRepr>>,
    after: Seq<Step<F, C::AffineRepr>>,
) -> bool {
    &&& witness::are_instance_singles(&pk.vk.domain, instances, instance)
    &&& exists|middle: Seq<Step<F, C::AffineRepr>>|
        {
            &&& #[trigger] witness::is_phase1::<F, C, S>(
                params,
                pk,
                query_instance,
                instances,
                instance,
                advice,
                challenges,
                before.push(Step::CommonScalar(pk.vk.transcript_repr)),
                middle,
            )
            &&& protocol::is_stopped_proof(
                pk,
                query_instance,
                instance,
                advice,
                challenges,
                middle,
                after,
            )
        }
}

/// A proof for the witnesses that the synthesis of the circuits has assigned
/// was begun, and stopped after they were committed to.
pub open spec fn proof_abandoned<
    F: Field,
    C: Curve,
    S: Params<F, C>,
    ConcreteCircuit: Circuit<F>,
>(
    params: &S,
    pk: &ProvingKey<F>,
    query_instance: bool,
    circuits: Seq<ConcreteCircuit>,
    instances: Seq<Seq<Seq<F>>>,
    before: Seq<Step<F, C::AffineRepr>>,
    after: Seq<Step<F, C::AffineRepr>>,
) -> bool {
    exists|
        instance: Seq<InstanceSingle<F>>,
        advice: Seq<AdviceCommitted<F, LagrangeCoeff>>,
        challenges: Seq<F>,
    |
        {
            &&& #[trigger] is_abandoned::<F, C, S>(
                params,
                pk,
                query_instance,
                instances,
                instance,
                advice,
                challenges,
                before,
                after,
            )
            &&& witness::all_synthesized(pk, circuits, instances, challenges, advice)
        }
}

/// This creates a proof for the provided `circuit` when given the public
/// parameters `params` and the proving key [`ProvingKey`] that was
/// generated previously for the same circuit. The provided `instances`
/// are zero-padded internally.
pub fn create_proof<F, C, S, T, R, A, O, ConcreteCircuit>(
    params: &S,
    pk: &ProvingKey<F>,
    arguments: &A,
    prover: &O,
    circuits: &[ConcreteCircuit],
    instances: &[&[&[F]]],
    channel: Channel<F, C::AffineRepr, T, R>,
) -> (r: (Result<(), Error>, Channel<F, C::AffineRepr, T, R>)) where
    F: Field,
    C: Curve,
    S: Params<F, C>,
    T: TranscriptWrite<F, C::AffineRepr>,
    R: RandomSource<F>,
    A: Arguments<F, T, R>,
    O: Prover<F, T, R>,
    ConcreteCircuit: Circuit<F>,

    requires
        witness::instances_match(pk, circuits@.len() as int, steps::all_slices_of(instances@))
            ==> {
            &&& pk.wf(params.spec_n())
            &&& witness::may_synthesize(pk, circuits@)
            &&& witness::instances_fit(
                steps::all_slices_of(instances@),
                pk.unusable_rows_start(),
            )
        },
    ensures
        !witness::instances_match(pk, circuits@.len() as int, steps::all_slices_of(instances@))
            <==> r.0 == Err::<(), Error>(Error::InvalidInstances),
        r.0 matches Err(e) ==> {
            ||| e == Error::InvalidInstances && r.1 == channel
            ||| {
                &&& e == Error::Synthesis
                &&& !witness::are_total(circuits@, pk.vk.cs.spec_num_phases())
                &&& channel.goes_on(&r.1, channel::plainly())
                &&& witness::is_unfinished_witness::<F, C, S, ConcreteCircuit>(
                    params,
                    pk,
                    O::QUERY_INSTANCE,
                    circuits@,
                    steps::all_slices_of(instances@),
                    channel.trace(),
                    r.1.trace(),
                )
            }
            ||| {
                &&& witness::is_cut_short(&channel, &r.1, e)
                &&& witness::is_stopped_witness::<F, C, S, ConcreteCircuit>(
                    params,
                    pk,
                    O::QUERY_INSTANCE,
                    circuits@,
                    steps::all_slices_of(instances@),
                    channel.trace(),
                    r.1.trace(),
                )
            }
            ||| {
                &&& stages::stops_proving(&channel, &r.1, arguments, prover, e)
                &&& proof_abandoned::<F, C, S, ConcreteCircuit>(
                    params,
                    pk,
                    O::QUERY_INSTANCE,
                    circuits@,
                    steps::all_slices_of(instances@),
                    channel.trace(),
                    r.1.trace(),
                )
            }
        },
        r.0 is Ok ==> proof_synthesized::<F, C, S, ConcreteCircuit>(
            params,
            pk,
            O::QUERY_INSTANCE,
            circuits@,
            steps::all_slices_of(instances@),
            channel.trace(),
            r.1.trace(),
        ),
        r.0 is Ok ==> stages::proves(&channel, &r.1, arguments, prover),
{
    if !check_instances(pk, circuits.len(), instances) {
        return (Err(Error::InvalidInstances), channel);
    }
    let mut current = channel;
    // Hash verification key into transcript
    if let Err(e) = pk.vk.hash_into(&mut current) {
        assert(channel.breaks_off(&current, channel::plainly(), e));
        return (Err(e), current);
    }
    let instance = build_instances::<F, C, S>(params, pk, instances);
    let ghost hashed = current.trace();
    let ghost reached = current;
    let (result, mut current) = run_phase1_synthesis::<F, C, S, O, T, R, ConcreteCircuit>(
        params,
        pk,
        circuits,
        instances,
        &instance,
        current,
    );
    match result {
        Ok((advice, challenges)) => {
            let ghost middle = current.trace();
            let ghost phased = current;
            let ghost columns = steps::all_slices_of(instances@);
            let ghost given = (instance@, advice@, challenges@);
            proof {
                witness::lemma_phase1_fits::<F, C, S>(
                    params,
                    pk,
                    O::QUERY_INSTANCE,
                    columns,
                    instance@,
                    advice@,
                    challenges@,
                    hashed,
                    middle,
                );
                assert forall|i: int| 0 <= i < instance@.len() implies (
                #[trigger] instance@[i]).instance_polys@.len()
                    == pk.vk.cs.num_instance_columns by {
                    assert(columns[i].len() == pk.vk.cs.num_instance_columns);
                }
            }
            let r = create_proof_from_committed(
                pk,
                arguments,
                prover,
                instance,
                advice,
                challenges,
                &mut current,
            );
            proof {
                match r {
                    Ok(_) => {
                        stages::lemma_proves_later(&channel, &phased, &current, arguments, prover);
                    },
                    Err(e) => {
                        stages::lemma_stops_proving_later(
                            &channel,
                            &phased,
                            &current,
                            arguments,
                            prover,
                            e,
                        );
                    },
                }
                assert(witness::is_phase1::<F, C, S>(
                    params,
                    pk,
                    O::QUERY_INSTANCE,
                    columns,
                    given.0,
                    given.1,
                    given.2,
                    hashed,
                    middle,
                ));
                if r is Ok {
                    assert(is_created::<F, C, S>(
                        params,
                        pk,
                        O::QUERY_INSTANCE,
                        columns,
                        given.0,
                        given.1,
                        given.2,
                        channel.trace(),
                        current.trace(),
                    ));
                } else {
                    assert(is_abandoned::<F, C, S>(
                        params,
                        pk,
                        O::QUERY_INSTANCE,
                        columns,
                        given.0,
                        given.1,
                        given.2,
                        channel.trace(),
                        current.trace(),
                    ));
                }
            }
            (r, current)
        },
        Err(e) => {
            proof {
                witness::lemma_cut_short_later(&channel, &reached, &current, e);
                assert(witness::are_instance_singles(
                    &pk.vk.domain,
                    steps::all_slices_of(instances@),
                    instance@,
                ));
            }
            (Err(e), current)
        },
    }
}

/// The advice columns as sequences.
pub open spec fn columns_of<F>(advice: Seq<Vec<F>>) -> Seq<Seq<F>> {
    advice.map_values(|column: Vec<F>| column@)
}

/// Columns are told by their rows, in their order.
pub proof fn lemma_columns<F>(advice: Seq<Vec<F>>, c: int)
    requires
        0 <= c < advice.len(),
    ensures
        columns_of(advice).len() == advice.len(),
        columns_of(advice)[c] == advice[c]@,
{
}

/// The steps that took a channel from `before` to `after` are those of a proof
/// for one circuit, whose advice columns are the given ones but for the rows
/// that blind them.
pub open spec fn proof_created_from<F: Field, C: Curve, S: Params<F, C>>(
    params: &S,
    pk: &ProvingKey<F>,
    query_instance: bool,
    instances: Seq<Seq<F>>,
    columns: Seq<Seq<F>>,
    before: Seq<Step<F, C::AffineRepr>>,
    after: Seq<Step<F, C::AffineRepr>>,
) -> bool {
    exists|
        instance: InstanceSingle<F>,
        advice: AdviceCommitted<F, LagrangeCoeff>,
        challenges: Seq<F>,
    |
        {
            &&& #[trigger] is_created::<F, C, S>(
                params,
                pk,
                query_instance,
                seq![instances],
                seq![instance],
                seq![advice],
                challenges,
                before,
                after,
            )
            &&& commit::same_above(
                columns,
                channel::values_of(advice.advice_polys@),
                pk.unusable_rows_start(),
            )
        }
}

/// A proof for one circuit with given advice columns was begun, and stopped
/// after they were committed to.
pub open spec fn proof_abandoned_from<F: Field, C: Curve, S: Params<F, C>>(
    params: &S,
    pk: &ProvingKey<F>,
    query_instance: bool,
    instances: Seq<Seq<F>>,
    columns: Seq<Seq<F>>,
    before: Seq<Step<F, C::AffineRepr>>,
    after: Seq<Step<F, C::AffineRepr>>,
) -> bool {
    exists|
        instance: InstanceSingle<F>,
        advice: AdviceCommitted<F, LagrangeCoeff>,
        challenges: Seq<F>,
    |
        {
            &&& #[trigger] is_abandoned::<F, C, S>(
                params,
                pk,
                query_instance,
                seq![instances],
                seq![instance],
                seq![advice],
                challenges,
                before,
                after,
            )
            &&& commit::same_above(
                columns,
                channel::values_of(advice.advice_polys@),
                pk.unusable_rows_start(),
            )
        }
}

/// The run was stopped in the absorption of the instance columns.
pub open spec fn stops_absorbing<F: Field, C: Curve, S: Params<F, C>>(
    params: &S,
    query_instance: bool,
    instances: Seq<Seq<F>>,
    single: InstanceSingle<F>,
    before: Seq<Step<F, C::AffineRepr>>,
    after: Seq<Step<F, C::AffineRepr>>,
) -> bool {
    exists|points: Seq<C::AffineRepr>|
        {
            &&& #[trigger] commit::absorbs::<F, C, S>(
                params,
                query_instance,
                channel::values_of(single.instance_values@),
                points,
            )
            &&& channel::stops_in(
                before,
                steps::absorb_steps(query_instance, instances, points),
                after,
            )
        }
}

/// The run was stopped in the commitment to the advice columns.
pub open spec fn stops_committing<F: Field, C: Curve, S: Params<F, C>>(
    params: &S,
    pk: &ProvingKey<F>,
    query_instance: bool,
    instances: Seq<Seq<F>>,
    columns: Seq<Seq<F>>,
    single: InstanceSingle<F>,
    before: Seq<Step<F, C::AffineRepr>>,
    after: Seq<Step<F, C::AffineRepr>>,
) -> bool {
    exists|points: Seq<C::AffineRepr>, record: PhaseRecord<F, C::AffineRepr>|
        {
            &&& #[trigger] commit::absorbs::<F, C, S>(
                params,
                query_instance,
                channel::values_of(single.instance_values@),
                points,
            )
            &&& #[trigger] commit::commits_columns::<F, C, S>(
                params,
                columns,
                pk.unusable_rows_start(),
                record,
            )
            &&& channel::stops_in(
                before + steps::absorb_steps(query_instance, instances, points),
                steps::phase_steps(record, pk.unusable_rows_start()),
                after,
            )
        }
}

/// A proof for one circuit with given advice columns was begun, and stopped
/// before they were committed to.
pub open spec fn is_refused_from<F: Field, C: Curve, S: Params<F, C>>(
    params: &S,
    pk: &ProvingKey<F>,
    query_instance: bool,
    instances: Seq<Seq<F>>,
    columns: Seq<Seq<F>>,
    before: Seq<Step<F, C::AffineRepr>>,
    after: Seq<Step<F, C::AffineRepr>>,
) -> bool {
    let key = Step::<F, C::AffineRepr>::CommonScalar(pk.vk.transcript_repr);
    ||| channel::stops_in(before, seq![key], after)
    ||| exists|single: InstanceSingle<F>|
        {
            &&& #[trigger] witness::is_instance_single(&pk.vk.domain, instances, single)
            &&& {
                ||| stops_absorbing::<F, C, S>(
                    params,
                    query_instance,
                    instances,
                    single,
                    before.push(key),
                    after,
                )
                ||| stops_committing::<F, C, S>(
                    params,
                    pk,
                    query_instance,
                    instances,
                    columns,
                    single,
                    before.push(key),
                    after,
                )
            }
        }
}

/// Commits to given advice columns, in the same order of draws and writes as
/// in the synthesis of a circuit with a single phase.
fn commit_advice<F, C, S, T, R, O>(
    params: &S,
    pk: &ProvingKey<F>,
    instances: &[&[F]],
    instance_single: &InstanceSingle<F>,
    advice: AdviceColumns<F>,
    channel: &mut Channel<F, C::AffineRepr, T, R>,
) -> (r: Result<(AdviceCommitted<F, LagrangeCoeff>, Vec<F>), Error>) where
    F: Field,
    C: Curve,
    S: Params<F, C>,
    T: TranscriptWrite<F, C::AffineRepr>,
    R: RandomSource<F>,
    O: Prover<F, T, R>,

    requires
        pk.wf(params.spec_n()),
        pk.vk.cs.spec_num_phases() == 1,
        advice@.len() == pk.vk.cs.num_advice_columns,
        forall|i: int| 0 <= i < advice@.len() ==> (#[trigger] advice@[i])@.len() == params.spec_n(),
    ensures
        r matches Ok((committed, challenges)) ==> {
            &&& commit::same_above(
                columns_of(advice@),
                channel::values_of(committed.advice_polys@),
                pk.unusable_rows_start(),
            )
            &&& witness::is_phase1::<F, C, S>(
                params,
                pk,
                O::QUERY_INSTANCE,
                seq![steps::slices_of(instances@)],
                seq![*instance_single],
                seq![committed],
                challenges@,
                old(channel).trace(),
                final(channel).trace(),
            )
        },
        r is Ok ==> old(channel).goes_on(final(channel), channel::plainly()),
        r matches Err(e) ==> {
            &&& e is Transcript
            &&& old(channel).breaks_off(final(channel), channel::plainly(), e)
            &&& {
                ||| stops_absorbing::<F, C, S>(
                    params,
                    O::QUERY_INSTANCE,
                    steps::slices_of(instances@),
                    *instance_single,
                    old(channel).trace(),
                    final(channel).trace(),
                )
                ||| stops_committing::<F, C, S>(
                    params,
                    pk,
                    O::QUERY_INSTANCE,
                    steps::slices_of(instances@),
                    columns_of(advice@),
                    *instance_single,
                    old(channel).trace(),
                    final(channel).trace(),
                )
            }
        },
{
    broadcast use vstd::std_specs::hash::group_hash_axioms;

    let meta = &pk.vk.cs;
    let domain = &pk.vk.domain;
    let ghost before = channel.trace();
    let ghost given = columns_of(advice@);
    proof {
        circuit::lemma_phases_spanned(meta.advice_column_phase@, circuit::MAX_PHASES as int);
        assert forall|i: int| 0 <= i < meta.challenge_phase@.len() implies (
        #[trigger] meta.challenge_phase@[i]).0 == 0 by {}
        assert forall|i: int| 0 <= i < meta.advice_column_phase@.len() implies (
        #[trigger] meta.advice_column_phase@[i]).0 == 0 by {}
        steps::lemma_single_phase(meta.advice_column_phase@);
        steps::lemma_single_phase(meta.challenge_phase@);
    }
    // Absorb instances into transcript, as at the end of the first phase of
    // synthesis.
    let instance_points = absorb_instances::<F, C, S, T, R>(
        params,
        O::QUERY_INSTANCE,
        instances,
        &instance_single.instance_values,
        channel,
    )?;
    // Wrap advice as Lagrange polynomials.
    let mut columns: Vec<Polynomial<F, LagrangeCoeff>> = Vec::new();
    for column in iter: advice.into_iter()
        invariant
            columns_of(iter.seq()) == given,
            forall|i: int| 0 <= i < given.len() ==> (#[trigger] given[i]).len() == domain.n,
            columns@.len() == iter.index(),
            forall|i: int| 0 <= i < columns@.len() ==> (#[trigger] columns@[i])@ == given[i],
    {
        assert(column@ == given[iter.index()]);
        columns.push(domain.lagrange_from_vec(column));
    }
    assert(channel::values_of(columns@) =~= given);
    // Fill blinding rows and draw commitment blinds in the same order as in
    // synthesis (per-column tail blinders, then one Blind per column).
    let unusable_rows_start = params.n() - (meta.blinding_factors + 1);
    assert(unusable_rows_start == pk.unusable_rows_start());
    let (advice_polys, advice_blinds, record) = commit_columns::<F, C, S, T, R>(
        params,
        columns,
        unusable_rows_start,
        channel,
    )?;
    // Squeeze phase-0 challenges in constraint-system order.
    let (_column_indices, challenge_indices) = column_and_challenge_indices(meta);
    let mut challenges_map: HashMap<usize, F> = HashMap::new();
    let squeezed = squeeze_challenges(&challenge_indices[0], &mut challenges_map, channel);
    let ghost known = challenges_map@;
    proof {
        let indices = challenge_indices@[0]@;
        assert forall|k: usize| k < meta.num_challenges implies #[trigger] known.contains_key(k) by {
            assert(indices[k as int] == k);
        }
    }
    let challenges = collect_challenges(challenges_map, meta.num_challenges);
    let advice_single = AdviceCommitted { advice_polys, advice_blinds };
    proof {
        let full = PhaseRecord { challenges: squeezed@, ..record@ };
        let circuit_record = CircuitRecord {
            instance_points: instance_points@,
            phases: seq![full],
        };
        let start = unusable_rows_start as int;
        let records = seq![circuit_record];
        let all = seq![steps::slices_of(instances@)];
        assert(records.drop_last() =~= Seq::empty());
        assert(circuit_record.phases.drop_last() =~= Seq::empty());
        reveal_with_fuel(steps::circuits_steps, 2);
        reveal_with_fuel(steps::phases_steps, 2);
        assert(channel.trace() =~= before + steps::circuits_steps(
            records,
            O::QUERY_INSTANCE,
            all,
            start,
        ));
        assert(witness::phase_matches(meta, 0, advice_single, challenges@, full)) by {
            let columns = steps::indices_of_phase(meta.advice_column_phase@, 0);
            let indices = steps::indices_of_phase(meta.challenge_phase@, 0);
            assert(columns.len() == full.values.len());
            assert forall|j: int| #![trigger indices[j]] 0 <= j < indices.len() implies
                challenges@[indices[j] as int] == full.challenges[j] by {
                assert(challenge_indices@[0]@[j] == indices[j]);
                assert(challenges@[indices[j] as int] == known[indices[j]]);
            }
        }
        assert(witness::advice_fits(meta, params.spec_n(), advice_single)) by {
            let polys = channel::values_of(advice_single.advice_polys@);
            assert forall|i: int| 0 <= i < polys.len() implies (
            #[trigger] advice_single.advice_polys@[i])@.len() == params.spec_n() by {
                assert(polys[i].len() == given[i].len());
            }
        }
        assert(steps::phase_committed::<F, C, S>(params, full)) by {
            assert(steps::phase_committed::<F, C, S>(params, record@));
        }
        assert(witness::circuit_recorded::<F, C, S>(
            params,
            meta,
            O::QUERY_INSTANCE,
            *instance_single,
            advice_single,
            challenges@,
            circuit_record,
        ));
        assert(witness::all_recorded::<F, C, S>(
            params,
            meta,
            O::QUERY_INSTANCE,
            seq![*instance_single],
            seq![advice_single],
            challenges@,
            records,
        ));
    }
    Ok((advice_single, challenges))
}

/// Creates a proof from pre-computed advice columns and per-circuit instances.
///
/// Skips `Circuit::synthesize`: caller supplies advice values (one `Vec<F>` of
/// length `params.n()` per column). Blinding-factor rows may be left zero — this
/// function overwrites them from the randomness in the same order
/// [`create_proof`] would. Restricted to single-circuit, single-phase circuits:
/// multi-phase proving interleaves challenge squeezes with synthesis and cannot
/// be expressed as a pre-synthesized advice hand-off.
pub fn create_proof_from_advice<F, C, S, T, R, A, O>(
    params: &S,
    pk: &ProvingKey<F>,
    arguments: &A,
    prover: &O,
    instances: &[&[F]],
    advice: AdviceColumns<F>,
    channel: Channel<F, C::AffineRepr, T, R>,
) -> (r: (Result<(), Error>, Channel<F, C::AffineRepr, T, R>)) where
    F: Field,
    C: Curve,
    S: Params<F, C>,
    T: TranscriptWrite<F, C::AffineRepr>,
    R: RandomSource<F>,
    A: Arguments<F, T, R>,
    O: Prover<F, T, R>,

    requires
        instances@.len() == pk.vk.cs.num_instance_columns ==> {
            &&& pk.wf(params.spec_n())
            &&& pk.vk.cs.spec_num_phases() == 1
            &&& advice@.len() == pk.vk.cs.num_advice_columns
            &&& forall|i: int|
                0 <= i < advice@.len() ==> (#[trigger] advice@[i])@.len() == params.spec_n()
            &&& witness::instance_fits(
                steps::slices_of(instances@),
                pk.unusable_rows_start(),
            )
        },
    ensures
        instances@.len() != pk.vk.cs.num_instance_columns <==> r.0 == Err::<(), Error>(
            Error::InvalidInstances,
        ),
        r.0 matches Err(e) ==> {
            ||| e == Error::InvalidInstances && r.1 == channel
            ||| {
                &&& e is Transcript
                &&& channel.breaks_off(&r.1, channel::plainly(), e)
                &&& is_refused_from::<F, C, S>(
                    params,
                    pk,
                    O::QUERY_INSTANCE,
                    steps::slices_of(instances@),
                    columns_of(advice@),
                    channel.trace(),
                    r.1.trace(),
                )
            }
            ||| {
                &&& stages::stops_proving(&channel, &r.1, arguments, prover, e)
                &&& proof_abandoned_from::<F, C, S>(
                    params,
                    pk,
                    O::QUERY_INSTANCE,
                    steps::slices_of(instances@),
                    columns_of(advice@),
                    channel.trace(),
                    r.1.trace(),
                )
            }
        },
        r.0 is Ok ==> proof_created_from::<F, C, S>(
            params,
            pk,
            O::QUERY_INSTANCE,
            steps::slices_of(instances@),
            columns_of(advice@),
            channel.trace(),
            r.1.trace(),
        ),
        r.0 is Ok ==> stages::proves(&channel, &r.1, arguments, prover),
{
    let meta = &pk.vk.cs;
    if instances.len() != meta.num_instance_columns {
        return (Err(Error::InvalidInstances), channel);
    }
    let ghost given = columns_of(advice@);
    let ghost all = seq![steps::slices_of(instances@)];
    let mut current = channel;
    // Hash verification key into transcript
    if let Err(e) = pk.vk.hash_into(&mut current) {
        return (Err(e), current);
    }
    let ghost hashed = current.trace();
    // Materialize the single instance
    let instance_single = build_instance_single::<F, C, S>(params, &pk.vk.domain, meta, instances);
    match commit_advice::<F, C, S, T, R, O>(
        params,
        pk,
        instances,
        &instance_single,
        advice,
        &mut current,
    ) {
        Ok((advice_single, challenges)) => {
            let ghost middle = current.trace();
            let ghost phased = current;
            let ghost singles = (instance_single, advice_single, challenges@);
            proof {
                witness::lemma_phase1_fits::<F, C, S>(
                    params,
                    pk,
                    O::QUERY_INSTANCE,
                    all,
                    seq![singles.0],
                    seq![singles.1],
                    singles.2,
                    hashed,
                    middle,
                );
                assert(seq![singles.1][0] == singles.1);
            }
            let mut instance: Vec<InstanceSingle<F>> = Vec::new();
            instance.push(instance_single);
            let mut committed: Vec<AdviceCommitted<F, LagrangeCoeff>> = Vec::new();
            committed.push(advice_single);
            assert(instance@ =~= seq![singles.0]);
            assert(committed@ =~= seq![singles.1]);
            let r = create_proof_from_committed(
                pk,
                arguments,
                prover,
                instance,
                committed,
                challenges,
                &mut current,
            );
            proof {
                match r {
                    Ok(_) => {
                        stages::lemma_proves_later(&channel, &phased, &current, arguments, prover);
                    },
                    Err(e) => {
                        stages::lemma_stops_proving_later(
                            &channel,
                            &phased,
                            &current,
                            arguments,
                            prover,
                            e,
                        );
                    },
                }
                assert(witness::are_instance_singles(&pk.vk.domain, all, seq![singles.0]));
                if r is Ok {
                    assert(is_created::<F, C, S>(
                        params,
                        pk,
                        O::QUERY_INSTANCE,
                        all,
                        seq![singles.0],
                        seq![singles.1],
                        singles.2,
                        channel.trace(),
                        current.trace(),
                    ));
                } else {
                    assert(is_abandoned::<F, C, S>(
                        params,
                        pk,
                        O::QUERY_INSTANCE,
                        all,
                        seq![singles.0],
                        seq![singles.1],
                        singles.2,
                        channel.trace(),
                        current.trace(),
                    ));
                }
            }
            (r, current)
        },
        Err(e) => (Err(e), current),
    }
}

} // verus!
