//! The lookup, permutation and vanishing arguments of all circuits.

use super::channel;
use super::channel::{Arguments, Channel, Slot, Stage, Step};
use super::protocol;
use super::protocol::QuotientRecord;
use super::queries;
use super::queries::{advice_slices, instance_slices, into_coeffs};
use super::stages;
use super::stages::Stages;
use super::witness;
use super::witness::{AdviceCommitted, InstanceSingle};
use super::{Error, ProvingKey};
use crate::field::Field;
use crate::poly::{Coeff, LagrangeCoeff};
use crate::rng::RandomSource;
use crate::transcript::TranscriptWrite;
use vstd::prelude::*;

verus! {

broadcast use {
    channel::group_channel,
    channel::group_ways,
    channel::lemma_stops_at,
    stages::group_stages,
};

proof fn lemma_hold_push<X>(values: spec_fn(Slot) -> X, stages: Seq<Stage<X>>, stage: Stage<X>)
    requires
        stages::hold(values, stages.push(stage)),
    ensures
        stages::hold(values, stages),
        stages::holds(values, stage),
{
    let all = stages.push(stage);
    assert forall|i: int| 0 <= i < stages.len() implies stages::holds(
        values,
        #[trigger] stages[i],
    ) by {
        assert(all[i] == stages[i]);
    }
    assert(all[stages.len() as int] == stage);
}

proof fn lemma_all_hold_push<X>(
    values: spec_fn(Slot) -> X,
    stages: Seq<Vec<Stage<X>>>,
    list: Vec<Stage<X>>,
)
    requires
        stages::all_hold(values, stages.push(list)),
    ensures
        stages::all_hold(values, stages),
        stages::hold(values, list@),
{
    let all = stages.push(list);
    assert forall|i: int| 0 <= i < stages.len() implies stages::hold(
        values,
        (#[trigger] stages[i])@,
    ) by {
        assert(all[i] == stages[i]);
    }
    assert(all[stages.len() as int] == list);
}

proof fn lemma_quotient_values<X>(values: spec_fn(Slot) -> X, stages: Seq<Vec<Stage<X>>>)
    requires
        stages::all_hold(values, stages),
    ensures
        channel::all_slots_of(stages).map_values(|slots: Seq<Slot>| slots.map_values(values))
            == channel::all_stage_values(stages),
{
    let found = channel::all_slots_of(stages).map_values(
        |slots: Seq<Slot>| slots.map_values(values),
    );
    assert forall|i: int| 0 <= i < stages.len() implies #[trigger] found[i]
        == channel::all_stage_values(stages)[i] by {
        assert(stages::hold(values, stages[i]@));
        lemma_product_values(values, stages[i]@);
    }
    assert(found =~= channel::all_stage_values(stages));
}

proof fn lemma_product_values<X>(values: spec_fn(Slot) -> X, stages: Seq<Stage<X>>)
    requires
        stages::hold(values, stages),
    ensures
        channel::slots_of(stages).map_values(values) == channel::stage_values(stages),
{
    let found = channel::slots_of(stages).map_values(values);
    assert forall|i: int| 0 <= i < stages.len() implies #[trigger] found[i]
        == channel::stage_values(stages)[i] by {
        assert(stages::holds(values, stages[i]));
    }
    assert(found =~= channel::stage_values(stages));
}

/// Values that are found by their argument are those that belong to it.
pub(crate) proof fn lemma_values_hold<X>(
    values: spec_fn(Slot) -> X,
    stages: Seq<Vec<Stage<X>>>,
    lookups: nat,
)
    requires
        channel::all_slots_of(stages) == protocol::all_lookup_slots(stages.len(), lookups),
        forall|i: int, j: int|
            0 <= i < stages.len() && 0 <= j < stages[i]@.len() ==> values(
                Slot { circuit: i, lookup: j },
            ) == (#[trigger] stages[i]@[j]).spec_value(),
    ensures
        stages::all_hold(values, stages),
{
    assert forall|i: int| 0 <= i < stages.len() implies stages::hold(
        values,
        (#[trigger] stages[i])@,
    ) by {
        let slots = channel::slots_of(stages[i]@);
        assert(channel::all_slots_of(stages)[i] == slots);
        assert(slots == protocol::lookup_slots(i, lookups));
        assert(slots.len() == stages[i]@.len());
        assert forall|j: int| 0 <= j < stages[i]@.len() implies stages::holds(
            values,
            #[trigger] stages[i]@[j],
        ) by {
            assert(slots[j] == stages[i]@[j].slot());
        }
    }
}

/// Values that are found by their argument are those that belong to it, as far as
/// the arguments got.
proof fn lemma_rows_hold<X>(
    values: spec_fn(Slot) -> X,
    done: Seq<Vec<Stage<X>>>,
    row: Vec<Stage<X>>,
    lookups: nat,
    taken: nat,
)
    requires
        channel::all_slots_of(done) == protocol::all_lookup_slots(done.len(), lookups),
        channel::slots_of(row@) == protocol::lookup_slots(done.len() as int, taken),
        values == (|slot: Slot| done.push(row)[slot.circuit]@[slot.lookup].spec_value()),
    ensures
        stages::all_hold(values, done),
        stages::hold(values, row@),
{
    let all = done.push(row);
    assert forall|i: int| 0 <= i < done.len() implies stages::hold(
        values,
        (#[trigger] done[i])@,
    ) by {
        let slots = channel::slots_of(done[i]@);
        assert(channel::all_slots_of(done)[i] == slots);
        assert(slots.len() == done[i]@.len());
        assert forall|j: int| 0 <= j < done[i]@.len() implies stages::holds(
            values,
            #[trigger] done[i]@[j],
        ) by {
            assert(slots[j] == done[i]@[j].slot());
            assert(all[i] == done[i]);
        }
    }
    assert forall|j: int| 0 <= j < row@.len() implies stages::holds(values, #[trigger] row@[j]) by {
        assert(channel::slots_of(row@)[j] == row@[j].slot());
        assert(channel::slots_of(row@).len() == row@.len());
        assert(all[done.len() as int] == row);
    }
}

/// Values that are found by their circuit are those that belong to it.
pub(crate) proof fn lemma_found_by_circuit<X>(
    values: spec_fn(Slot) -> X,
    stages: Seq<Stage<X>>,
)
    requires
        channel::slots_of(stages) == protocol::permutation_slots(stages.len()),
        forall|i: int|
            0 <= i < stages.len() ==> values(Slot { circuit: i, lookup: 0 }) == (
            #[trigger] stages[i]).spec_value(),
    ensures
        stages::hold(values, stages),
{
    assert forall|i: int| 0 <= i < stages.len() implies stages::holds(
        values,
        #[trigger] stages[i],
    ) by {
        assert(channel::slots_of(stages)[i] == stages[i].slot());
    }
}

/// Products that are found by their argument are those that belong to it.
pub(crate) proof fn lemma_products_held<F, T, R, A: Arguments<F, T, R>>(
    pk: &ProvingKey<F>,
    found: Stages<F, T, R, A>,
    lookups: Seq<Vec<Stage<A::LookupCommitted>>>,
    permutations: Seq<Stage<A::PermutationCommitted>>,
)
    requires
        channel::all_slots_of(lookups) == protocol::all_lookup_slots(
            permutations.len(),
            pk.vk.cs.num_lookups as nat,
        ),
        channel::slots_of(permutations) == protocol::permutation_slots(permutations.len()),
        found.permutation_committed == (|slot: Slot| permutations[slot.circuit].spec_value()),
        found.lookup_committed == (|slot: Slot| lookups[slot.circuit]@[slot.lookup].spec_value()),
    ensures
        stages::all_hold(found.lookup_committed, lookups),
        stages::hold(found.permutation_committed, permutations),
{
    assert(channel::all_slots_of(lookups).len() == lookups.len());
    lemma_values_hold(found.lookup_committed, lookups, pk.vk.cs.num_lookups as nat);
    lemma_found_by_circuit(found.permutation_committed, permutations);
}

/// Constructs and commits to permuted values for each lookup.
fn commit_permuted<F, P, T, R, A>(
    pk: &ProvingKey<F>,
    arguments: &A,
    theta: F,
    instance: &Vec<InstanceSingle<F>>,
    advice: &Vec<AdviceCommitted<F, LagrangeCoeff>>,
    challenges: &Vec<F>,
    channel: &mut Channel<F, P, T, R>,
) -> (r: Result<Vec<Vec<Stage<A::LookupPermuted>>>, Error>) where
    F: Field,
    T: TranscriptWrite<F, P>,
    R: RandomSource<F>,
    A: Arguments<F, T, R>,

    requires
        instance@.len() == advice@.len(),
    ensures
        r matches Ok(lookups) ==> {
            &&& channel::all_slots_of(lookups@) == protocol::all_lookup_slots(
                instance@.len(),
                pk.vk.cs.num_lookups as nat,
            )
            &&& final(channel).trace() == old(channel).trace() + protocol::for_circuits(
                instance@.len(),
                protocol::permuted_steps(pk, theta, instance@, advice@, challenges@),
            )
        },
        r matches Ok(lookups) ==> forall|v: Stages<F, T, R, A>|
            stages::all_hold(v.lookup_permuted, lookups@) ==> old(channel).goes_on(
                final(channel),
                #[trigger] stages::with_stages(arguments, v),
            ),
        r is Ok ==> old(channel).goes_on(final(channel), channel::with_arguments(arguments)),
        r matches Err(e) ==> {
            &&& old(channel).breaks_off(final(channel), channel::with_arguments(arguments), e)
            &&& exists|values: spec_fn(Slot) -> A::LookupPermuted|
                stages::stops_if(
                    old(channel),
                    final(channel),
                    arguments,
                    #[trigger] stages::permuted_as::<F, T, R, A>(values),
                    e,
                )
            &&& channel::stops_in(
                old(channel).trace(),
                protocol::for_circuits(
                    instance@.len(),
                    protocol::permuted_steps(pk, theta, instance@, advice@, challenges@),
                ),
                final(channel).trace(),
            )
        },
{
    let ghost before = channel.trace();
    let ghost f = protocol::permuted_steps::<F, P>(pk, theta, instance@, advice@, challenges@);
    let ghost count = pk.vk.cs.num_lookups as nat;
    let mut lookups: Vec<Vec<Stage<A::LookupPermuted>>> = Vec::new();
    let mut i: usize = 0;
    assert(before + Seq::empty() =~= before);
    while i < instance.len()
        invariant
            instance@.len() == advice@.len(),
            before == old(channel).trace(),
            old(channel).goes_on(channel, channel::with_arguments(arguments)),
            forall|v: Stages<F, T, R, A>|
                stages::all_hold(v.lookup_permuted, lookups@) ==> old(channel).goes_on(
                    channel,
                    #[trigger] stages::with_stages(arguments, v),
                ),
            f == protocol::permuted_steps::<F, P>(pk, theta, instance@, advice@, challenges@),
            count == pk.vk.cs.num_lookups,
            i <= instance@.len(),
            channel::all_slots_of(lookups@) == protocol::all_lookup_slots(i as nat, count),
            channel.trace() == before + protocol::for_circuits(i as nat, f),
        decreases instance@.len() - i,
    {
        let ghost start = channel.trace();
        let ghost part = f(i as int);
        let ghost old_lookups = lookups@;
        let mut circuit_lookups: Vec<Stage<A::LookupPermuted>> = Vec::new();
        let mut j: usize = 0;
        assert(start + part.take(0) =~= start);
        while j < pk.vk.cs.num_lookups
            invariant
                instance@.len() == advice@.len(),
                before == old(channel).trace(),
                start == before + protocol::for_circuits(i as nat, f),
                old(channel).goes_on(channel, channel::with_arguments(arguments)),
                forall|v: Stages<F, T, R, A>|
                    stages::all_hold(v.lookup_permuted, lookups@) && stages::hold(
                        v.lookup_permuted,
                        circuit_lookups@,
                    ) ==> old(channel).goes_on(
                        channel,
                        #[trigger] stages::with_stages(arguments, v),
                    ),
                f == protocol::permuted_steps::<F, P>(pk, theta, instance@, advice@, challenges@),
                part == f(i as int),
                count == pk.vk.cs.num_lookups,
                i < instance@.len(),
                j <= count,
                channel::all_slots_of(lookups@) == protocol::all_lookup_slots(i as nat, count),
                channel::slots_of(circuit_lookups@) == protocol::lookup_slots(i as int, j as nat),
                channel.trace() == start + part.take(j as int),
            decreases count - j,
        {
            let ghost old_slots = channel::slots_of(circuit_lookups@);
            let ghost pre = *channel;
            let ghost old_stages = circuit_lookups@;
            let stage = match channel.lookup_commit_permuted(
                arguments,
                i,
                j,
                theta,
                &advice[i].advice_polys,
                &pk.fixed_values,
                &instance[i].instance_values,
                challenges,
            ) {
                Ok(stage) => stage,
                Err(e) => {
                    proof {
                        let known = lookups@.push(circuit_lookups);
                        let values = |slot: Slot| known[slot.circuit]@[slot.lookup].spec_value();
                        let fits = stages::permuted_as::<F, T, R, A>(values);
                        assert(channel::all_slots_of(lookups@).len() == lookups@.len());
                        lemma_rows_hold(values, lookups@, circuit_lookups, count, j as nat);
                        assert forall|v: Stages<F, T, R, A>| fits(v) implies old(
                            channel,
                        ).breaks_off(channel, #[trigger] stages::with_stages(arguments, v), e) by {
                            let step = part[j as int];
                            stages::lemma_staged_stop(&pre, channel, arguments, v, step, e);
                        }
                        assert(stages::stops_if(old(channel), channel, arguments, fits, e));
                        assert(channel::stops_in(start, part, channel.trace()));
                        protocol::lemma_stops_in_circuit(
                            before,
                            f,
                            i as int,
                            instance@.len(),
                            channel.trace(),
                        );
                    }
                    return Err(e);
                },
            };
            circuit_lookups.push(stage);
            proof {
                assert forall|v: Stages<F, T, R, A>|
                    stages::all_hold(v.lookup_permuted, lookups@) && stages::hold(
                        v.lookup_permuted,
                        circuit_lookups@,
                    ) implies old(channel).goes_on(
                    channel,
                    #[trigger] stages::with_stages(arguments, v),
                ) by {
                    lemma_hold_push(v.lookup_permuted, old_stages, stage);
                    stages::lemma_staged(&pre, channel, arguments, v, part[j as int]);
                }
                assert(start + part.take(j + 1) =~= (start + part.take(j as int)).push(
                    part[j as int],
                ));
                assert(channel::slots_of(circuit_lookups@) =~= old_slots.push(stage.slot()));
                assert(protocol::lookup_slots(i as int, (j + 1) as nat) =~= old_slots.push(
                    stage.slot(),
                ));
            }
            j += 1;
        }
        lookups.push(circuit_lookups);
        proof {
            assert forall|v: Stages<F, T, R, A>|
                stages::all_hold(v.lookup_permuted, lookups@) implies old(channel).goes_on(
                channel,
                #[trigger] stages::with_stages(arguments, v),
            ) by {
                lemma_all_hold_push(v.lookup_permuted, old_lookups, circuit_lookups);
            }
            assert(part.take(j as int) =~= part);
            assert(channel::all_slots_of(lookups@) =~= channel::all_slots_of(old_lookups).push(
                protocol::lookup_slots(i as int, count),
            ));
            assert(protocol::all_lookup_slots((i + 1) as nat, count) =~= channel::all_slots_of(
                lookups@,
            ));
            assert(channel.trace() =~= before + protocol::for_circuits((i + 1) as nat, f));
        }
        i += 1;
    }
    Ok(lookups)
}

/// Commits to the permutation argument of each circuit.
fn commit_permutations<F, P, T, R, A>(
    pk: &ProvingKey<F>,
    arguments: &A,
    beta: F,
    gamma: F,
    instance: &Vec<InstanceSingle<F>>,
    advice: &Vec<AdviceCommitted<F, LagrangeCoeff>>,
    channel: &mut Channel<F, P, T, R>,
) -> (r: Result<Vec<Stage<A::PermutationCommitted>>, Error>) where
    F: Field,
    T: TranscriptWrite<F, P>,
    R: RandomSource<F>,
    A: Arguments<F, T, R>,

    requires
        instance@.len() == advice@.len(),
    ensures
        r matches Ok(permutations) ==> {
            &&& channel::slots_of(permutations@) == protocol::permutation_slots(instance@.len())
            &&& final(channel).trace() == old(channel).trace() + protocol::permutation_steps(
                pk,
                instance@,
                advice@,
                beta,
                gamma,
            )
        },
        r matches Ok(permutations) ==> forall|v: Stages<F, T, R, A>|
            stages::hold(v.permutation_committed, permutations@) ==> old(channel).goes_on(
                final(channel),
                #[trigger] stages::with_stages(arguments, v),
            ),
        r is Ok ==> old(channel).goes_on(final(channel), channel::with_arguments(arguments)),
        r matches Err(e) ==> {
            &&& old(channel).breaks_off(final(channel), channel::with_arguments(arguments), e)
            &&& exists|values: spec_fn(Slot) -> A::PermutationCommitted|
                stages::stops_if(
                    old(channel),
                    final(channel),
                    arguments,
                    #[trigger] stages::multiplied_as::<F, T, R, A>(values),
                    e,
                )
            &&& channel::stops_in(
                old(channel).trace(),
                protocol::permutation_steps(pk, instance@, advice@, beta, gamma),
                final(channel).trace(),
            )
        },
{
    let ghost before = channel.trace();
    let ghost part = protocol::permutation_steps::<F, P>(pk, instance@, advice@, beta, gamma);
    let mut permutations: Vec<Stage<A::PermutationCommitted>> = Vec::new();
    let mut i: usize = 0;
    assert(before + part.take(0) =~= before);
    while i < instance.len()
        invariant
            instance@.len() == advice@.len(),
            before == old(channel).trace(),
            old(channel).goes_on(channel, channel::with_arguments(arguments)),
            forall|v: Stages<F, T, R, A>|
                stages::hold(v.permutation_committed, permutations@) ==> old(channel).goes_on(
                    channel,
                    #[trigger] stages::with_stages(arguments, v),
                ),
            part == protocol::permutation_steps::<F, P>(pk, instance@, advice@, beta, gamma),
            i <= instance@.len(),
            channel::slots_of(permutations@) == protocol::permutation_slots(i as nat),
            channel.trace() == before + part.take(i as int),
        decreases instance@.len() - i,
    {
        let ghost old_slots = channel::slots_of(permutations@);
        let ghost pre = *channel;
        let ghost old_stages = permutations@;
        let stage = match channel.permutation_commit(
            arguments,
            i,
            &advice[i].advice_polys,
            &pk.fixed_values,
            &instance[i].instance_values,
            beta,
            gamma,
        ) {
            Ok(stage) => stage,
            Err(e) => {
                proof {
                    let known = permutations@;
                    let values = |slot: Slot| known[slot.circuit].spec_value();
                    let fits = stages::multiplied_as::<F, T, R, A>(values);
                    assert(channel::slots_of(known).len() == known.len());
                    lemma_found_by_circuit(values, known);
                    assert forall|v: Stages<F, T, R, A>| fits(v) implies old(channel).breaks_off(
                        channel,
                        #[trigger] stages::with_stages(arguments, v),
                        e,
                    ) by {
                        stages::lemma_staged_stop(&pre, channel, arguments, v, part[i as int], e);
                    }
                    assert(stages::stops_if(old(channel), channel, arguments, fits, e));
                }
                return Err(e);
            },
        };
        permutations.push(stage);
        proof {
            assert forall|v: Stages<F, T, R, A>|
                stages::hold(v.permutation_committed, permutations@) implies old(channel).goes_on(
                channel,
                #[trigger] stages::with_stages(arguments, v),
            ) by {
                lemma_hold_push(v.permutation_committed, old_stages, stage);
                stages::lemma_staged(&pre, channel, arguments, v, part[i as int]);
            }
            assert(before + part.take(i + 1) =~= (before + part.take(i as int)).push(
                part[i as int],
            ));
            assert(channel::slots_of(permutations@) =~= old_slots.push(stage.slot()));
            assert(protocol::permutation_slots((i + 1) as nat) =~= old_slots.push(stage.slot()));
        }
        i += 1;
    }
    assert(part.take(i as int) =~= part);
    Ok(permutations)
}

/// Constructs and commits to products for each lookup.
fn commit_products<F, P, T, R, A>(
    pk: &ProvingKey<F>,
    arguments: &A,
    beta: F,
    gamma: F,
    lookups: Vec<Vec<Stage<A::LookupPermuted>>>,
    channel: &mut Channel<F, P, T, R>,
) -> (r: Result<Vec<Vec<Stage<A::LookupCommitted>>>, Error>) where
    F: Field,
    T: TranscriptWrite<F, P>,
    R: RandomSource<F>,
    A: Arguments<F, T, R>,

    requires
        channel::all_slots_of(lookups@) == protocol::all_lookup_slots(
            lookups@.len(),
            pk.vk.cs.num_lookups as nat,
        ),
    ensures
        r matches Ok(committed) ==> {
            &&& channel::all_slots_of(committed@) == channel::all_slots_of(lookups@)
            &&& final(channel).trace() == old(channel).trace() + protocol::for_circuits(
                lookups@.len(),
                protocol::product_steps(&pk.vk.cs, beta, gamma),
            )
        },
        r matches Ok(committed) ==> forall|v: Stages<F, T, R, A>|
            stages::all_hold(v.lookup_permuted, lookups@) && stages::all_hold(
                v.lookup_committed,
                committed@,
            ) ==> old(channel).goes_on(
                final(channel),
                #[trigger] stages::with_stages(arguments, v),
            ),
        r is Ok ==> old(channel).goes_on(final(channel), channel::with_arguments(arguments)),
        r matches Err(e) ==> {
            &&& old(channel).breaks_off(final(channel), channel::with_arguments(arguments), e)
            &&& exists|values: spec_fn(Slot) -> A::LookupCommitted|
                stages::stops_if(
                    old(channel),
                    final(channel),
                    arguments,
                    #[trigger] stages::committed_as::<F, T, R, A>(lookups@, values),
                    e,
                )
            &&& channel::stops_in(
                old(channel).trace(),
                protocol::for_circuits(
                    lookups@.len(),
                    protocol::product_steps(&pk.vk.cs, beta, gamma),
                ),
                final(channel).trace(),
            )
        },
{
    let ghost before = channel.trace();
    let ghost f = protocol::product_steps::<F, P>(&pk.vk.cs, beta, gamma);
    let ghost count = pk.vk.cs.num_lookups as nat;
    let ghost given = lookups@;
    let mut committed: Vec<Vec<Stage<A::LookupCommitted>>> = Vec::new();
    assert(before + Seq::empty() =~= before);
    for circuit_lookups in iter: lookups.into_iter()
        invariant
            before == old(channel).trace(),
            old(channel).goes_on(channel, channel::with_arguments(arguments)),
            forall|v: Stages<F, T, R, A>|
                stages::all_hold(v.lookup_permuted, given) && stages::all_hold(
                    v.lookup_committed,
                    committed@,
                ) ==> old(channel).goes_on(
                    channel,
                    #[trigger] stages::with_stages(arguments, v),
                ),
            f == protocol::product_steps::<F, P>(&pk.vk.cs, beta, gamma),
            count == pk.vk.cs.num_lookups,
            given == lookups@,
            iter.seq() == given,
            channel::all_slots_of(given) == protocol::all_lookup_slots(given.len(), count),
            channel::all_slots_of(committed@) == protocol::all_lookup_slots(
                iter.index() as nat,
                count,
            ),
            channel.trace() == before + protocol::for_circuits(iter.index() as nat, f),
    {
        let ghost i = iter.index();
        let ghost start = channel.trace();
        let ghost part = f(i);
        let ghost old_committed = committed@;
        let ghost slots = protocol::lookup_slots(i, count);
        let ghost given_lookups = circuit_lookups@;
        proof {
            assert(circuit_lookups == given[i]);
            assert(channel::all_slots_of(given)[i] == slots);
            assert(channel::slots_of(given_lookups) == slots);
            assert(given_lookups.len() == slots.len());
        }
        let mut circuit_committed: Vec<Stage<A::LookupCommitted>> = Vec::new();
        assert(start + part.take(0) =~= start);
        for lookup in inner: circuit_lookups.into_iter()
            invariant
                before == old(channel).trace(),
                start == before + protocol::for_circuits(i as nat, f),
                given == lookups@,
                0 <= i < given.len(),
                given_lookups == given[i]@,
                old(channel).goes_on(channel, channel::with_arguments(arguments)),
                forall|v: Stages<F, T, R, A>|
                    stages::all_hold(v.lookup_permuted, given) && stages::all_hold(
                        v.lookup_committed,
                        committed@,
                    ) && stages::hold(
                        v.lookup_committed,
                        circuit_committed@,
                    ) ==> old(channel).goes_on(
                        channel,
                        #[trigger] stages::with_stages(arguments, v),
                    ),
                f == protocol::product_steps::<F, P>(&pk.vk.cs, beta, gamma),
                part == f(i),
                count == pk.vk.cs.num_lookups,
                inner.seq() == given_lookups,
                given_lookups.len() == count,
                slots == protocol::lookup_slots(i, count),
                channel::slots_of(given_lookups) == slots,
                channel::all_slots_of(committed@) == protocol::all_lookup_slots(i as nat, count),
                channel::slots_of(circuit_committed@) == slots.take(inner.index()),
                channel.trace() == start + part.take(inner.index()),
        {
            let ghost j = inner.index();
            let ghost old_slots = channel::slots_of(circuit_committed@);
            assert(lookup == given_lookups[j]);
            assert(lookup.slot() == channel::slots_of(given_lookups)[j]);
            let ghost pre = *channel;
            let ghost old_stages = circuit_committed@;
            let stage = match channel.lookup_commit_product(arguments, lookup, beta, gamma) {
                Ok(stage) => stage,
                Err(e) => {
                    proof {
                        let known = committed@.push(circuit_committed);
                        let values = |slot: Slot| known[slot.circuit]@[slot.lookup].spec_value();
                        let fits = stages::committed_as::<F, T, R, A>(given, values);
                        assert(channel::all_slots_of(committed@).len() == committed@.len());
                        assert(slots.take(j) =~= protocol::lookup_slots(i, j as nat));
                        lemma_rows_hold(values, committed@, circuit_committed, count, j as nat);
                        assert forall|v: Stages<F, T, R, A>| fits(v) implies old(
                            channel,
                        ).breaks_off(channel, #[trigger] stages::with_stages(arguments, v), e) by {
                            assert(stages::hold(v.lookup_permuted, given[i]@));
                            assert(stages::holds(v.lookup_permuted, given_lookups[j]));
                            stages::lemma_staged_stop(&pre, channel, arguments, v, part[j], e);
                        }
                        assert(stages::stops_if(old(channel), channel, arguments, fits, e));
                        assert(channel::stops_in(start, part, channel.trace()));
                        protocol::lemma_stops_in_circuit(
                            before,
                            f,
                            i,
                            given.len(),
                            channel.trace(),
                        );
                    }
                    return Err(e);
                },
            };
            circuit_committed.push(stage);
            proof {
                assert forall|v: Stages<F, T, R, A>|
                    stages::all_hold(v.lookup_permuted, given) && stages::all_hold(
                        v.lookup_committed,
                        committed@,
                    ) && stages::hold(
                        v.lookup_committed,
                        circuit_committed@,
                    ) implies old(channel).goes_on(
                    channel,
                    #[trigger] stages::with_stages(arguments, v),
                ) by {
                    lemma_hold_push(v.lookup_committed, old_stages, stage);
                    assert(stages::hold(v.lookup_permuted, given[i]@));
                    assert(stages::holds(v.lookup_permuted, given_lookups[j]));
                    stages::lemma_staged(&pre, channel, arguments, v, part[j]);
                }
                assert(start + part.take(j + 1) =~= (start + part.take(j)).push(part[j]));
                assert(channel::slots_of(circuit_committed@) =~= old_slots.push(stage.slot()));
                assert(slots.take(j + 1) =~= old_slots.push(stage.slot()));
            }
        }
        committed.push(circuit_committed);
        proof {
            assert forall|v: Stages<F, T, R, A>|
                stages::all_hold(v.lookup_permuted, given) && stages::all_hold(
                    v.lookup_committed,
                    committed@,
                ) implies old(channel).goes_on(
                channel,
                #[trigger] stages::with_stages(arguments, v),
            ) by {
                lemma_all_hold_push(v.lookup_committed, old_committed, circuit_committed);
            }
            assert(part.take(count as int) =~= part);
            assert(slots.take(count as int) =~= slots);
            assert(channel::all_slots_of(committed@) =~= channel::all_slots_of(old_committed).push(
                slots,
            ));
            assert(protocol::all_lookup_slots((i + 1) as nat, count) =~= channel::all_slots_of(
                committed@,
            ));
            assert(channel.trace() =~= before + protocol::for_circuits((i + 1) as nat, f));
        }
    }
    Ok(committed)
}

/// Evaluates the permutation argument of each circuit.
fn evaluate_permutations<F, P, T, R, A>(
    arguments: &A,
    permutations: Vec<Stage<A::PermutationCommitted>>,
    x: F,
    channel: &mut Channel<F, P, T, R>,
) -> (r: Result<Vec<Stage<A::PermutationEvaluated>>, Error>) where
    F: Field,
    T: TranscriptWrite<F, P>,
    R: RandomSource<F>,
    A: Arguments<F, T, R>,

    requires
        channel::slots_of(permutations@) == protocol::permutation_slots(permutations@.len()),
    ensures
        r matches Ok(evaluated) ==> {
            &&& channel::slots_of(evaluated@) == channel::slots_of(permutations@)
            &&& final(channel).trace() == old(channel).trace() + protocol::permutation_eval_steps(
                permutations@.len(),
                x,
            )
        },
        r matches Ok(evaluated) ==> forall|v: Stages<F, T, R, A>|
            stages::hold(v.permutation_committed, permutations@) && stages::hold(
                v.permutation_evaluated,
                evaluated@,
            ) ==> old(channel).goes_on(
                final(channel),
                #[trigger] stages::with_stages(arguments, v),
            ),
        r is Ok ==> old(channel).goes_on(final(channel), channel::with_arguments(arguments)),
        r matches Err(e) ==> {
            &&& old(channel).breaks_off(final(channel), channel::with_arguments(arguments), e)
            &&& exists|values: spec_fn(Slot) -> A::PermutationEvaluated|
                stages::stops_if(
                    old(channel),
                    final(channel),
                    arguments,
                    #[trigger] stages::evaluated_as::<F, T, R, A>(permutations@, values),
                    e,
                )
            &&& channel::stops_in(
                old(channel).trace(),
                protocol::permutation_eval_steps(permutations@.len(), x),
                final(channel).trace(),
            )
        },
{
    let ghost before = channel.trace();
    let ghost given = permutations@;
    let ghost slots = channel::slots_of(given);
    let ghost part = protocol::permutation_eval_steps::<F, P>(given.len(), x);
    let mut evaluated: Vec<Stage<A::PermutationEvaluated>> = Vec::new();
    assert(before + part.take(0) =~= before);
    for permutation in iter: permutations.into_iter()
        invariant
            before == old(channel).trace(),
            old(channel).goes_on(channel, channel::with_arguments(arguments)),
            forall|v: Stages<F, T, R, A>|
                stages::hold(v.permutation_committed, given) && stages::hold(
                    v.permutation_evaluated,
                    evaluated@,
                ) ==> old(channel).goes_on(
                    channel,
                    #[trigger] stages::with_stages(arguments, v),
                ),
            part == protocol::permutation_eval_steps::<F, P>(given.len(), x),
            given == permutations@,
            iter.seq() == given,
            slots == channel::slots_of(given),
            slots == protocol::permutation_slots(given.len()),
            channel::slots_of(evaluated@) == slots.take(iter.index()),
            channel.trace() == before + part.take(iter.index()),
    {
        let ghost i = iter.index();
        let ghost old_slots = channel::slots_of(evaluated@);
        assert(permutation == given[i]);
        assert(permutation.slot() == slots[i]);
        let ghost pre = *channel;
        let ghost old_stages = evaluated@;
        let stage = match channel.permutation_evaluate(arguments, permutation, x) {
            Ok(stage) => stage,
            Err(e) => {
                proof {
                    let known = evaluated@;
                    let values = |slot: Slot| known[slot.circuit].spec_value();
                    let fits = stages::evaluated_as::<F, T, R, A>(given, values);
                    assert(channel::slots_of(known).len() == known.len());
                    assert(channel::slots_of(known) =~= protocol::permutation_slots(known.len()));
                    lemma_found_by_circuit(values, known);
                    assert forall|v: Stages<F, T, R, A>| fits(v) implies old(channel).breaks_off(
                        channel,
                        #[trigger] stages::with_stages(arguments, v),
                        e,
                    ) by {
                        assert(stages::holds(v.permutation_committed, given[i]));
                        stages::lemma_staged_stop(&pre, channel, arguments, v, part[i], e);
                    }
                    assert(stages::stops_if(old(channel), channel, arguments, fits, e));
                }
                return Err(e);
            },
        };
        evaluated.push(stage);
        proof {
            assert forall|v: Stages<F, T, R, A>|
                stages::hold(v.permutation_committed, given) && stages::hold(
                    v.permutation_evaluated,
                    evaluated@,
                ) implies old(channel).goes_on(
                channel,
                #[trigger] stages::with_stages(arguments, v),
            ) by {
                lemma_hold_push(v.permutation_evaluated, old_stages, stage);
                assert(stages::holds(v.permutation_committed, given[i]));
                stages::lemma_staged(&pre, channel, arguments, v, part[i]);
            }
            assert(before + part.take(i + 1) =~= (before + part.take(i)).push(part[i]));
            assert(channel::slots_of(evaluated@) =~= old_slots.push(stage.slot()));
            assert(slots.take(i + 1) =~= old_slots.push(stage.slot()));
        }
    }
    proof {
        assert(part.take(given.len() as int) =~= part);
        assert(slots.take(given.len() as int) =~= slots);
    }
    Ok(evaluated)
}

/// Evaluates each lookup.
fn evaluate_lookups<F, P, T, R, A>(
    pk: &ProvingKey<F>,
    arguments: &A,
    lookups: Vec<Vec<Stage<A::LookupCommitted>>>,
    x: F,
    channel: &mut Channel<F, P, T, R>,
) -> (r: Result<Vec<Vec<Stage<A::LookupEvaluated>>>, Error>) where
    F: Field,
    T: TranscriptWrite<F, P>,
    R: RandomSource<F>,
    A: Arguments<F, T, R>,

    requires
        channel::all_slots_of(lookups@) == protocol::all_lookup_slots(
            lookups@.len(),
            pk.vk.cs.num_lookups as nat,
        ),
    ensures
        r matches Ok(evaluated) ==> {
            &&& channel::all_slots_of(evaluated@) == channel::all_slots_of(lookups@)
            &&& final(channel).trace() == old(channel).trace() + protocol::for_circuits(
                lookups@.len(),
                protocol::lookup_eval_steps(&pk.vk.cs, x),
            )
        },
        r matches Ok(evaluated) ==> forall|v: Stages<F, T, R, A>|
            stages::all_hold(v.lookup_committed, lookups@) && stages::all_hold(
                v.lookup_evaluated,
                evaluated@,
            ) ==> old(channel).goes_on(
                final(channel),
                #[trigger] stages::with_stages(arguments, v),
            ),
        r is Ok ==> old(channel).goes_on(final(channel), channel::with_arguments(arguments)),
        r matches Err(e) ==> {
            &&& old(channel).breaks_off(final(channel), channel::with_arguments(arguments), e)
            &&& exists|values: spec_fn(Slot) -> A::LookupEvaluated|
                stages::stops_if(
                    old(channel),
                    final(channel),
                    arguments,
                    #[trigger] stages::looked_up_as::<F, T, R, A>(lookups@, values),
                    e,
                )
            &&& channel::stops_in(
                old(channel).trace(),
                protocol::for_circuits(
                    lookups@.len(),
                    protocol::lookup_eval_steps(&pk.vk.cs, x),
                ),
                final(channel).trace(),
            )
        },
{
    let ghost before = channel.trace();
    let ghost f = protocol::lookup_eval_steps::<F, P>(&pk.vk.cs, x);
    let ghost count = pk.vk.cs.num_lookups as nat;
    let ghost given = lookups@;
    let mut evaluated: Vec<Vec<Stage<A::LookupEvaluated>>> = Vec::new();
    assert(before + Seq::empty() =~= before);
    for circuit_lookups in iter: lookups.into_iter()
        invariant
            before == old(channel).trace(),
            old(channel).goes_on(channel, channel::with_arguments(arguments)),
            forall|v: Stages<F, T, R, A>|
                stages::all_hold(v.lookup_committed, given) && stages::all_hold(
                    v.lookup_evaluated,
                    evaluated@,
                ) ==> old(channel).goes_on(
                    channel,
                    #[trigger] stages::with_stages(arguments, v),
                ),
            f == protocol::lookup_eval_steps::<F, P>(&pk.vk.cs, x),
            count == pk.vk.cs.num_lookups,
            given == lookups@,
            iter.seq() == given,
            channel::all_slots_of(given) == protocol::all_lookup_slots(given.len(), count),
            channel::all_slots_of(evaluated@) == protocol::all_lookup_slots(
                iter.index() as nat,
                count,
            ),
            channel.trace() == before + protocol::for_circuits(iter.index() as nat, f),
    {
        let ghost i = iter.index();
        let ghost start = channel.trace();
        let ghost part = f(i);
        let ghost old_evaluated = evaluated@;
        let ghost slots = protocol::lookup_slots(i, count);
        let ghost given_lookups = circuit_lookups@;
        proof {
            assert(circuit_lookups == given[i]);
            assert(channel::all_slots_of(given)[i] == slots);
            assert(channel::slots_of(given_lookups) == slots);
            assert(given_lookups.len() == slots.len());
        }
        let mut circuit_evaluated: Vec<Stage<A::LookupEvaluated>> = Vec::new();
        assert(start + part.take(0) =~= start);
        for lookup in inner: circuit_lookups.into_iter()
            invariant
                before == old(channel).trace(),
                start == before + protocol::for_circuits(i as nat, f),
                given == lookups@,
                0 <= i < given.len(),
                given_lookups == given[i]@,
                old(channel).goes_on(channel, channel::with_arguments(arguments)),
                forall|v: Stages<F, T, R, A>|
                    stages::all_hold(v.lookup_committed, given) && stages::all_hold(
                        v.lookup_evaluated,
                        evaluated@,
                    ) && stages::hold(
                        v.lookup_evaluated,
                        circuit_evaluated@,
                    ) ==> old(channel).goes_on(
                        channel,
                        #[trigger] stages::with_stages(arguments, v),
                    ),
                f == protocol::lookup_eval_steps::<F, P>(&pk.vk.cs, x),
                part == f(i),
                count == pk.vk.cs.num_lookups,
                inner.seq() == given_lookups,
                given_lookups.len() == count,
                slots == protocol::lookup_slots(i, count),
                channel::slots_of(given_lookups) == slots,
                channel::all_slots_of(evaluated@) == protocol::all_lookup_slots(i as nat, count),
                channel::slots_of(circuit_evaluated@) == slots.take(inner.index()),
                channel.trace() == start + part.take(inner.index()),
        {
            let ghost j = inner.index();
            let ghost old_slots = channel::slots_of(circuit_evaluated@);
            assert(lookup == given_lookups[j]);
            assert(lookup.slot() == channel::slots_of(given_lookups)[j]);
            let ghost pre = *channel;
            let ghost old_stages = circuit_evaluated@;
            let stage = match channel.lookup_evaluate(arguments, lookup, x) {
                Ok(stage) => stage,
                Err(e) => {
                    proof {
                        let known = evaluated@.push(circuit_evaluated);
                        let values = |slot: Slot| known[slot.circuit]@[slot.lookup].spec_value();
                        let fits = stages::looked_up_as::<F, T, R, A>(given, values);
                        assert(channel::all_slots_of(evaluated@).len() == evaluated@.len());
                        assert(slots.take(j) =~= protocol::lookup_slots(i, j as nat));
                        lemma_rows_hold(values, evaluated@, circuit_evaluated, count, j as nat);
                        assert forall|v: Stages<F, T, R, A>| fits(v) implies old(
                            channel,
                        ).breaks_off(channel, #[trigger] stages::with_stages(arguments, v), e) by {
                            assert(stages::hold(v.lookup_committed, given[i]@));
                            assert(stages::holds(v.lookup_committed, given_lookups[j]));
                            stages::lemma_staged_stop(&pre, channel, arguments, v, part[j], e);
                        }
                        assert(stages::stops_if(old(channel), channel, arguments, fits, e));
                        assert(channel::stops_in(start, part, channel.trace()));
                        protocol::lemma_stops_in_circuit(
                            before,
                            f,
                            i,
                            given.len(),
                            channel.trace(),
                        );
                    }
                    return Err(e);
                },
            };
            circuit_evaluated.push(stage);
            proof {
                assert forall|v: Stages<F, T, R, A>|
                    stages::all_hold(v.lookup_committed, given) && stages::all_hold(
                        v.lookup_evaluated,
                        evaluated@,
                    ) && stages::hold(
                        v.lookup_evaluated,
                        circuit_evaluated@,
                    ) implies old(channel).goes_on(
                    channel,
                    #[trigger] stages::with_stages(arguments, v),
                ) by {
                    lemma_hold_push(v.lookup_evaluated, old_stages, stage);
                    assert(stages::hold(v.lookup_committed, given[i]@));
                    assert(stages::holds(v.lookup_committed, given_lookups[j]));
                    stages::lemma_staged(&pre, channel, arguments, v, part[j]);
                }
                assert(start + part.take(j + 1) =~= (start + part.take(j)).push(part[j]));
                assert(channel::slots_of(circuit_evaluated@) =~= old_slots.push(stage.slot()));
                assert(slots.take(j + 1) =~= old_slots.push(stage.slot()));
            }
        }
        evaluated.push(circuit_evaluated);
        proof {
            assert forall|v: Stages<F, T, R, A>|
                stages::all_hold(v.lookup_committed, given) && stages::all_hold(
                    v.lookup_evaluated,
                    evaluated@,
                ) implies old(channel).goes_on(
                channel,
                #[trigger] stages::with_stages(arguments, v),
            ) by {
                lemma_all_hold_push(v.lookup_evaluated, old_evaluated, circuit_evaluated);
            }
            assert(part.take(count as int) =~= part);
            assert(slots.take(count as int) =~= slots);
            assert(channel::all_slots_of(evaluated@) =~= channel::all_slots_of(old_evaluated).push(
                slots,
            ));
            assert(protocol::all_lookup_slots((i + 1) as nat, count) =~= channel::all_slots_of(
                evaluated@,
            ));
            assert(channel.trace() =~= before + protocol::for_circuits((i + 1) as nat, f));
        }
    }
    Ok(evaluated)
}

/// The challenges of the lookup and permutation arguments.
pub(crate) struct ProductChallenges<F> {
    /// The challenge that keeps lookup columns linearly independent.
    pub theta: F,
    /// The first challenge of the products.
    pub beta: F,
    /// The second challenge of the products.
    pub gamma: F,
}

/// Drives the lookup and permutation arguments up to the commitments to their
/// products.
fn commit_all_products<F, P, T, R, A>(
    pk: &ProvingKey<F>,
    arguments: &A,
    instance: &Vec<InstanceSingle<F>>,
    advice: &Vec<AdviceCommitted<F, LagrangeCoeff>>,
    challenges: &Vec<F>,
    channel: &mut Channel<F, P, T, R>,
) -> (r: Result<
    (
        ProductChallenges<F>,
        Vec<Vec<Stage<A::LookupCommitted>>>,
        Vec<Stage<A::PermutationCommitted>>,
        Ghost<spec_fn(Slot) -> A::LookupPermuted>,
    ),
    Error,
>) where F: Field, T: TranscriptWrite<F, P>, R: RandomSource<F>, A: Arguments<F, T, R>
    requires
        instance@.len() == advice@.len(),
    ensures
        r matches Ok((c, lookups, permutations, _)) ==> {
            &&& channel::all_slots_of(lookups@) == protocol::all_lookup_slots(
                instance@.len(),
                pk.vk.cs.num_lookups as nat,
            )
            &&& channel::slots_of(permutations@) == protocol::permutation_slots(instance@.len())
            &&& final(channel).trace() == old(channel).trace() + protocol::product_commit_steps(
                pk,
                instance@,
                advice@,
                challenges@,
                c.theta,
                c.beta,
                c.gamma,
            )
        },
        r matches Ok((_, lookups, permutations, permuted)) ==> forall|v: Stages<F, T, R, A>|
            {
                &&& v.lookup_permuted == permuted@
                &&& stages::all_hold(v.lookup_committed, lookups@)
                &&& stages::hold(v.permutation_committed, permutations@)
            } ==> old(channel).goes_on(
                final(channel),
                #[trigger] stages::with_stages(arguments, v),
            ),
        r is Ok ==> old(channel).goes_on(final(channel), channel::with_arguments(arguments)),
        r matches Err(e) ==> {
            &&& old(channel).breaks_off(final(channel), channel::with_arguments(arguments), e)
            &&& exists|found: Stages<F, T, R, A>|
                old(channel).breaks_off(
                    final(channel),
                    #[trigger] stages::with_stages(arguments, found),
                    e,
                )
            &&& protocol::stops_in_products(
                pk,
                instance@,
                advice@,
                challenges@,
                old(channel).trace(),
                final(channel).trace(),
            )
        },
{
    let ghost before = channel.trace();

    // Sample theta challenge for keeping lookup columns linearly independent
    let theta = channel.squeeze_challenge_scalar();
    let ghost first = seq![Step::<F, P>::Squeeze(theta)];
    let ghost permuted = protocol::for_circuits(
        instance@.len(),
        protocol::permuted_steps::<F, P>(pk, theta, instance@, advice@, challenges@),
    );
    assert(before + first =~= channel.trace());
    let ghost at_theta = *channel;
    let lookups = match commit_permuted(
        pk,
        arguments,
        theta,
        instance,
        advice,
        challenges,
        channel,
    ) {
        Ok(lookups) => lookups,
        Err(e) => {
            proof {
                let values = choose|values: spec_fn(Slot) -> A::LookupPermuted|
                    stages::stops_if(
                        &at_theta,
                        channel,
                        arguments,
                        #[trigger] stages::permuted_as::<F, T, R, A>(values),
                        e,
                    );
                let found = Stages::<F, T, R, A> { lookup_permuted: values, ..arbitrary() };
                assert((stages::permuted_as::<F, T, R, A>(values))(found));
                assert(old(channel).breaks_off(channel, stages::with_stages(arguments, found), e));
                channel::lemma_stops_later(before, first, permuted, channel.trace());
                let squeezed = seq![Step::<F, P>::Squeeze(theta), Step::<F, P>::Squeeze(theta)];
                let committed = protocol::permutation_steps::<F, P>(
                    pk,
                    instance@,
                    advice@,
                    theta,
                    theta,
                );
                let products = protocol::for_circuits(
                    instance@.len(),
                    protocol::product_steps::<F, P>(&pk.vk.cs, theta, theta),
                );
                let part = first + permuted;
                channel::lemma_stops_earlier(before, part, squeezed, channel.trace());
                channel::lemma_stops_earlier(before, part + squeezed, committed, channel.trace());
                channel::lemma_stops_earlier(
                    before,
                    part + squeezed + committed,
                    products,
                    channel.trace(),
                );
                assert(channel::stops_in(
                    before,
                    protocol::product_commit_steps::<F, P>(
                        pk,
                        instance@,
                        advice@,
                        challenges@,
                        theta,
                        theta,
                        theta,
                    ),
                    channel.trace(),
                ));
            }
            return Err(e);
        },
    };

    let ghost given = lookups@;
    let ghost permuted_values = |slot: Slot| given[slot.circuit]@[slot.lookup].spec_value();
    proof {
        assert(channel::all_slots_of(given).len() == given.len());
        lemma_values_hold(permuted_values, given, pk.vk.cs.num_lookups as nat);
    }

    // Sample beta challenge
    let beta = channel.squeeze_challenge_scalar();
    // Sample gamma challenge
    let gamma = channel.squeeze_challenge_scalar();

    // Commit to permutations.
    let ghost squeezed = seq![Step::<F, P>::Squeeze(beta), Step::<F, P>::Squeeze(gamma)];
    let ghost committed = protocol::permutation_steps::<F, P>(
        pk,
        instance@,
        advice@,
        beta,
        gamma,
    );
    let ghost products = protocol::for_circuits(
        instance@.len(),
        protocol::product_steps::<F, P>(&pk.vk.cs, beta, gamma),
    );
    assert(before + (first + permuted + squeezed) =~= channel.trace());
    let ghost at_gamma = *channel;
    let permutations = match commit_permutations(
        pk,
        arguments,
        beta,
        gamma,
        instance,
        advice,
        channel,
    ) {
        Ok(permutations) => permutations,
        Err(e) => {
            proof {
                let values = choose|values: spec_fn(Slot) -> A::PermutationCommitted|
                    stages::stops_if(
                        &at_gamma,
                        channel,
                        arguments,
                        #[trigger] stages::multiplied_as::<F, T, R, A>(values),
                        e,
                    );
                let found = Stages::<F, T, R, A> {
                    lookup_permuted: permuted_values,
                    permutation_committed: values,
                    ..arbitrary()
                };
                assert((stages::multiplied_as::<F, T, R, A>(values))(found));
                assert(old(channel).goes_on(&at_gamma, stages::with_stages(arguments, found)));
                assert(old(channel).breaks_off(channel, stages::with_stages(arguments, found), e));
                channel::lemma_stops_later(
                    before,
                    first + permuted + squeezed,
                    committed,
                    channel.trace(),
                );
                channel::lemma_stops_earlier(
                    before,
                    first + permuted + squeezed + committed,
                    products,
                    channel.trace(),
                );
                assert(channel::stops_in(
                    before,
                    protocol::product_commit_steps::<F, P>(
                        pk,
                        instance@,
                        advice@,
                        challenges@,
                        theta,
                        beta,
                        gamma,
                    ),
                    channel.trace(),
                ));
            }
            return Err(e);
        },
    };
    assert(channel::all_slots_of(lookups@).len() == lookups@.len());
    assert(before + (first + permuted + squeezed + committed) =~= channel.trace());
    let ghost at_permutations = *channel;
    let lookups = match commit_products(pk, arguments, beta, gamma, lookups, channel) {
        Ok(lookups) => lookups,
        Err(e) => {
            proof {
                let values = choose|values: spec_fn(Slot) -> A::LookupCommitted|
                    stages::stops_if(
                        &at_permutations,
                        channel,
                        arguments,
                        #[trigger] stages::committed_as::<F, T, R, A>(given, values),
                        e,
                    );
                let found = Stages::<F, T, R, A> {
                    lookup_permuted: permuted_values,
                    permutation_committed: |slot: Slot| permutations@[slot.circuit].spec_value(),
                    lookup_committed: values,
                    ..arbitrary()
                };
                assert((stages::committed_as::<F, T, R, A>(given, values))(found));
                assert(channel::slots_of(permutations@).len() == permutations@.len());
                lemma_found_by_circuit(found.permutation_committed, permutations@);
                let how = stages::with_stages::<F, P, T, R, A>(arguments, found);
                assert(old(channel).goes_on(&at_gamma, how));
                assert(at_gamma.goes_on(&at_permutations, how));
                assert(old(channel).breaks_off(channel, how, e));
                channel::lemma_stops_later(
                    before,
                    first + permuted + squeezed + committed,
                    products,
                    channel.trace(),
                );
                assert(channel::stops_in(
                    before,
                    protocol::product_commit_steps::<F, P>(
                        pk,
                        instance@,
                        advice@,
                        challenges@,
                        theta,
                        beta,
                        gamma,
                    ),
                    channel.trace(),
                ));
            }
            return Err(e);
        },
    };
    proof {
        assert(channel.trace() =~= before + protocol::product_commit_steps(
            pk,
            instance@,
            advice@,
            challenges@,
            theta,
            beta,
            gamma,
        ));
    }
    Ok((ProductChallenges { theta, beta, gamma }, lookups, permutations, Ghost(permuted_values)))
}

/// Drives the arguments up to the commitments to the quotient polynomial.
pub(crate) fn commit_arguments<F, P, T, R, A>(
    pk: &ProvingKey<F>,
    arguments: &A,
    instance: &Vec<InstanceSingle<F>>,
    advice: Vec<AdviceCommitted<F, LagrangeCoeff>>,
    challenges: &Vec<F>,
    channel: &mut Channel<F, P, T, R>,
) -> (r: Result<
    (
        Vec<AdviceCommitted<F, Coeff>>,
        Vec<Vec<Stage<A::LookupCommitted>>>,
        Vec<Stage<A::PermutationCommitted>>,
        Stage<A::VanishingConstructed>,
        Ghost<QuotientRecord<F>>,
        Ghost<(spec_fn(Slot) -> A::LookupPermuted, A::VanishingCommitted)>,
    ),
    Error,
>) where F: Field, T: TranscriptWrite<F, P>, R: RandomSource<F>, A: Arguments<F, T, R>
    requires
        pk.vk.domain.wf(),
        instance@.len() == advice@.len(),
        forall|i: int|
            0 <= i < advice@.len() ==> witness::advice_fits(
                &pk.vk.cs,
                pk.vk.domain.n,
                #[trigger] advice@[i],
            ),
    ensures
        r matches Ok((coeffs, lookups, permutations, vanishing, record, _)) ==> {
            &&& record@.advice_polys == queries::coeffs_of(coeffs@)
            &&& protocol::advice_interpolated(&pk.vk.domain, advice@, queries::coeffs_of(coeffs@))
            &&& protocol::all_blinds_of(coeffs@) == protocol::all_blinds_of(advice@)
            &&& forall|i: int|
                0 <= i < coeffs@.len() ==> witness::same_shape(
                    &pk.vk.cs,
                    #[trigger] coeffs@[i],
                )
            &&& channel::all_slots_of(lookups@) == protocol::all_lookup_slots(
                instance@.len(),
                pk.vk.cs.num_lookups as nat,
            )
            &&& channel::slots_of(permutations@) == protocol::permutation_slots(instance@.len())
            &&& final(channel).trace() == old(channel).trace() + protocol::quotient_steps(
                pk,
                instance@,
                advice@,
                challenges@,
                record@,
            )
        },
        r matches Ok((_, lookups, permutations, vanishing, _, used)) ==> forall|
            v: Stages<F, T, R, A>,
        |
            {
                &&& v.lookup_permuted == used@.0
                &&& v.vanishing_committed == used@.1
                &&& v.vanishing_constructed == vanishing.spec_value()
                &&& stages::all_hold(v.lookup_committed, lookups@)
                &&& stages::hold(v.permutation_committed, permutations@)
            } ==> old(channel).goes_on(
                final(channel),
                #[trigger] stages::with_stages(arguments, v),
            ),
        r is Ok ==> old(channel).goes_on(final(channel), channel::with_arguments(arguments)),
        r matches Err(e) ==> {
            &&& old(channel).breaks_off(final(channel), channel::with_arguments(arguments), e)
            &&& exists|found: Stages<F, T, R, A>|
                old(channel).breaks_off(
                    final(channel),
                    #[trigger] stages::with_stages(arguments, found),
                    e,
                )
            &&& protocol::stops_in_quotient(
                pk,
                instance@,
                advice@,
                challenges@,
                old(channel).trace(),
                final(channel).trace(),
            )
        },
{
    let ghost before = channel.trace();
    let ghost given = advice@;
    let (c, lookups, permutations, permuted) = match commit_all_products(
        pk,
        arguments,
        instance,
        &advice,
        challenges,
        channel,
    ) {
        Ok(committed) => committed,
        Err(e) => {
            proof {
                protocol::lemma_stops_in_products(
                    pk,
                    instance@,
                    given,
                    challenges@,
                    before,
                    channel.trace(),
                );
            }
            return Err(e);
        },
    };

    // Commit to the vanishing argument's random polynomial for blinding h(x_3)
    let ghost products = protocol::product_commit_steps::<F, P>(
        pk,
        instance@,
        given,
        challenges@,
        c.theta,
        c.beta,
        c.gamma,
    );
    let ghost committed = channel.trace();
    let ghost at_products = *channel;
    assert(channel::slots_of(permutations@).len() == permutations@.len());
    let vanishing = match channel.vanishing_commit(arguments) {
        Ok(vanishing) => vanishing,
        Err(e) => {
            proof {
                let found = Stages::<F, T, R, A> {
                    lookup_permuted: permuted@,
                    permutation_committed: |slot: Slot| permutations@[slot.circuit].spec_value(),
                    lookup_committed: |slot: Slot|
                        lookups@[slot.circuit]@[slot.lookup].spec_value(),
                    ..arbitrary()
                };
                lemma_products_held(pk, found, lookups@, permutations@);
                let step = Step::<F, P>::VanishingCommitted;
                stages::lemma_staged_stop(&at_products, channel, arguments, found, step, e);
                assert(old(channel).breaks_off(channel, stages::with_stages(arguments, found), e));
                channel::lemma_stops_later(
                    before,
                    products,
                    seq![Step::<F, P>::VanishingCommitted],
                    channel.trace(),
                );
            }
            return Err(e);
        },
    };

    let ghost at_blinding = *channel;
    let ghost blinding = vanishing.spec_value();

    // Obtain challenge for keeping all separate gates linearly independent
    let y = channel.squeeze_challenge_scalar();

    // Calculate the advice polys
    let advice = into_coeffs(pk, advice);
    let advice_polys = advice_slices(&advice);
    let instance_polys = instance_slices(instance);

    // Evaluate the h(X) polynomial
    let ghost at_columns = *channel;
    let h_poly = channel.evaluate_h(
        arguments,
        &advice_polys,
        &instance_polys,
        challenges,
        y,
        c.beta,
        c.gamma,
        c.theta,
        &lookups,
        &permutations,
    );
    let ghost record = QuotientRecord {
        theta: c.theta,
        beta: c.beta,
        gamma: c.gamma,
        y,
        advice_polys: queries::coeffs_of(advice@),
        h: h_poly@,
    };

    // Construct the vanishing argument's h(X) commitments
    let ghost steps = protocol::vanishing_steps::<F, P>(pk, instance@, challenges@, record);
    let ghost at_quotient = *channel;
    assert(committed + steps.take(3) =~= channel.trace());
    let vanishing = match channel.vanishing_construct(arguments, vanishing, h_poly) {
        Ok(vanishing) => vanishing,
        Err(e) => {
            proof {
                let found = Stages::<F, T, R, A> {
                    lookup_permuted: permuted@,
                    permutation_committed: |slot: Slot| permutations@[slot.circuit].spec_value(),
                    lookup_committed: |slot: Slot|
                        lookups@[slot.circuit]@[slot.lookup].spec_value(),
                    vanishing_committed: blinding,
                    ..arbitrary()
                };
                let how = stages::with_stages::<F, P, T, R, A>(arguments, found);
                lemma_products_held(pk, found, lookups@, permutations@);
                stages::lemma_staged(&at_products, &at_blinding, arguments, found, steps[0]);
                lemma_quotient_values(found.lookup_committed, lookups@);
                lemma_product_values(found.permutation_committed, permutations@);
                stages::lemma_staged(&at_columns, &at_quotient, arguments, found, steps[2]);
                assert(old(channel).goes_on(&at_quotient, how));
                stages::lemma_staged_stop(&at_quotient, channel, arguments, found, steps[3], e);
                assert(old(channel).breaks_off(channel, how, e));
                assert(channel::stops_in(committed, steps, channel.trace()));
                channel::lemma_stops_later(before, products, steps, channel.trace());
                assert(channel::stops_in(
                    before,
                    protocol::quotient_steps(pk, instance@, given, challenges@, record),
                    channel.trace(),
                ));
            }
            return Err(e);
        },
    };
    proof {
        assert forall|v: Stages<F, T, R, A>|
            {
                &&& v.lookup_permuted == permuted@
                &&& v.vanishing_committed == blinding
                &&& v.vanishing_constructed == vanishing.spec_value()
                &&& stages::all_hold(v.lookup_committed, lookups@)
                &&& stages::hold(v.permutation_committed, permutations@)
            } implies old(channel).goes_on(
            channel,
            #[trigger] stages::with_stages(arguments, v),
        ) by {
            stages::lemma_staged(&at_products, &at_blinding, arguments, v, steps[0]);
            lemma_quotient_values(v.lookup_committed, lookups@);
            lemma_product_values(v.permutation_committed, permutations@);
            stages::lemma_staged(&at_columns, &at_quotient, arguments, v, steps[2]);
            stages::lemma_staged(&at_quotient, channel, arguments, v, steps[3]);
        }
        assert(protocol::all_blinds_of(advice@) =~= protocol::all_blinds_of(given));
        assert(channel.trace() =~= before + protocol::quotient_steps(
            pk,
            instance@,
            given,
            challenges@,
            record,
        ));
    }
    Ok((
        advice,
        lookups,
        permutations,
        vanishing,
        Ghost(record),
        Ghost((permuted@, blinding)),
    ))
}

/// Evaluates the arguments at a challenge `x`, whose power by the size of the
/// domain is `xn`.
pub(crate) fn evaluate_arguments<F, P, T, R, A>(
    pk: &ProvingKey<F>,
    arguments: &A,
    lookups: Vec<Vec<Stage<A::LookupCommitted>>>,
    permutations: Vec<Stage<A::PermutationCommitted>>,
    vanishing: Stage<A::VanishingConstructed>,
    x: F,
    xn: F,
    channel: &mut Channel<F, P, T, R>,
) -> (r: Result<
    (
        Vec<Vec<Stage<A::LookupEvaluated>>>,
        Vec<Stage<A::PermutationEvaluated>>,
        Stage<A::VanishingEvaluated>,
    ),
    Error,
>) where F: Field, T: TranscriptWrite<F, P>, R: RandomSource<F>, A: Arguments<F, T, R>
    requires
        channel::all_slots_of(lookups@) == protocol::all_lookup_slots(
            permutations@.len(),
            pk.vk.cs.num_lookups as nat,
        ),
        channel::slots_of(permutations@) == protocol::permutation_slots(permutations@.len()),
    ensures
        r matches Ok((new_lookups, new_permutations, _)) ==> {
            &&& channel::all_slots_of(new_lookups@) == channel::all_slots_of(lookups@)
            &&& channel::slots_of(new_permutations@) == channel::slots_of(permutations@)
            &&& final(channel).trace() == old(channel).trace() + protocol::argument_eval_steps(
                &pk.vk.cs,
                permutations@.len(),
                x,
                xn,
            )
        },
        r matches Ok((new_lookups, new_permutations, new_vanishing)) ==> forall|
            v: Stages<F, T, R, A>,
        |
            {
                &&& stages::all_hold(v.lookup_committed, lookups@)
                &&& stages::hold(v.permutation_committed, permutations@)
                &&& v.vanishing_constructed == vanishing.spec_value()
                &&& stages::all_hold(v.lookup_evaluated, new_lookups@)
                &&& stages::hold(v.permutation_evaluated, new_permutations@)
                &&& v.vanishing_evaluated == new_vanishing.spec_value()
            } ==> old(channel).goes_on(
                final(channel),
                #[trigger] stages::with_stages(arguments, v),
            ),
        r is Ok ==> old(channel).goes_on(final(channel), channel::with_arguments(arguments)),
        r matches Err(e) ==> {
            &&& old(channel).breaks_off(final(channel), channel::with_arguments(arguments), e)
            &&& exists|found: Stages<F, T, R, A>|
                stages::stops_if(
                    old(channel),
                    final(channel),
                    arguments,
                    #[trigger] stages::argued_as(
                        lookups@,
                        permutations@,
                        vanishing.spec_value(),
                        found,
                    ),
                    e,
                )
            &&& channel::stops_in(
                old(channel).trace(),
                protocol::argument_eval_steps(&pk.vk.cs, permutations@.len(), x, xn),
                final(channel).trace(),
            )
        },
{
    let ghost before = channel.trace();
    let ghost count = permutations@.len();
    let ghost given = (lookups@, permutations@, vanishing.spec_value());
    let ghost common = seq![
        Step::<F, P>::VanishingEvaluated { x, xn },
        Step::<F, P>::CommonPermutationEvaluated { x },
    ];
    let ghost permuted = protocol::permutation_eval_steps::<F, P>(count, x);
    let ghost looked_up = protocol::for_circuits(
        count,
        protocol::lookup_eval_steps::<F, P>(&pk.vk.cs, x),
    );
    assert(before + common.take(0) =~= before);
    let vanishing = match channel.vanishing_evaluate(arguments, vanishing, x, xn) {
        Ok(vanishing) => vanishing,
        Err(e) => {
            proof {
                let found = arbitrary::<Stages<F, T, R, A>>();
                let fits = stages::argued_as(given.0, given.1, given.2, found);
                assert forall|v: Stages<F, T, R, A>| fits(v) implies old(channel).breaks_off(
                    channel,
                    #[trigger] stages::with_stages(arguments, v),
                    e,
                ) by {
                    stages::lemma_staged_stop(old(channel), channel, arguments, v, common[0], e);
                }
                assert(stages::stops_if(old(channel), channel, arguments, fits, e));
                assert(channel::stops_in(before, common, channel.trace()));
                channel::lemma_stops_earlier(before, common, permuted, channel.trace());
                channel::lemma_stops_earlier(
                    before,
                    common + permuted,
                    looked_up,
                    channel.trace(),
                );
            }
            return Err(e);
        },
    };

    // Evaluate common permutation data
    let ghost at_vanishing = *channel;
    assert(before + common.take(1) =~= channel.trace());
    if let Err(e) = channel.permutation_evaluate_common(arguments, x) {
        proof {
            let found = Stages::<F, T, R, A> {
                vanishing_evaluated: vanishing.spec_value(),
                ..arbitrary()
            };
            let fits = stages::argued_as(given.0, given.1, given.2, found);
            assert forall|v: Stages<F, T, R, A>| fits(v) implies old(channel).breaks_off(
                channel,
                #[trigger] stages::with_stages(arguments, v),
                e,
            ) by {
                stages::lemma_staged(old(channel), &at_vanishing, arguments, v, common[0]);
                stages::lemma_staged_stop(&at_vanishing, channel, arguments, v, common[1], e);
            }
            assert(stages::stops_if(old(channel), channel, arguments, fits, e));
            assert(channel::stops_in(before, common, channel.trace()));
            channel::lemma_stops_earlier(before, common, permuted, channel.trace());
            channel::lemma_stops_earlier(before, common + permuted, looked_up, channel.trace());
        }
        return Err(e);
    }
    let ghost at_common = *channel;

    // Evaluate the permutations, if any, at omega^i x.
    assert(before + common =~= channel.trace());
    let permutations = match evaluate_permutations(arguments, permutations, x, channel) {
        Ok(permutations) => permutations,
        Err(e) => {
            proof {
                let values = choose|values: spec_fn(Slot) -> A::PermutationEvaluated|
                    stages::stops_if(
                        &at_common,
                        channel,
                        arguments,
                        #[trigger] stages::evaluated_as::<F, T, R, A>(given.1, values),
                        e,
                    );
                let found = Stages::<F, T, R, A> {
                    vanishing_evaluated: vanishing.spec_value(),
                    permutation_evaluated: values,
                    ..arbitrary() };
                let fits = stages::argued_as(given.0, given.1, given.2, found);
                assert forall|v: Stages<F, T, R, A>| fits(v) implies old(channel).breaks_off(
                    channel,
                    #[trigger] stages::with_stages(arguments, v),
                    e,
                ) by {
                    stages::lemma_staged(old(channel), &at_vanishing, arguments, v, common[0]);
                    stages::lemma_staged(&at_vanishing, &at_common, arguments, v, common[1]);
                    assert((stages::evaluated_as::<F, T, R, A>(given.1, values))(v));
                }
                assert(stages::stops_if(old(channel), channel, arguments, fits, e));
                channel::lemma_stops_later(before, common, permuted, channel.trace());
                channel::lemma_stops_earlier(
                    before,
                    common + permuted,
                    looked_up,
                    channel.trace(),
                );
            }
            return Err(e);
        },
    };

    // Evaluate the lookups, if any, at omega^i x.
    assert(channel::all_slots_of(lookups@).len() == lookups@.len());
    assert(before + (common + permuted) =~= channel.trace());
    let ghost at_permutations = *channel;
    let lookups = match evaluate_lookups(pk, arguments, lookups, x, channel) {
        Ok(lookups) => lookups,
        Err(e) => {
            proof {
                assert(channel::slots_of(permutations@).len() == permutations@.len());
                let values = choose|values: spec_fn(Slot) -> A::LookupEvaluated|
                    stages::stops_if(
                        &at_permutations,
                        channel,
                        arguments,
                        #[trigger] stages::looked_up_as::<F, T, R, A>(given.0, values),
                        e,
                    );
                let found = Stages::<F, T, R, A> {
                    vanishing_evaluated: vanishing.spec_value(),
                    permutation_evaluated: |slot: Slot| permutations@[slot.circuit].spec_value(),
                    lookup_evaluated: values,
                    ..arbitrary() };
                let fits = stages::argued_as(given.0, given.1, given.2, found);
                assert forall|v: Stages<F, T, R, A>| fits(v) implies old(channel).breaks_off(
                    channel,
                    #[trigger] stages::with_stages(arguments, v),
                    e,
                ) by {
                    stages::lemma_staged(old(channel), &at_vanishing, arguments, v, common[0]);
                    stages::lemma_staged(&at_vanishing, &at_common, arguments, v, common[1]);
                    lemma_found_by_circuit(v.permutation_evaluated, permutations@);
                    let how = stages::with_stages::<F, P, T, R, A>(arguments, v);
                    assert(at_common.goes_on(&at_permutations, how));
                    assert((stages::looked_up_as::<F, T, R, A>(given.0, values))(v));
                }
                assert(stages::stops_if(old(channel), channel, arguments, fits, e));
                channel::lemma_stops_later(before, common + permuted, looked_up, channel.trace());
            }
            return Err(e);
        },
    };
    proof {
        assert forall|v: Stages<F, T, R, A>|
            {
                &&& stages::all_hold(v.lookup_committed, given.0)
                &&& stages::hold(v.permutation_committed, given.1)
                &&& v.vanishing_constructed == given.2
                &&& stages::all_hold(v.lookup_evaluated, lookups@)
                &&& stages::hold(v.permutation_evaluated, permutations@)
                &&& v.vanishing_evaluated == vanishing.spec_value()
            } implies old(channel).goes_on(
            channel,
            #[trigger] stages::with_stages(arguments, v),
        ) by {
            stages::lemma_staged(old(channel), &at_vanishing, arguments, v, common[0]);
            stages::lemma_staged(&at_vanishing, &at_common, arguments, v, common[1]);
        }
        assert(channel.trace() =~= before + protocol::argument_eval_steps(
            &pk.vk.cs,
            count,
            x,
            xn,
        ));
    }
    Ok((lookups, permutations, vanishing))
}

} // verus!
