//! Laws of two runs: what does not matter to a proof.
//!
//! The two runs are given the same answers: the same commitments, challenges,
//! random elements, results of arguments and failures. They are compared by the
//! values of the field elements in their steps. A run may have come to its end, or
//! may have been stopped by a step that failed.

use super::channel;
use super::channel::Step;
use super::circuit;
use super::circuit::Circuit;
use super::commit;
use super::halting;
use super::halting_proof;
use super::halting_witness;
use super::halting_witness::Start;
use super::history;
use super::history::Action;
use super::prover;
use super::replay;
use super::replay::World;
use super::replay_proof;
use super::steps;
use super::steps::{CircuitRecord, PhaseRecord};
use super::witness;
use super::witness::{AdviceCommitted, AdviceSingle, InstanceSingle};
use super::ProvingKey;
use crate::curve::Curve;
use crate::field;
use crate::field::Field;
use crate::poly::commitment::Params;
use crate::poly::laws;
use crate::poly::{EvaluationDomain, LagrangeCoeff};
use vstd::prelude::*;

verus! {

/// The value in a row of a column that is padded with zeroes.
pub open spec fn padded_value<F: Field>(column: Seq<F>, row: int) -> int {
    if row < column.len() {
        column[row].value()
    } else {
        0
    }
}

/// The instances differ in nothing but zeroes at the end of columns. Where
/// columns are absorbed value by value, they do not differ in those either.
pub open spec fn alike_instances<F: Field>(
    query_instance: bool,
    columns: int,
    a: Seq<Seq<Seq<F>>>,
    b: Seq<Seq<Seq<F>>>,
) -> bool {
    &&& a.len() == b.len()
    &&& forall|i: int| 0 <= i < a.len() ==> (#[trigger] a[i]).len() == columns
    &&& forall|i: int| 0 <= i < b.len() ==> (#[trigger] b[i]).len() == columns
    &&& forall|i: int, c: int, row: int|
        0 <= i < a.len() && 0 <= c < columns && 0 <= row ==> #[trigger] padded_value(
            a[i][c],
            row,
        ) == padded_value(b[i][c], row)
    &&& !query_instance ==> replay::tables(a) == replay::tables(b)
}

/// Padded columns that are alike have the same coefficients.
proof fn lemma_single_repeats<F: Field>(
    domain: EvaluationDomain<F>,
    instance_a: Seq<Seq<F>>,
    instance_b: Seq<Seq<F>>,
    a: InstanceSingle<F>,
    b: InstanceSingle<F>,
)
    requires
        domain.wf(),
        instance_a.len() == instance_b.len(),
        forall|c: int, row: int|
            0 <= c < instance_a.len() && 0 <= row ==> #[trigger] padded_value(
                instance_a[c],
                row,
            ) == padded_value(instance_b[c], row),
        witness::is_instance_single(&domain, instance_a, a),
        witness::is_instance_single(&domain, instance_b, b),
    ensures
        replay_proof::same_singles(seq![a], seq![b]),
{
    let (va, vb) = (replay::instance_values(a), replay::instance_values(b));
    let (pa, pb) = (
        channel::values_of(a.instance_polys@),
        channel::values_of(b.instance_polys@),
    );
    assert forall|c: int| 0 <= c < va.len() implies replay::lists(va)[c] == (
    #[trigger] replay::lists(vb)[c]) by {
        assert(witness::is_padded(a.instance_values@[c]@, instance_a[c], domain.n as int));
        assert(witness::is_padded(b.instance_values@[c]@, instance_b[c], domain.n as int));
        assert forall|row: int| 0 <= row < domain.n implies (#[trigger] va[c][row]).value()
            == vb[c][row].value() by {
            assert(padded_value(instance_a[c], row) == padded_value(instance_b[c], row));
        }
        assert(field::values_of(va[c]) =~= field::values_of(vb[c]));
    }
    assert(replay::lists(va) =~= replay::lists(vb));
    assert forall|c: int| 0 <= c < pa.len() implies replay::lists(pa)[c] == (
    #[trigger] replay::lists(pb)[c]) by {
        assert(a.instance_polys@[c]@ == pa[c] && b.instance_polys@[c]@ == pb[c]);
        assert(witness::is_padded(a.instance_values@[c]@, instance_a[c], domain.n as int));
        assert(replay::lists(va)[c] == replay::lists(vb)[c]);
        laws::lemma_interpolation_unique(domain, va[c], pa[c], pb[c]);
        assert(field::values_of(pa[c]) =~= field::values_of(pb[c]));
    }
    assert(replay::lists(pa) =~= replay::lists(pb));
}

/// The instance columns of each circuit are alike.
proof fn lemma_singles_repeat<F: Field>(
    pk: &ProvingKey<F>,
    query_instance: bool,
    instances_a: Seq<Seq<Seq<F>>>,
    instances_b: Seq<Seq<Seq<F>>>,
    a: Seq<InstanceSingle<F>>,
    b: Seq<InstanceSingle<F>>,
)
    requires
        pk.vk.domain.wf(),
        alike_instances(
            query_instance,
            pk.vk.cs.num_instance_columns as int,
            instances_a,
            instances_b,
        ),
        witness::are_instance_singles(&pk.vk.domain, instances_a, a),
        witness::are_instance_singles(&pk.vk.domain, instances_b, b),
    ensures
        replay_proof::same_singles(a, b),
        replay::absorbs_alike(query_instance, instances_a, instances_b, a, b),
        forall|i: int|
            0 <= i < a.len() ==> (#[trigger] a[i]).instance_polys@.len()
                == pk.vk.cs.num_instance_columns,
{
    assert forall|i: int| 0 <= i < a.len() implies {
        &&& replay::lists(replay::instance_values(#[trigger] a[i])) == replay::lists(
            replay::instance_values(b[i]),
        )
        &&& replay::lists(channel::values_of(a[i].instance_polys@)) == replay::lists(
            channel::values_of(b[i].instance_polys@),
        )
        &&& a[i].instance_polys@.len() == pk.vk.cs.num_instance_columns
    } by {
        assert(witness::is_instance_single(&pk.vk.domain, instances_a[i], a[i]));
        assert(witness::is_instance_single(&pk.vk.domain, instances_b[i], b[i]));
        assert(instances_a[i].len() == pk.vk.cs.num_instance_columns);
        assert(instances_b[i].len() == pk.vk.cs.num_instance_columns);
        lemma_single_repeats(pk.vk.domain, instances_a[i], instances_b[i], a[i], b[i]);
        let (sa, sb) = (seq![a[i]], seq![b[i]]);
        assert(sa[0] == a[i] && sb[0] == b[i]);
    }
    assert forall|i: int| #![trigger instances_a[i]] 0 <= i < instances_a.len() implies
        replay::same_instances(
        query_instance,
        instances_a[i],
        instances_b[i],
        replay::instance_values(a[i]),
        replay::instance_values(b[i]),
    ) by {
        if query_instance {
            assert(a[i] == a[i]);
        } else {
            assert(replay::tables(instances_a)[i] == replay::tables(instances_b)[i]);
        }
    }
}

/// The key is absorbed before anything else.
pub open spec fn key_step<F, P>(pk: &ProvingKey<F>) -> Seq<Step<F, P>> {
    seq![Step::CommonScalar(pk.vk.transcript_repr)]
}

/// If one of two runs that are answered alike was stopped at the key, so was the
/// other.
proof fn lemma_key_alike<F: Field, P>(
    pk: &ProvingKey<F>,
    world: World<P>,
    before: Seq<Step<F, P>>,
    after_a: Seq<Step<F, P>>,
    after_b: Seq<Step<F, P>>,
)
    requires
        halting_proof::are_answered(world, before, before, after_a, after_b),
        halting::reaches(before, key_step(pk), after_a),
        halting::reaches(before, key_step(pk), after_b),
    ensures
        channel::stops_in(before, key_step(pk), after_a) || channel::stops_in(
            before,
            key_step(pk),
            after_b,
        ) ==> {
            &&& replay::shapes(after_a) == replay::shapes(after_b)
            &&& channel::stops_in(before, key_step(pk), after_a)
            &&& channel::stops_in(before, key_step(pk), after_b)
        },
{
    let key = key_step::<F, P>(pk);
    halting::lemma_runs_alike(world, before, before, key, key, after_a, after_b);
    if channel::stops_in(before, key, after_a) {
        halting::lemma_stopped_short(before, key, after_a);
    }
    if channel::stops_in(before, key, after_b) {
        halting::lemma_stopped_short(before, key, after_b);
    }
}

/// A run that was not stopped at the key: it got to the arguments with what is
/// known of its circuits, or was stopped in the course of these.
pub open spec fn is_known<F: Field, C: Curve, S: Params<F, C>>(
    params: &S,
    pk: &ProvingKey<F>,
    query_instance: bool,
    instances: Seq<Seq<Seq<F>>>,
    singles: Seq<InstanceSingle<F>>,
    start: Start<F, C::AffineRepr>,
    before: Seq<Step<F, C::AffineRepr>>,
    after: Seq<Step<F, C::AffineRepr>>,
) -> bool {
    &&& witness::are_instance_singles(&pk.vk.domain, instances, singles)
    &&& halting_witness::is_start::<F, C, S>(
        params,
        pk,
        query_instance,
        instances,
        singles,
        start,
        before + key_step(pk),
        after,
    )
    &&& !start.stopped ==> halting_proof::is_run(
        pk,
        query_instance,
        singles,
        start.advice,
        start.challenges,
        before + key_step(pk) + steps::circuits_steps(
            start.records,
            query_instance,
            instances,
            pk.unusable_rows_start(),
        ),
        after,
    )
}

/// A run that was not stopped at the key went past it.
proof fn lemma_past_key<F: Field, C: Curve, S: Params<F, C>>(
    params: &S,
    pk: &ProvingKey<F>,
    query_instance: bool,
    instances: Seq<Seq<Seq<F>>>,
    singles: Seq<InstanceSingle<F>>,
    start: Start<F, C::AffineRepr>,
    before: Seq<Step<F, C::AffineRepr>>,
    after: Seq<Step<F, C::AffineRepr>>,
)
    requires
        halting_witness::is_start::<F, C, S>(
            params,
            pk,
            query_instance,
            instances,
            singles,
            start,
            before + key_step(pk),
            after,
        ),
    ensures
        (before + key_step(pk)).is_prefix_of(after),
{
    halting_proof::lemma_goes_through(
        before + key_step(pk),
        steps::circuits_steps(
            start.records,
            query_instance,
            instances,
            pk.unusable_rows_start(),
        ),
        after,
    );
}

/// Two runs that commit to the same usable rows for the same instances take the
/// same steps.
proof fn lemma_known_alike<F: Field, C: Curve, S: Params<F, C>>(
    params: &S,
    pk: &ProvingKey<F>,
    world: World<C::AffineRepr>,
    query_instance: bool,
    instances_a: Seq<Seq<Seq<F>>>,
    instances_b: Seq<Seq<Seq<F>>>,
    singles_a: Seq<InstanceSingle<F>>,
    singles_b: Seq<InstanceSingle<F>>,
    a: Start<F, C::AffineRepr>,
    b: Start<F, C::AffineRepr>,
    before: Seq<Step<F, C::AffineRepr>>,
    after_a: Seq<Step<F, C::AffineRepr>>,
    after_b: Seq<Step<F, C::AffineRepr>>,
)
    requires
        pk.wf(params.spec_n()),
        pk.vk.cs.num_challenges > 0 ==> instances_a.len() > 0,
        replay::is_functional::<F, C, S>(params),
        alike_instances(
            query_instance,
            pk.vk.cs.num_instance_columns as int,
            instances_a,
            instances_b,
        ),
        replay::all_same_usable(a.records, b.records, pk.unusable_rows_start()),
        halting_proof::are_answered(world, before, before, after_a, after_b),
        is_known::<F, C, S>(
            params,
            pk,
            query_instance,
            instances_a,
            singles_a,
            a,
            before,
            after_a,
        ),
        is_known::<F, C, S>(
            params,
            pk,
            query_instance,
            instances_b,
            singles_b,
            b,
            before,
            after_b,
        ),
    ensures
        replay::shapes(after_a) == replay::shapes(after_b),
{
    let start = pk.unusable_rows_start();
    let hashed = before + key_step::<F, C::AffineRepr>(pk);
    lemma_singles_repeat(pk, query_instance, instances_a, instances_b, singles_a, singles_b);
    halting_witness::lemma_circuits_alike::<F, C, S>(
        params,
        pk,
        world,
        query_instance,
        instances_a,
        instances_b,
        singles_a,
        singles_b,
        a,
        b,
        hashed,
        hashed,
        after_a,
        after_b,
    );
    if !a.stopped {
        assert(replay_proof::all_fit(pk, a.advice)) by {
            assert forall|i: int| 0 <= i < a.advice.len() implies witness::advice_fits(
                &pk.vk.cs,
                pk.vk.domain.n,
                #[trigger] a.advice[i],
            ) by {
                assert(witness::circuit_recorded::<F, C, S>(
                    params,
                    &pk.vk.cs,
                    query_instance,
                    singles_a[i],
                    a.advice[i],
                    a.challenges,
                    a.records[i],
                ));
            }
        }
        halting_proof::lemma_arguments_alike::<F, C::AffineRepr>(
            pk,
            world,
            query_instance,
            singles_a,
            singles_b,
            a.advice,
            b.advice,
            a.challenges,
            b.challenges,
            hashed + steps::circuits_steps(a.records, query_instance, instances_a, start),
            hashed + steps::circuits_steps(b.records, query_instance, instances_b, start),
            after_a,
            after_b,
        );
    }
}

/// The records are those of the circuits, as far as these got.
pub open spec fn all_assigned<F: Field, P, ConcreteCircuit: Circuit<F>>(
    pk: &ProvingKey<F>,
    circuits: Seq<ConcreteCircuit>,
    instances: Seq<Seq<Seq<F>>>,
    records: Seq<CircuitRecord<F, P>>,
) -> bool {
    forall|i: int|
        0 <= i < records.len() ==> witness::is_assigned(
            pk,
            &circuits[i],
            instances[i],
            (#[trigger] records[i]).phases,
        )
}

/// What was recorded of a circuit that was synthesized is what it assigned.
proof fn lemma_synthesized_assigned<
    F: Field,
    C: Curve,
    S: Params<F, C>,
    ConcreteCircuit: Circuit<F>,
>(
    params: &S,
    pk: &ProvingKey<F>,
    query_instance: bool,
    circuit: &ConcreteCircuit,
    instances: Seq<Seq<F>>,
    single: InstanceSingle<F>,
    advice: AdviceCommitted<F, LagrangeCoeff>,
    challenges: Seq<F>,
    record: CircuitRecord<F, C::AffineRepr>,
)
    requires
        pk.wf(params.spec_n()),
        witness::is_synthesized(pk, circuit, instances, challenges, advice),
        witness::circuit_recorded::<F, C, S>(
            params,
            &pk.vk.cs,
            query_instance,
            single,
            advice,
            challenges,
            record,
        ),
    ensures
        witness::is_assigned(pk, circuit, instances, record.phases),
{
    let cs = &pk.vk.cs;
    let phases = record.phases;
    let (config, rounds) = choose|
        config: ConcreteCircuit::Config,
        rounds: Seq<Seq<Action<F>>>,
    |
        {
            &&& ConcreteCircuit::is_config(&config)
            &&& #[trigger] witness::is_driven(
                circuit,
                &config,
                cs.constants@,
                instances,
                cs.spec_num_phases(),
                rounds,
            )
            &&& history::all_in_range(
                pk.vk.cs.num_advice_columns as nat,
                pk.vk.domain.n as nat,
                rounds.last(),
            )
            &&& witness::knows_challenges(cs, rounds.last(), challenges)
            &&& witness::holds_cells(pk, rounds.last(), advice)
        };
    let history = rounds.last();
    assert forall|p: int| 0 <= p < phases.len() implies {
        &&& (#[trigger] phases[p]).values.len() == steps::indices_of_phase(
            cs.advice_column_phase@,
            p,
        ).len()
        &&& phases[p].challenges.len() == steps::indices_of_phase(cs.challenge_phase@, p).len()
    } by {
        assert(witness::phase_matches(cs, p, advice, challenges, phases[p]));
    }
    assert forall|k: int| 0 <= k < history.len() && (#[trigger] history[k]) is NextPhase implies
        witness::knows_recorded(
        cs,
        phases,
        history::phases_in(history.take(k)) as int,
        history[k]->known,
    ) by {
        let phase = history::phases_in(history.take(k)) as int;
        let known = history[k]->known;
        assert(witness::knows_up_to(cs, challenges, phase, known));
        assert forall|p: int, j: int|
            0 <= p < phases.len() && p <= phase && 0 <= j < phases[p].challenges.len() implies
            known[steps::indices_of_phase(cs.challenge_phase@, p)[j]]
            == #[trigger] phases[p].challenges[j] by {
            assert(witness::phase_matches(cs, p, advice, challenges, phases[p]));
            steps::lemma_indices_of_phase(cs.challenge_phase@, p);
            let list = steps::indices_of_phase(cs.challenge_phase@, p);
            assert(cs.challenge_phase@[list[j] as int].0 == p);
            assert(known.contains_key(list[j]));
        }
    }
    assert forall|p: int, j: int, row: int|
        0 <= p < phases.len() && 0 <= j < phases[p].values.len() && 0 <= row
            < pk.unusable_rows_start() implies history::cells_until(
        cs.num_advice_columns as nat,
        pk.vk.domain.n as nat,
        history,
        p as nat,
    )[steps::indices_of_phase(cs.advice_column_phase@, p)[j] as int][row].evaluates_to(
        (#[trigger] phases[p].values[j][row]).value(),
    ) by {
        assert(witness::phase_matches(cs, p, advice, challenges, phases[p]));
        steps::lemma_indices_of_phase(cs.advice_column_phase@, p);
        let list = steps::indices_of_phase(cs.advice_column_phase@, p);
        let c = list[j] as int;
        assert(cs.advice_column_phase@[c].0 == p);
        assert(advice.advice_polys@[c]@[row] == phases[p].values[j][row]);
    }
    assert(witness::has_run(
        circuit,
        &config,
        cs.constants@,
        instances,
        cs.spec_num_phases(),
        rounds,
        history,
    ));
}

/// A run that creates a proof for circuits: it succeeded, or was stopped by a step
/// that failed.
pub open spec fn is_proof_run<
    F: Field,
    C: Curve,
    S: Params<F, C>,
    ConcreteCircuit: Circuit<F>,
>(
    params: &S,
    pk: &ProvingKey<F>,
    query_instance: bool,
    circuits: Seq<ConcreteCircuit>,
    instances: Seq<Seq<Seq<F>>>,
    before: Seq<Step<F, C::AffineRepr>>,
    after: Seq<Step<F, C::AffineRepr>>,
) -> bool {
    ||| prover::proof_synthesized::<F, C, S, ConcreteCircuit>(
        params,
        pk,
        query_instance,
        circuits,
        instances,
        before,
        after,
    )
    ||| prover::proof_abandoned::<F, C, S, ConcreteCircuit>(
        params,
        pk,
        query_instance,
        circuits,
        instances,
        before,
        after,
    )
    ||| witness::is_stopped_witness::<F, C, S, ConcreteCircuit>(
        params,
        pk,
        query_instance,
        circuits,
        instances,
        before,
        after,
    )
}

/// What is known of the circuits of a run whose witnesses were committed to.
proof fn lemma_committed_known<F: Field, C: Curve, S: Params<F, C>>(
    params: &S,
    pk: &ProvingKey<F>,
    query_instance: bool,
    instances: Seq<Seq<Seq<F>>>,
    singles: Seq<InstanceSingle<F>>,
    advice: Seq<AdviceCommitted<F, LagrangeCoeff>>,
    challenges: Seq<F>,
    before: Seq<Step<F, C::AffineRepr>>,
    after: Seq<Step<F, C::AffineRepr>>,
) -> (start: Start<F, C::AffineRepr>)
    requires
        prover::is_created::<F, C, S>(
            params,
            pk,
            query_instance,
            instances,
            singles,
            advice,
            challenges,
            before,
            after,
        ) || prover::is_abandoned::<F, C, S>(
            params,
            pk,
            query_instance,
            instances,
            singles,
            advice,
            challenges,
            before,
            after,
        ),
    ensures
        !start.stopped,
        start.advice == advice,
        start.challenges == challenges,
        is_known::<F, C, S>(
            params,
            pk,
            query_instance,
            instances,
            singles,
            start,
            before,
            after,
        ),
{
    let hashed = before + key_step::<F, C::AffineRepr>(pk);
    assert(hashed =~= before.push(Step::CommonScalar(pk.vk.transcript_repr)));
    let middle = choose|middle: Seq<Step<F, C::AffineRepr>>|
        {
            &&& #[trigger] witness::is_phase1::<F, C, S>(
                params,
                pk,
                query_instance,
                instances,
                singles,
                advice,
                challenges,
                hashed,
                middle,
            )
            &&& halting_proof::is_run(
                pk,
                query_instance,
                singles,
                advice,
                challenges,
                middle,
                after,
            )
        };
    let records = choose|records: Seq<CircuitRecord<F, C::AffineRepr>>|
        {
            &&& #[trigger] witness::all_recorded::<F, C, S>(
                params,
                &pk.vk.cs,
                query_instance,
                singles,
                advice,
                challenges,
                records,
            )
            &&& middle == hashed + steps::circuits_steps(
                records,
                query_instance,
                instances,
                pk.unusable_rows_start(),
            )
        };
    halting_proof::lemma_run_goes_on(
        pk,
        query_instance,
        singles,
        advice,
        challenges,
        middle,
        after,
    );
    Start { records, stopped: false, advice, challenges }
}

/// What is known of the circuits of a run that creates a proof for them.
proof fn lemma_proof_known<F: Field, C: Curve, S: Params<F, C>, ConcreteCircuit: Circuit<F>>(
    params: &S,
    pk: &ProvingKey<F>,
    query_instance: bool,
    circuits: Seq<ConcreteCircuit>,
    instances: Seq<Seq<Seq<F>>>,
    before: Seq<Step<F, C::AffineRepr>>,
    after: Seq<Step<F, C::AffineRepr>>,
) -> (r: (Seq<InstanceSingle<F>>, Start<F, C::AffineRepr>))
    requires
        pk.wf(params.spec_n()),
        !channel::stops_in(before, key_step(pk), after),
        is_proof_run::<F, C, S, ConcreteCircuit>(
            params,
            pk,
            query_instance,
            circuits,
            instances,
            before,
            after,
        ),
    ensures
        is_known::<F, C, S>(params, pk, query_instance, instances, r.0, r.1, before, after),
        all_assigned(pk, circuits, instances, r.1.records),
{
    if witness::is_stopped_witness::<F, C, S, ConcreteCircuit>(
        params,
        pk,
        query_instance,
        circuits,
        instances,
        before,
        after,
    ) {
        lemma_stopped_known::<F, C, S, ConcreteCircuit>(
            params,
            pk,
            query_instance,
            circuits,
            instances,
            before,
            after,
        )
    } else {
        if prover::proof_synthesized::<F, C, S, ConcreteCircuit>(
            params,
            pk,
            query_instance,
            circuits,
            instances,
            before,
            after,
        ) {
            let (singles, advice, challenges) = choose|
                singles: Seq<InstanceSingle<F>>,
                advice: Seq<AdviceCommitted<F, LagrangeCoeff>>,
                challenges: Seq<F>,
            |
                {
                    &&& #[trigger] prover::is_created::<F, C, S>(
                        params,
                        pk,
                        query_instance,
                        instances,
                        singles,
                        advice,
                        challenges,
                        before,
                        after,
                    )
                    &&& witness::all_synthesized(pk, circuits, instances, challenges, advice)
                };
            assert(committed_run::<F, C, S>(
                params,
                pk,
                query_instance,
                instances,
                singles,
                advice,
                challenges,
                before,
                after,
            ));
        } else {
            let (singles, advice, challenges) = choose|
                singles: Seq<InstanceSingle<F>>,
                advice: Seq<AdviceCommitted<F, LagrangeCoeff>>,
                challenges: Seq<F>,
            |
                {
                    &&& #[trigger] prover::is_abandoned::<F, C, S>(
                        params,
                        pk,
                        query_instance,
                        instances,
                        singles,
                        advice,
                        challenges,
                        before,
                        after,
                    )
                    &&& witness::all_synthesized(pk, circuits, instances, challenges, advice)
                };
            assert(committed_run::<F, C, S>(
                params,
                pk,
                query_instance,
                instances,
                singles,
                advice,
                challenges,
                before,
                after,
            ));
        }
        let (singles, advice, challenges) = choose|
            singles: Seq<InstanceSingle<F>>,
            advice: Seq<AdviceCommitted<F, LagrangeCoeff>>,
            challenges: Seq<F>,
        |
            {
                &&& #[trigger] committed_run::<F, C, S>(
                    params,
                    pk,
                    query_instance,
                    instances,
                    singles,
                    advice,
                    challenges,
                    before,
                    after,
                )
                &&& witness::all_synthesized(pk, circuits, instances, challenges, advice)
            };
        let start = lemma_committed_known::<F, C, S>(
            params,
            pk,
            query_instance,
            instances,
            singles,
            advice,
            challenges,
            before,
            after,
        );
        let records = start.records;
        assert forall|i: int| 0 <= i < records.len() implies witness::is_assigned(
            pk,
            &circuits[i],
            instances[i],
            (#[trigger] records[i]).phases,
        ) by {
            assert(witness::is_synthesized(pk, &circuits[i], instances[i], challenges, advice[i]));
            lemma_synthesized_assigned::<F, C, S, ConcreteCircuit>(
                params,
                pk,
                query_instance,
                &circuits[i],
                instances[i],
                singles[i],
                advice[i],
                challenges,
                records[i],
            );
        }
        (singles, start)
    }
}

/// A run that creates a proof absorbs the key first.
proof fn lemma_proof_absorbs_key<
    F: Field,
    C: Curve,
    S: Params<F, C>,
    ConcreteCircuit: Circuit<F>,
>(
    params: &S,
    pk: &ProvingKey<F>,
    query_instance: bool,
    circuits: Seq<ConcreteCircuit>,
    instances: Seq<Seq<Seq<F>>>,
    before: Seq<Step<F, C::AffineRepr>>,
    after: Seq<Step<F, C::AffineRepr>>,
)
    requires
        pk.wf(params.spec_n()),
        is_proof_run::<F, C, S, ConcreteCircuit>(
            params,
            pk,
            query_instance,
            circuits,
            instances,
            before,
            after,
        ),
    ensures
        halting::reaches(before, key_step(pk), after),
{
    if !channel::stops_in(before, key_step(pk), after) {
        let (singles, start) = lemma_proof_known::<F, C, S, ConcreteCircuit>(
            params,
            pk,
            query_instance,
            circuits,
            instances,
            before,
            after,
        );
        lemma_past_key::<F, C, S>(
            params,
            pk,
            query_instance,
            instances,
            singles,
            start,
            before,
            after,
        );
    }
}

/// A run whose witnesses were committed to: it succeeded, or was stopped by a step
/// that failed.
pub open spec fn committed_run<F: Field, C: Curve, S: Params<F, C>>(
    params: &S,
    pk: &ProvingKey<F>,
    query_instance: bool,
    instances: Seq<Seq<Seq<F>>>,
    singles: Seq<InstanceSingle<F>>,
    advice: Seq<AdviceCommitted<F, LagrangeCoeff>>,
    challenges: Seq<F>,
    before: Seq<Step<F, C::AffineRepr>>,
    after: Seq<Step<F, C::AffineRepr>>,
) -> bool {
    ||| prover::is_created::<F, C, S>(
        params,
        pk,
        query_instance,
        instances,
        singles,
        advice,
        challenges,
        before,
        after,
    )
    ||| prover::is_abandoned::<F, C, S>(
        params,
        pk,
        query_instance,
        instances,
        singles,
        advice,
        challenges,
        before,
        after,
    )
}

/// What is known of the circuits of a run that was stopped in the course of them.
proof fn lemma_stopped_known<F: Field, C: Curve, S: Params<F, C>, ConcreteCircuit: Circuit<F>>(
    params: &S,
    pk: &ProvingKey<F>,
    query_instance: bool,
    circuits: Seq<ConcreteCircuit>,
    instances: Seq<Seq<Seq<F>>>,
    before: Seq<Step<F, C::AffineRepr>>,
    after: Seq<Step<F, C::AffineRepr>>,
) -> (r: (Seq<InstanceSingle<F>>, Start<F, C::AffineRepr>))
    requires
        pk.wf(params.spec_n()),
        !channel::stops_in(before, key_step(pk), after),
        witness::is_stopped_witness::<F, C, S, ConcreteCircuit>(
            params,
            pk,
            query_instance,
            circuits,
            instances,
            before,
            after,
        ),
    ensures
        r.1.stopped,
        is_known::<F, C, S>(params, pk, query_instance, instances, r.0, r.1, before, after),
        all_assigned(pk, circuits, instances, r.1.records),
{
    let hashed = before + key_step::<F, C::AffineRepr>(pk);
    assert(hashed =~= before.push(Step::CommonScalar(pk.vk.transcript_repr)));
    let singles = choose|singles: Seq<InstanceSingle<F>>|
        {
            &&& #[trigger] witness::are_instance_singles(&pk.vk.domain, instances, singles)
            &&& witness::is_stopped_phase1::<F, C, S, ConcreteCircuit>(
                params,
                pk,
                query_instance,
                circuits,
                instances,
                singles,
                hashed,
                after,
            )
        };
    let (advice, challenges, done) = choose|
        advice: Seq<AdviceCommitted<F, LagrangeCoeff>>,
        challenges: Seq<F>,
        records: Seq<CircuitRecord<F, C::AffineRepr>>,
    | #[trigger]
        witness::phase1_stops::<F, C, S, ConcreteCircuit>(
            params,
            pk,
            query_instance,
            circuits,
            instances,
            singles,
            advice,
            challenges,
            records,
            hashed,
            after,
        );
    let start = pk.unusable_rows_start();
    let count = done.len() as int;
    let gone = steps::circuits_steps(done, query_instance, instances, start);
    let record = choose|record: CircuitRecord<F, C::AffineRepr>|
        {
            &&& #[trigger] witness::circuit_begun::<F, C, S>(
                params,
                &pk.vk.cs,
                query_instance,
                singles[count],
                record,
            )
            &&& witness::is_assigned(pk, &circuits[count], instances[count], record.phases)
            &&& channel::stops_in(
                hashed + gone,
                steps::circuit_steps(record, query_instance, instances[count], start),
                after,
            )
        };
    let records = done.push(record);
    assert(records.drop_last() =~= done);
    channel::lemma_stops_later(
        hashed,
        gone,
        steps::circuit_steps(record, query_instance, instances[count], start),
        after,
    );
    assert forall|i: int| 0 <= i < count implies {
        &&& halting_witness::circuit_complete::<F, C, S>(
            params,
            &pk.vk.cs,
            query_instance,
            singles[i],
            #[trigger] records[i],
        )
        &&& witness::is_assigned(pk, &circuits[i], instances[i], records[i].phases)
    } by {
        assert(records[i] == done[i]);
        assert(witness::circuit_recorded::<F, C, S>(
            params,
            &pk.vk.cs,
            query_instance,
            singles[i],
            advice[i],
            challenges,
            done[i],
        ));
        halting_witness::lemma_recorded_complete::<F, C, S>(
            params,
            pk,
            query_instance,
            singles[i],
            advice[i],
            challenges,
            done[i],
        );
        assert(witness::is_synthesized(pk, &circuits[i], instances[i], challenges, advice[i]));
        lemma_synthesized_assigned::<F, C, S, ConcreteCircuit>(
            params,
            pk,
            query_instance,
            &circuits[i],
            instances[i],
            singles[i],
            advice[i],
            challenges,
            done[i],
        );
    }
    (singles, Start { records, stopped: true, advice, challenges })
}

/// What the circuit assigns in a phase is determined by the challenges of the
/// phases before it, and is the same for both lists of instance columns.
pub open spec fn assigns_alike<F: Field, P, ConcreteCircuit: Circuit<F>>(
    pk: &ProvingKey<F>,
    circuit: &ConcreteCircuit,
    instances_a: Seq<Seq<F>>,
    instances_b: Seq<Seq<F>>,
) -> bool {
    forall|a: Seq<PhaseRecord<F, P>>, b: Seq<PhaseRecord<F, P>>|
        {
            &&& #[trigger] witness::is_assigned(pk, circuit, instances_a, a)
            &&& #[trigger] witness::is_assigned(pk, circuit, instances_b, b)
        } ==> replay::same_usable(a, b, pk.unusable_rows_start())
}

/// What each circuit assigns in a phase is determined by the challenges of the
/// phases before it, and is the same for both lists of instances.
pub open spec fn all_assign_alike<F: Field, P, ConcreteCircuit: Circuit<F>>(
    pk: &ProvingKey<F>,
    circuits: Seq<ConcreteCircuit>,
    instances_a: Seq<Seq<Seq<F>>>,
    instances_b: Seq<Seq<Seq<F>>>,
) -> bool {
    forall|i: int|
        0 <= i < circuits.len() ==> assigns_alike::<F, P, ConcreteCircuit>(
            pk,
            #[trigger] &circuits[i],
            instances_a[i],
            instances_b[i],
        )
}

proof fn lemma_assigned_alike<F: Field, P, ConcreteCircuit: Circuit<F>>(
    pk: &ProvingKey<F>,
    circuits: Seq<ConcreteCircuit>,
    instances_a: Seq<Seq<Seq<F>>>,
    instances_b: Seq<Seq<Seq<F>>>,
    a: Seq<CircuitRecord<F, P>>,
    b: Seq<CircuitRecord<F, P>>,
)
    requires
        a.len() <= circuits.len(),
        b.len() <= circuits.len(),
        all_assign_alike::<F, P, ConcreteCircuit>(pk, circuits, instances_a, instances_b),
        all_assigned(pk, circuits, instances_a, a),
        all_assigned(pk, circuits, instances_b, b),
    ensures
        replay::all_same_usable(a, b, pk.unusable_rows_start()),
{
    assert forall|i: int| 0 <= i < a.len() && i < b.len() implies replay::same_usable(
        (#[trigger] a[i]).phases,
        b[i].phases,
        pk.unusable_rows_start(),
    ) by {
        assert(assigns_alike::<F, P, ConcreteCircuit>(
            pk,
            &circuits[i],
            instances_a[i],
            instances_b[i],
        ));
        assert(witness::is_assigned(pk, &circuits[i], instances_a[i], a[i].phases));
        assert(witness::is_assigned(pk, &circuits[i], instances_b[i], b[i].phases));
    }
}

/// Two runs for the same circuits that are answered alike consist of the same
/// steps: both create the same proof, or both fail at the same step. Where
/// instance columns are queried, zeroes at the end of an instance column make no
/// difference, unless the circuit reads them.
pub proof fn lemma_proof_of_padded_instances<
    F: Field,
    C: Curve,
    S: Params<F, C>,
    ConcreteCircuit: Circuit<F>,
>(
    params: &S,
    pk: &ProvingKey<F>,
    world: World<C::AffineRepr>,
    query_instance: bool,
    circuits: Seq<ConcreteCircuit>,
    instances_a: Seq<Seq<Seq<F>>>,
    instances_b: Seq<Seq<Seq<F>>>,
    before: Seq<Step<F, C::AffineRepr>>,
    after_a: Seq<Step<F, C::AffineRepr>>,
    after_b: Seq<Step<F, C::AffineRepr>>,
)
    requires
        pk.wf(params.spec_n()),
        witness::may_synthesize(pk, circuits),
        circuits.len() == instances_a.len(),
        replay::is_functional::<F, C, S>(params),
        alike_instances(
            query_instance,
            pk.vk.cs.num_instance_columns as int,
            instances_a,
            instances_b,
        ),
        all_assign_alike::<F, C::AffineRepr, ConcreteCircuit>(
            pk,
            circuits,
            instances_a,
            instances_b,
        ),
        is_proof_run::<F, C, S, ConcreteCircuit>(
            params,
            pk,
            query_instance,
            circuits,
            instances_a,
            before,
            after_a,
        ),
        is_proof_run::<F, C, S, ConcreteCircuit>(
            params,
            pk,
            query_instance,
            circuits,
            instances_b,
            before,
            after_b,
        ),
        replay::is_answered(world, replay::shapes(after_a)),
        replay::is_answered(world, replay::shapes(after_b)),
    ensures
        replay::shapes(after_a) == replay::shapes(after_b),
{
    let key = key_step::<F, C::AffineRepr>(pk);
    lemma_proof_absorbs_key::<F, C, S, ConcreteCircuit>(
        params,
        pk,
        query_instance,
        circuits,
        instances_a,
        before,
        after_a,
    );
    lemma_proof_absorbs_key::<F, C, S, ConcreteCircuit>(
        params,
        pk,
        query_instance,
        circuits,
        instances_b,
        before,
        after_b,
    );
    lemma_key_alike(pk, world, before, after_a, after_b);
    if !channel::stops_in(before, key, after_a) && !channel::stops_in(before, key, after_b) {
        let (singles_a, a) = lemma_proof_known::<F, C, S, ConcreteCircuit>(
            params,
            pk,
            query_instance,
            circuits,
            instances_a,
            before,
            after_a,
        );
        let (singles_b, b) = lemma_proof_known::<F, C, S, ConcreteCircuit>(
            params,
            pk,
            query_instance,
            circuits,
            instances_b,
            before,
            after_b,
        );
        lemma_assigned_alike(pk, circuits, instances_a, instances_b, a.records, b.records);
        lemma_known_alike::<F, C, S>(
            params,
            pk,
            world,
            query_instance,
            instances_a,
            instances_b,
            singles_a,
            singles_b,
            a,
            b,
            before,
            after_a,
            after_b,
        );
    }
}

/// There is a column of the size of the domain for every advice column.
pub open spec fn is_shaped<F: Field>(pk: &ProvingKey<F>, columns: Seq<Seq<F>>) -> bool {
    &&& columns.len() == pk.vk.cs.num_advice_columns
    &&& forall|c: int| 0 <= c < columns.len() ==> (#[trigger] columns[c]).len() == pk.vk.domain.n
}

/// Committed columns hold what was handed over in every usable row.
proof fn lemma_usable_rows<F: Field>(
    pk: &ProvingKey<F>,
    columns: Seq<Seq<F>>,
    advice: AdviceCommitted<F, LagrangeCoeff>,
    c: int,
    row: int,
)
    requires
        is_shaped(pk, columns),
        pk.vk.cs.blinding_factors < pk.vk.domain.n,
        commit::same_above(
            columns,
            channel::values_of(advice.advice_polys@),
            pk.unusable_rows_start(),
        ),
        0 <= c < columns.len(),
        0 <= row < pk.unusable_rows_start(),
    ensures
        advice.advice_polys@[c]@[row] == columns[c][row],
{
    let start = pk.unusable_rows_start();
    let polys = channel::values_of(advice.advice_polys@);
    assert(polys[c].len() == columns[c].len());
    assert(polys[c].take(start) == columns[c].take(start));
    assert(polys[c].take(start)[row] == columns[c].take(start)[row]);
}

/// A run that creates a proof from advice columns: it succeeded, or was stopped by
/// a step that failed.
pub open spec fn is_advice_run<F: Field, C: Curve, S: Params<F, C>>(
    params: &S,
    pk: &ProvingKey<F>,
    query_instance: bool,
    instances: Seq<Seq<F>>,
    columns: Seq<Seq<F>>,
    before: Seq<Step<F, C::AffineRepr>>,
    after: Seq<Step<F, C::AffineRepr>>,
) -> bool {
    ||| prover::proof_created_from::<F, C, S>(
        params,
        pk,
        query_instance,
        instances,
        columns,
        before,
        after,
    )
    ||| prover::proof_abandoned_from::<F, C, S>(
        params,
        pk,
        query_instance,
        instances,
        columns,
        before,
        after,
    )
    ||| prover::is_refused_from::<F, C, S>(
        params,
        pk,
        query_instance,
        instances,
        columns,
        before,
        after,
    )
}

/// The records are those of one circuit, whose columns are the given ones in
/// every usable row.
pub open spec fn holds_columns<F: Field, P>(
    pk: &ProvingKey<F>,
    columns: Seq<Seq<F>>,
    records: Seq<CircuitRecord<F, P>>,
) -> bool {
    &&& records.len() == 1
    &&& records[0].phases.len() == 1
    &&& records[0].phases[0].values.len() <= columns.len()
    &&& forall|j: int, row: int|
        0 <= j < records[0].phases[0].values.len() && 0 <= row < pk.unusable_rows_start()
            ==> #[trigger] records[0].phases[0].values[j][row] == columns[j][row]
}

/// If there is one phase, all columns belong to it.
proof fn lemma_one_phase<F: Field>(pk: &ProvingKey<F>, n: usize)
    requires
        pk.wf(n),
        pk.vk.cs.spec_num_phases() == 1,
    ensures
        steps::indices_of_phase(pk.vk.cs.advice_column_phase@, 0) == Seq::new(
            pk.vk.cs.num_advice_columns as nat,
            |i: int| i as usize,
        ),
{
    let phases = pk.vk.cs.advice_column_phase@;
    circuit::lemma_phases_spanned(phases, circuit::MAX_PHASES as int);
    assert forall|i: int| 0 <= i < phases.len() implies (#[trigger] phases[i]).0 == 0 by {}
    steps::lemma_single_phase(phases);
}

/// What is known of the circuit of a run that was stopped before its columns were
/// committed to.
proof fn lemma_refused_known<F: Field, C: Curve, S: Params<F, C>>(
    params: &S,
    pk: &ProvingKey<F>,
    query_instance: bool,
    instances: Seq<Seq<F>>,
    columns: Seq<Seq<F>>,
    before: Seq<Step<F, C::AffineRepr>>,
    after: Seq<Step<F, C::AffineRepr>>,
) -> (r: (Seq<InstanceSingle<F>>, Start<F, C::AffineRepr>))
    requires
        pk.wf(params.spec_n()),
        pk.vk.cs.spec_num_phases() == 1,
        is_shaped(pk, columns),
        !channel::stops_in(before, key_step(pk), after),
        prover::is_refused_from::<F, C, S>(
            params,
            pk,
            query_instance,
            instances,
            columns,
            before,
            after,
        ),
    ensures
        is_known::<F, C, S>(
            params,
            pk,
            query_instance,
            seq![instances],
            r.0,
            r.1,
            before,
            after,
        ),
        holds_columns(pk, columns, r.1.records),
{
    let hashed = before + key_step::<F, C::AffineRepr>(pk);
    let start = pk.unusable_rows_start();
    let all = seq![instances];
    assert(hashed =~= before.push(Step::CommonScalar(pk.vk.transcript_repr)));
    let single = choose|single: InstanceSingle<F>|
        {
            &&& #[trigger] witness::is_instance_single(&pk.vk.domain, instances, single)
            &&& {
                ||| prover::stops_absorbing::<F, C, S>(
                    params,
                    query_instance,
                    instances,
                    single,
                    hashed,
                    after,
                )
                ||| prover::stops_committing::<F, C, S>(
                    params,
                    pk,
                    query_instance,
                    instances,
                    columns,
                    single,
                    hashed,
                    after,
                )
            }
        };
    let values = channel::values_of(single.instance_values@);
    let (points, phase) = if prover::stops_absorbing::<F, C, S>(
        params,
        query_instance,
        instances,
        single,
        hashed,
        after,
    ) {
        let points = choose|points: Seq<C::AffineRepr>|
            {
                &&& #[trigger] commit::absorbs::<F, C, S>(params, query_instance, values, points)
                &&& channel::stops_in(
                    hashed,
                    steps::absorb_steps(query_instance, instances, points),
                    after,
                )
            };
        let none = PhaseRecord::<F, C::AffineRepr> {
            values: Seq::empty(),
            blinds: Seq::empty(),
            points: Seq::empty(),
            challenges: Seq::empty(),
        };
        channel::lemma_stops_earlier(
            hashed,
            steps::absorb_steps(query_instance, instances, points),
            steps::phases_steps(seq![none], start),
            after,
        );
        (points, none)
    } else {
        let (points, phase) = choose|
            points: Seq<C::AffineRepr>,
            record: PhaseRecord<F, C::AffineRepr>,
        |
            {
                &&& #[trigger] commit::absorbs::<F, C, S>(params, query_instance, values, points)
                &&& #[trigger] commit::commits_columns::<F, C, S>(params, columns, start, record)
                &&& channel::stops_in(
                    hashed + steps::absorb_steps(query_instance, instances, points),
                    steps::phase_steps(record, start),
                    after,
                )
            };
        let phases = seq![phase];
        assert(phases.drop_last() =~= Seq::empty());
        assert(steps::phases_steps(phases, start) =~= steps::phase_steps(phase, start)) by {
            reveal_with_fuel(steps::phases_steps, 2);
        }
        channel::lemma_stops_later(
            hashed,
            steps::absorb_steps(query_instance, instances, points),
            steps::phases_steps(phases, start),
            after,
        );
        (points, phase)
    };
    lemma_one_phase(pk, params.spec_n());
    let record = CircuitRecord { instance_points: points, phases: seq![phase] };
    let records = seq![record];
    assert(records.drop_last() =~= Seq::empty());
    assert(steps::circuits_steps(records, query_instance, all, start) =~= steps::circuit_steps(
        record,
        query_instance,
        instances,
        start,
    )) by {
        reveal_with_fuel(steps::circuits_steps, 2);
    }
    assert forall|j: int| 0 <= j < phase.values.len() implies (#[trigger] phase.values[j]).len()
        == params.spec_n() by {
        assert(phase.values[j].len() == columns[j].len());
    }
    assert forall|j: int, row: int| 0 <= j < phase.values.len() && 0 <= row < start implies
        #[trigger] phase.values[j][row] == columns[j][row] by {
        assert(phase.values[j].take(start) == columns[j].take(start));
        assert(phase.values[j].take(start)[row] == columns[j].take(start)[row]);
    }
    let known = Start {
        records,
        stopped: true,
        advice: Seq::empty(),
        challenges: Seq::empty(),
    };
    let singles = seq![single];
    assert(singles[0] == single && all[0] == instances);
    (singles, known)
}

/// What is known of the circuit of a run that creates a proof from advice columns.
proof fn lemma_advice_known<F: Field, C: Curve, S: Params<F, C>>(
    params: &S,
    pk: &ProvingKey<F>,
    query_instance: bool,
    instances: Seq<Seq<F>>,
    columns: Seq<Seq<F>>,
    before: Seq<Step<F, C::AffineRepr>>,
    after: Seq<Step<F, C::AffineRepr>>,
) -> (r: (Seq<InstanceSingle<F>>, Start<F, C::AffineRepr>))
    requires
        pk.wf(params.spec_n()),
        pk.vk.cs.spec_num_phases() == 1,
        is_shaped(pk, columns),
        !channel::stops_in(before, key_step(pk), after),
        is_advice_run::<F, C, S>(
            params,
            pk,
            query_instance,
            instances,
            columns,
            before,
            after,
        ),
    ensures
        is_known::<F, C, S>(
            params,
            pk,
            query_instance,
            seq![instances],
            r.0,
            r.1,
            before,
            after,
        ),
        holds_columns(pk, columns, r.1.records),
{
    if prover::is_refused_from::<F, C, S>(
        params,
        pk,
        query_instance,
        instances,
        columns,
        before,
        after,
    ) {
        lemma_refused_known::<F, C, S>(
            params,
            pk,
            query_instance,
            instances,
            columns,
            before,
            after,
        )
    } else {
        let start = pk.unusable_rows_start();
        let all = seq![instances];
        if prover::proof_created_from::<F, C, S>(
            params,
            pk,
            query_instance,
            instances,
            columns,
            before,
            after,
        ) {
            let (single, advice, challenges) = choose|
                single: InstanceSingle<F>,
                advice: AdviceCommitted<F, LagrangeCoeff>,
                challenges: Seq<F>,
            |
                {
                    &&& #[trigger] prover::is_created::<F, C, S>(
                        params,
                        pk,
                        query_instance,
                        seq![instances],
                        seq![single],
                        seq![advice],
                        challenges,
                        before,
                        after,
                    )
                    &&& commit::same_above(
                        columns,
                        channel::values_of(advice.advice_polys@),
                        start,
                    )
                };
            lemma_handed_over_known::<F, C, S>(
                params,
                pk,
                query_instance,
                instances,
                columns,
                single,
                advice,
                challenges,
                before,
                after,
            )
        } else {
            let (single, advice, challenges) = choose|
                single: InstanceSingle<F>,
                advice: AdviceCommitted<F, LagrangeCoeff>,
                challenges: Seq<F>,
            |
                {
                    &&& #[trigger] prover::is_abandoned::<F, C, S>(
                        params,
                        pk,
                        query_instance,
                        seq![instances],
                        seq![single],
                        seq![advice],
                        challenges,
                        before,
                        after,
                    )
                    &&& commit::same_above(
                        columns,
                        channel::values_of(advice.advice_polys@),
                        start,
                    )
                };
            lemma_handed_over_known::<F, C, S>(
                params,
                pk,
                query_instance,
                instances,
                columns,
                single,
                advice,
                challenges,
                before,
                after,
            )
        }
    }
}

proof fn lemma_handed_over_known<F: Field, C: Curve, S: Params<F, C>>(
    params: &S,
    pk: &ProvingKey<F>,
    query_instance: bool,
    instances: Seq<Seq<F>>,
    columns: Seq<Seq<F>>,
    single: InstanceSingle<F>,
    advice: AdviceCommitted<F, LagrangeCoeff>,
    challenges: Seq<F>,
    before: Seq<Step<F, C::AffineRepr>>,
    after: Seq<Step<F, C::AffineRepr>>,
) -> (r: (Seq<InstanceSingle<F>>, Start<F, C::AffineRepr>))
    requires
        pk.wf(params.spec_n()),
        pk.vk.cs.spec_num_phases() == 1,
        is_shaped(pk, columns),
        committed_run::<F, C, S>(
            params,
            pk,
            query_instance,
            seq![instances],
            seq![single],
            seq![advice],
            challenges,
            before,
            after,
        ),
        commit::same_above(
            columns,
            channel::values_of(advice.advice_polys@),
            pk.unusable_rows_start(),
        ),
    ensures
        is_known::<F, C, S>(
            params,
            pk,
            query_instance,
            seq![instances],
            r.0,
            r.1,
            before,
            after,
        ),
        holds_columns(pk, columns, r.1.records),
{
    let singles = seq![single];
    let start = lemma_committed_known::<F, C, S>(
        params,
        pk,
        query_instance,
        seq![instances],
        singles,
        seq![advice],
        challenges,
        before,
        after,
    );
    let record = start.records[0];
    assert(witness::circuit_recorded::<F, C, S>(
        params,
        &pk.vk.cs,
        query_instance,
        singles[0],
        seq![advice][0],
        challenges,
        record,
    ));
    lemma_one_phase(pk, params.spec_n());
    let phase = record.phases[0];
    assert(witness::phase_matches(&pk.vk.cs, 0, advice, challenges, phase));
    let list = steps::indices_of_phase(pk.vk.cs.advice_column_phase@, 0);
    assert forall|j: int, row: int|
        0 <= j < phase.values.len() && 0 <= row < pk.unusable_rows_start() implies
        #[trigger] phase.values[j][row] == columns[j][row] by {
        assert(list[j] == j);
        assert(advice.advice_polys@[list[j] as int]@ == phase.values[j]);
        lemma_usable_rows(pk, columns, advice, j, row);
    }
    (singles, start)
}

/// A run that creates a proof from advice columns absorbs the key first.
proof fn lemma_advice_absorbs_key<F: Field, C: Curve, S: Params<F, C>>(
    params: &S,
    pk: &ProvingKey<F>,
    query_instance: bool,
    instances: Seq<Seq<F>>,
    columns: Seq<Seq<F>>,
    before: Seq<Step<F, C::AffineRepr>>,
    after: Seq<Step<F, C::AffineRepr>>,
)
    requires
        pk.wf(params.spec_n()),
        pk.vk.cs.spec_num_phases() == 1,
        is_shaped(pk, columns),
        is_advice_run::<F, C, S>(
            params,
            pk,
            query_instance,
            instances,
            columns,
            before,
            after,
        ),
    ensures
        halting::reaches(before, key_step(pk), after),
{
    if !channel::stops_in(before, key_step(pk), after) {
        let (singles, start) = lemma_advice_known::<F, C, S>(
            params,
            pk,
            query_instance,
            instances,
            columns,
            before,
            after,
        );
        lemma_past_key::<F, C, S>(
            params,
            pk,
            query_instance,
            seq![instances],
            singles,
            start,
            before,
            after,
        );
    }
}

/// Two runs from advice columns that differ in nothing but the rows that blind
/// them consist of the same steps, if they are answered alike: what was handed
/// over in those rows is not used. Both create the same proof, or both fail at the
/// same step.
#[verifier::rlimit(30)]
pub proof fn lemma_blinding_rows_are_not_used<F: Field, C: Curve, S: Params<F, C>>(
    params: &S,
    pk: &ProvingKey<F>,
    world: World<C::AffineRepr>,
    query_instance: bool,
    instances: Seq<Seq<F>>,
    columns_a: Seq<Seq<F>>,
    columns_b: Seq<Seq<F>>,
    before: Seq<Step<F, C::AffineRepr>>,
    after_a: Seq<Step<F, C::AffineRepr>>,
    after_b: Seq<Step<F, C::AffineRepr>>,
)
    requires
        pk.wf(params.spec_n()),
        pk.vk.cs.spec_num_phases() == 1,
        replay::is_functional::<F, C, S>(params),
        instances.len() == pk.vk.cs.num_instance_columns,
        is_shaped(pk, columns_a),
        is_shaped(pk, columns_b),
        forall|c: int, row: int|
            0 <= c < columns_a.len() && 0 <= row < pk.unusable_rows_start() ==> (
            #[trigger] columns_a[c][row]).value() == columns_b[c][row].value(),
        is_advice_run::<F, C, S>(
            params,
            pk,
            query_instance,
            instances,
            columns_a,
            before,
            after_a,
        ),
        is_advice_run::<F, C, S>(
            params,
            pk,
            query_instance,
            instances,
            columns_b,
            before,
            after_b,
        ),
        replay::is_answered(world, replay::shapes(after_a)),
        replay::is_answered(world, replay::shapes(after_b)),
    ensures
        replay::shapes(after_a) == replay::shapes(after_b),
{
    let key = key_step::<F, C::AffineRepr>(pk);
    lemma_advice_absorbs_key::<F, C, S>(
        params,
        pk,
        query_instance,
        instances,
        columns_a,
        before,
        after_a,
    );
    lemma_advice_absorbs_key::<F, C, S>(
        params,
        pk,
        query_instance,
        instances,
        columns_b,
        before,
        after_b,
    );
    lemma_key_alike(pk, world, before, after_a, after_b);
    if !channel::stops_in(before, key, after_a) && !channel::stops_in(before, key, after_b) {
        let (singles_a, a) = lemma_advice_known::<F, C, S>(
            params,
            pk,
            query_instance,
            instances,
            columns_a,
            before,
            after_a,
        );
        let (singles_b, b) = lemma_advice_known::<F, C, S>(
            params,
            pk,
            query_instance,
            instances,
            columns_b,
            before,
            after_b,
        );
        let (pa, pb) = (a.records[0].phases, b.records[0].phases);
        assert forall|p: int, j: int, row: int|
            0 <= p < pa.len() && p < pb.len() && 0 <= j < pa[p].values.len() && j
                < pb[p].values.len() && 0 <= row < pk.unusable_rows_start() implies (
        #[trigger] pa[p].values[j][row]).value() == pb[p].values[j][row].value() by {
            assert(pa[0].values[j][row] == columns_a[j][row]);
            assert(pb[0].values[j][row] == columns_b[j][row]);
            assert(columns_a[j][row].value() == columns_b[j][row].value());
        }
        lemma_known_alike::<F, C, S>(
            params,
            pk,
            world,
            query_instance,
            seq![instances],
            seq![instances],
            singles_a,
            singles_b,
            a,
            b,
            before,
            after_a,
            after_b,
        );
    }
}

/// The columns hold in every usable row what the circuit assigns to it.
pub open spec fn holds_assignment<F: Field, P, ConcreteCircuit: Circuit<F>>(
    pk: &ProvingKey<F>,
    circuit: &ConcreteCircuit,
    instances: Seq<Seq<F>>,
    columns: Seq<Seq<F>>,
) -> bool {
    forall|phases: Seq<PhaseRecord<F, P>>, j: int, row: int|
        #![trigger
            witness::is_assigned(pk, circuit, instances, phases),
            phases[0].values[j][row]]
        witness::is_assigned(pk, circuit, instances, phases) && phases.len() > 0 && 0 <= j
            < phases[0].values.len() && j < columns.len() && 0 <= row < pk.unusable_rows_start()
            ==> phases[0].values[j][row].value() == columns[j][row].value()
}

/// Handing over the columns that a circuit assigns leads to the same steps as the
/// synthesis of the circuit, if both runs are answered alike: both create the same
/// proof, or both fail at the same step.
#[verifier::rlimit(30)]
pub proof fn lemma_same_proof_from_advice<
    F: Field,
    C: Curve,
    S: Params<F, C>,
    ConcreteCircuit: Circuit<F>,
>(
    params: &S,
    pk: &ProvingKey<F>,
    world: World<C::AffineRepr>,
    query_instance: bool,
    circuit: ConcreteCircuit,
    instances: Seq<Seq<F>>,
    columns: Seq<Seq<F>>,
    before: Seq<Step<F, C::AffineRepr>>,
    synthesized: Seq<Step<F, C::AffineRepr>>,
    handed_over: Seq<Step<F, C::AffineRepr>>,
)
    requires
        pk.wf(params.spec_n()),
        pk.vk.cs.spec_num_phases() == 1,
        replay::is_functional::<F, C, S>(params),
        instances.len() == pk.vk.cs.num_instance_columns,
        is_shaped(pk, columns),
        holds_assignment::<F, C::AffineRepr, ConcreteCircuit>(pk, &circuit, instances, columns),
        is_proof_run::<F, C, S, ConcreteCircuit>(
            params,
            pk,
            query_instance,
            seq![circuit],
            seq![instances],
            before,
            synthesized,
        ),
        is_advice_run::<F, C, S>(
            params,
            pk,
            query_instance,
            instances,
            columns,
            before,
            handed_over,
        ),
        replay::is_answered(world, replay::shapes(synthesized)),
        replay::is_answered(world, replay::shapes(handed_over)),
    ensures
        replay::shapes(synthesized) == replay::shapes(handed_over),
{
    let key = key_step::<F, C::AffineRepr>(pk);
    let circuits = seq![circuit];
    let all = seq![instances];
    lemma_proof_absorbs_key::<F, C, S, ConcreteCircuit>(
        params,
        pk,
        query_instance,
        circuits,
        all,
        before,
        synthesized,
    );
    lemma_advice_absorbs_key::<F, C, S>(
        params,
        pk,
        query_instance,
        instances,
        columns,
        before,
        handed_over,
    );
    lemma_key_alike(pk, world, before, synthesized, handed_over);
    if !channel::stops_in(before, key, synthesized) && !channel::stops_in(
        before,
        key,
        handed_over,
    ) {
        let (singles_a, a) = lemma_proof_known::<F, C, S, ConcreteCircuit>(
            params,
            pk,
            query_instance,
            circuits,
            all,
            before,
            synthesized,
        );
        let (singles_b, b) = lemma_advice_known::<F, C, S>(
            params,
            pk,
            query_instance,
            instances,
            columns,
            before,
            handed_over,
        );
        let (pa, pb) = (a.records[0].phases, b.records[0].phases);
        assert forall|p: int, j: int, row: int|
            0 <= p < pa.len() && p < pb.len() && 0 <= j < pa[p].values.len() && j
                < pb[p].values.len() && 0 <= row < pk.unusable_rows_start() && a.records.len()
                > 0 implies (#[trigger] pa[p].values[j][row]).value()
            == pb[p].values[j][row].value() by {
            assert(circuits[0] == circuit && all[0] == instances);
            assert(witness::is_assigned(pk, &circuits[0], all[0], a.records[0].phases));
            assert(pa[0].values[j][row].value() == columns[j][row].value());
            assert(pb[0].values[j][row] == columns[j][row]);
        }
        lemma_known_alike::<F, C, S>(
            params,
            pk,
            world,
            query_instance,
            all,
            all,
            singles_a,
            singles_b,
            a,
            b,
            before,
            synthesized,
            handed_over,
        );
    }
}

/// A proof that is created after witness generation starts by asking for a
/// challenge.
proof fn lemma_asks_for_challenge<F: Field, P>(
    pk: &ProvingKey<F>,
    query_instance: bool,
    singles: Seq<InstanceSingle<F>>,
    advice: Seq<AdviceCommitted<F, LagrangeCoeff>>,
    challenges: Seq<F>,
    before: Seq<Step<F, P>>,
    after: Seq<Step<F, P>>,
)
    requires
        halting_proof::is_run(
            pk,
            query_instance,
            singles,
            advice,
            challenges,
            before,
            after,
        ),
    ensures
        before.len() < after.len(),
        after.take(before.len() as int) == before,
        asks_for_challenge(after[before.len() as int]),
{
    halting_proof::lemma_run_goes_on(
        pk,
        query_instance,
        singles,
        advice,
        challenges,
        before,
        after,
    );
    let record = halting_proof::lemma_first_stage(
        pk,
        query_instance,
        singles,
        advice,
        challenges,
        before,
        after,
    );
    let first = halting_proof::first_steps::<F, P>(
        pk,
        singles,
        advice,
        challenges,
        record.theta,
        record.beta,
        record.gamma,
    );
    let k = before.len() as int;
    assert(first[0] == Step::<F, P>::Squeeze(record.theta));
    if channel::stops_in(before, first, after) {
        let taken = after.len() - before.len() - 1;
        if taken > 0 {
            assert(after.drop_last()[k] == (before + first.take(taken))[k]);
        }
    } else {
        assert(after.take((before + first).len() as int)[k] == (before + first)[k]);
    }
}

/// The step squeezes a challenge, or failed to.
pub open spec fn asks_for_challenge<F, P>(step: Step<F, P>) -> bool {
    match step {
        Step::Squeeze(_) => true,
        Step::Failed { attempt, .. } => *attempt is Squeeze,
        _ => false,
    }
}

/// Witness generation takes exactly the steps that the creation of a proof takes
/// before it squeezes the first challenge of the arguments, if both are answered
/// alike.
pub proof fn lemma_witness_is_start_of_proof<
    F: Field,
    C: Curve,
    S: Params<F, C>,
    ConcreteCircuit: Circuit<F>,
>(
    params: &S,
    pk: &ProvingKey<F>,
    world: World<C::AffineRepr>,
    query_instance: bool,
    circuits: Seq<ConcreteCircuit>,
    instances: Seq<Seq<Seq<F>>>,
    instance: Seq<InstanceSingle<F>>,
    advice: Seq<AdviceSingle<F>>,
    challenges: Seq<F>,
    before: Seq<Step<F, C::AffineRepr>>,
    generated: Seq<Step<F, C::AffineRepr>>,
    proved: Seq<Step<F, C::AffineRepr>>,
)
    requires
        pk.wf(params.spec_n()),
        witness::may_synthesize(pk, circuits),
        witness::instances_match(pk, circuits.len() as int, instances),
        replay::is_functional::<F, C, S>(params),
        all_assign_alike::<F, C::AffineRepr, ConcreteCircuit>(
            pk,
            circuits,
            instances,
            instances,
        ),
        witness::is_witness::<F, C, S, ConcreteCircuit>(
            params,
            pk,
            query_instance,
            circuits,
            instances,
            instance,
            advice,
            challenges,
            before,
            generated,
        ),
        is_proof_run::<F, C, S, ConcreteCircuit>(
            params,
            pk,
            query_instance,
            circuits,
            instances,
            before,
            proved,
        ),
        replay::is_answered(world, replay::shapes(generated)),
        replay::is_answered(world, replay::shapes(proved)),
    ensures
        generated.len() < proved.len(),
        replay::shapes(generated) == replay::shapes(proved.take(generated.len() as int)),
        asks_for_challenge(proved[generated.len() as int]),
{
    let start = pk.unusable_rows_start();
    let key = key_step::<F, C::AffineRepr>(pk);
    let hashed = before + key;
    assert(hashed =~= before.push(Step::CommonScalar(pk.vk.transcript_repr)));
    let committed = choose|committed: Seq<AdviceCommitted<F, LagrangeCoeff>>|
        {
            &&& #[trigger] witness::are_advice_singles(&pk.vk.domain, committed, advice)
            &&& witness::all_synthesized(pk, circuits, instances, challenges, committed)
            &&& witness::is_phase1::<F, C, S>(
                params,
                pk,
                query_instance,
                instances,
                instance,
                committed,
                challenges,
                hashed,
                generated,
            )
        };
    let a = lemma_generated_known::<F, C, S, ConcreteCircuit>(
        params,
        pk,
        query_instance,
        circuits,
        instances,
        instance,
        committed,
        challenges,
        hashed,
        generated,
    );
    lemma_past_key::<F, C, S>(
        params,
        pk,
        query_instance,
        instances,
        instance,
        a,
        before,
        generated,
    );
    lemma_proof_absorbs_key::<F, C, S, ConcreteCircuit>(
        params,
        pk,
        query_instance,
        circuits,
        instances,
        before,
        proved,
    );
    lemma_key_alike(pk, world, before, generated, proved);
    if channel::stops_in(before, key, generated) {
        halting::lemma_stopped_short(before, key, generated);
    }
    let (singles, b) = lemma_proof_known::<F, C, S, ConcreteCircuit>(
        params,
        pk,
        query_instance,
        circuits,
        instances,
        before,
        proved,
    );
    lemma_assigned_alike(pk, circuits, instances, instances, a.records, b.records);
    lemma_singles_repeat(pk, query_instance, instances, instances, instance, singles);
    halting_witness::lemma_circuits_alike::<F, C, S>(
        params,
        pk,
        world,
        query_instance,
        instances,
        instances,
        instance,
        singles,
        a,
        b,
        hashed,
        hashed,
        generated,
        proved,
    );
    let middle = hashed + steps::circuits_steps(b.records, query_instance, instances, start);
    assert(replay::shapes(generated).len() == generated.len());
    assert(replay::shapes(middle).len() == middle.len());
    lemma_asks_for_challenge::<F, C::AffineRepr>(
        pk,
        query_instance,
        singles,
        b.advice,
        b.challenges,
        middle,
        proved,
    );
}

/// What is known of the circuits of a run that generates their witnesses.
proof fn lemma_generated_known<F: Field, C: Curve, S: Params<F, C>, ConcreteCircuit: Circuit<F>>(
    params: &S,
    pk: &ProvingKey<F>,
    query_instance: bool,
    circuits: Seq<ConcreteCircuit>,
    instances: Seq<Seq<Seq<F>>>,
    singles: Seq<InstanceSingle<F>>,
    advice: Seq<AdviceCommitted<F, LagrangeCoeff>>,
    challenges: Seq<F>,
    hashed: Seq<Step<F, C::AffineRepr>>,
    after: Seq<Step<F, C::AffineRepr>>,
) -> (start: Start<F, C::AffineRepr>)
    requires
        pk.wf(params.spec_n()),
        witness::all_synthesized(pk, circuits, instances, challenges, advice),
        witness::is_phase1::<F, C, S>(
            params,
            pk,
            query_instance,
            instances,
            singles,
            advice,
            challenges,
            hashed,
            after,
        ),
    ensures
        !start.stopped,
        halting_witness::is_start::<F, C, S>(
            params,
            pk,
            query_instance,
            instances,
            singles,
            start,
            hashed,
            after,
        ),
        after == hashed + steps::circuits_steps(
            start.records,
            query_instance,
            instances,
            pk.unusable_rows_start(),
        ),
        all_assigned(pk, circuits, instances, start.records),
{
    let records = choose|records: Seq<CircuitRecord<F, C::AffineRepr>>|
        {
            &&& #[trigger] witness::all_recorded::<F, C, S>(
                params,
                &pk.vk.cs,
                query_instance,
                singles,
                advice,
                challenges,
                records,
            )
            &&& after == hashed + steps::circuits_steps(
                records,
                query_instance,
                instances,
                pk.unusable_rows_start(),
            )
        };
    assert(after.take(after.len() as int) =~= after);
    assert forall|i: int| 0 <= i < records.len() implies witness::is_assigned(
        pk,
        &circuits[i],
        instances[i],
        (#[trigger] records[i]).phases,
    ) by {
        assert(witness::is_synthesized(pk, &circuits[i], instances[i], challenges, advice[i]));
        lemma_synthesized_assigned::<F, C, S, ConcreteCircuit>(
            params,
            pk,
            query_instance,
            &circuits[i],
            instances[i],
            singles[i],
            advice[i],
            challenges,
            records[i],
        );
    }
    Start { records, stopped: false, advice, challenges }
}

/// Where witness generation is stopped by a step that fails, so is the creation of
/// a proof, after the same steps, if both are answered alike.
pub proof fn lemma_stopped_witness_is_stopped_proof<
    F: Field,
    C: Curve,
    S: Params<F, C>,
    ConcreteCircuit: Circuit<F>,
>(
    params: &S,
    pk: &ProvingKey<F>,
    world: World<C::AffineRepr>,
    query_instance: bool,
    circuits: Seq<ConcreteCircuit>,
    instances: Seq<Seq<Seq<F>>>,
    before: Seq<Step<F, C::AffineRepr>>,
    generated: Seq<Step<F, C::AffineRepr>>,
    proved: Seq<Step<F, C::AffineRepr>>,
)
    requires
        pk.wf(params.spec_n()),
        witness::may_synthesize(pk, circuits),
        witness::instances_match(pk, circuits.len() as int, instances),
        replay::is_functional::<F, C, S>(params),
        all_assign_alike::<F, C::AffineRepr, ConcreteCircuit>(
            pk,
            circuits,
            instances,
            instances,
        ),
        witness::is_stopped_witness::<F, C, S, ConcreteCircuit>(
            params,
            pk,
            query_instance,
            circuits,
            instances,
            before,
            generated,
        ),
        is_proof_run::<F, C, S, ConcreteCircuit>(
            params,
            pk,
            query_instance,
            circuits,
            instances,
            before,
            proved,
        ),
        replay::is_answered(world, replay::shapes(generated)),
        replay::is_answered(world, replay::shapes(proved)),
    ensures
        replay::shapes(generated) == replay::shapes(proved),
{
    lemma_proof_of_padded_instances::<F, C, S, ConcreteCircuit>(
        params,
        pk,
        world,
        query_instance,
        circuits,
        instances,
        instances,
        before,
        generated,
        proved,
    );
}

} // verus!
