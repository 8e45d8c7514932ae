//! Laws of proof generation.

use super::channel;
use super::channel::{Channel, Step, Taking};
use super::circuit::Circuit;
use super::commit;
use super::history;
use super::history::Action;
use super::protocol;
use super::prover;
use super::steps;
use super::steps::{CircuitRecord, PhaseRecord};
use super::witness;
use super::witness::{AdviceCommitted, InstanceSingle};
use super::{ConstraintSystem, Error, ProvingKey};
use crate::curve::Curve;
use crate::field::Field;
use crate::poly::commitment::Params;
use crate::poly::LagrangeCoeff;
use vstd::prelude::*;

verus! {

/// The values that were drawn at random, in order.
pub open spec fn draws<F, P>(steps: Seq<Step<F, P>>) -> Seq<F>
    decreases steps.len(),
{
    if steps.len() == 0 {
        Seq::empty()
    } else {
        let before = draws(steps.drop_last());
        match steps.last() {
            Step::Random(value) => before.push(value),
            _ => before,
        }
    }
}

/// The rows of each column from `start` on, column by column.
pub open spec fn tails<F>(columns: Seq<Seq<F>>, start: int) -> Seq<F>
    decreases columns.len(),
{
    if columns.len() == 0 {
        Seq::empty()
    } else {
        tails(columns.drop_last(), start) + columns.last().skip(start)
    }
}

/// The values that are drawn in a phase: the rows that blind its columns,
/// column by column, and then the blinds of the commitments to them.
pub open spec fn phase_draws<F>(
    cs: &ConstraintSystem,
    phase: int,
    advice: AdviceCommitted<F, LagrangeCoeff>,
    start: int,
) -> Seq<F> {
    let columns = steps::indices_of_phase(cs.advice_column_phase@, phase);
    tails(
        Seq::new(columns.len(), |j: int| advice.advice_polys@[columns[j] as int]@),
        start,
    ) + Seq::new(columns.len(), |j: int| advice.advice_blinds@[columns[j] as int].0)
}

/// The values that are drawn in the first phases of a circuit.
pub open spec fn phases_draws<F>(
    cs: &ConstraintSystem,
    phases: nat,
    advice: AdviceCommitted<F, LagrangeCoeff>,
    start: int,
) -> Seq<F>
    decreases phases,
{
    if phases == 0 {
        Seq::empty()
    } else {
        phases_draws(cs, (phases - 1) as nat, advice, start) + phase_draws(
            cs,
            phases - 1,
            advice,
            start,
        )
    }
}

/// The values that are drawn for circuits with these columns and blinds.
pub open spec fn circuits_draws<F>(
    cs: &ConstraintSystem,
    advice: Seq<AdviceCommitted<F, LagrangeCoeff>>,
    start: int,
) -> Seq<F>
    decreases advice.len(),
{
    if advice.len() == 0 {
        Seq::empty()
    } else {
        circuits_draws(cs, advice.drop_last(), start) + phases_draws(
            cs,
            cs.spec_num_phases() as nat,
            advice.last(),
            start,
        )
    }
}

proof fn lemma_draws_concat<F, P>(a: Seq<Step<F, P>>, b: Seq<Step<F, P>>)
    ensures
        draws(a + b) == draws(a) + draws(b),
    decreases b.len(),
{
    if b.len() == 0 {
        assert(a + b =~= a);
        assert(draws(a) + draws(b) =~= draws(a));
    } else {
        lemma_draws_concat(a, b.drop_last());
        assert((a + b).drop_last() =~= a + b.drop_last());
        assert((a + b).last() == b.last());
        assert(draws(a + b) =~= draws(a) + draws(b));
    }
}

proof fn lemma_no_draws<F, P>(steps: Seq<Step<F, P>>)
    requires
        forall|i: int| 0 <= i < steps.len() ==> !((#[trigger] steps[i]) is Random),
    ensures
        draws(steps) == Seq::<F>::empty(),
    decreases steps.len(),
{
    if steps.len() > 0 {
        let init = steps.drop_last();
        assert forall|i: int| 0 <= i < init.len() implies !((#[trigger] init[i]) is Random) by {
            assert(init[i] == steps[i]);
        }
        lemma_no_draws(init);
        assert(steps.last() == steps[steps.len() - 1]);
    }
}

proof fn lemma_draws_random<F, P>(values: Seq<F>)
    ensures
        draws(steps::random_steps::<F, P>(values)) == values,
    decreases values.len(),
{
    let all = steps::random_steps::<F, P>(values);
    if values.len() > 0 {
        lemma_draws_random::<F, P>(values.drop_last());
        assert(all.drop_last() =~= steps::random_steps::<F, P>(values.drop_last()));
    }
    assert(draws(all) =~= values);
}

proof fn lemma_draws_tails<F, P>(columns: Seq<Seq<F>>, start: int)
    ensures
        draws(steps::tail_steps::<F, P>(columns, start)) == tails(columns, start),
    decreases columns.len(),
{
    if columns.len() > 0 {
        let init = columns.drop_last();
        lemma_draws_tails::<F, P>(init, start);
        lemma_draws_concat(
            steps::tail_steps::<F, P>(init, start),
            steps::random_steps(columns.last().skip(start)),
        );
        lemma_draws_random::<F, P>(columns.last().skip(start));
    }
}

proof fn lemma_draws_scalars<F, P>(columns: Seq<Seq<F>>)
    ensures
        draws(steps::column_scalar_steps::<F, P>(columns)) == Seq::<F>::empty(),
    decreases columns.len(),
{
    if columns.len() > 0 {
        let init = columns.drop_last();
        lemma_draws_scalars::<F, P>(init);
        lemma_draws_concat(
            steps::column_scalar_steps::<F, P>(init),
            steps::scalar_steps(columns.last()),
        );
        lemma_no_draws(steps::scalar_steps::<F, P>(columns.last()));
    }
}

proof fn lemma_draws_phase<F, P>(record: PhaseRecord<F, P>, start: int)
    ensures
        draws(steps::phase_steps(record, start)) == tails(record.values, start) + record.blinds,
{
    let a = steps::tail_steps::<F, P>(record.values, start);
    let b = steps::random_steps::<F, P>(record.blinds);
    let c = steps::write_steps::<F, P>(record.points);
    let d = steps::squeeze_steps::<F, P>(record.challenges);
    lemma_draws_concat(a + b + c, d);
    lemma_draws_concat(a + b, c);
    lemma_draws_concat(a, b);
    lemma_draws_tails::<F, P>(record.values, start);
    lemma_draws_random::<F, P>(record.blinds);
    lemma_no_draws(c);
    lemma_no_draws(d);
    assert(draws(steps::phase_steps(record, start)) =~= tails(record.values, start)
        + record.blinds);
}

proof fn lemma_draws_phases<F: Field, P>(
    cs: &ConstraintSystem,
    advice: AdviceCommitted<F, LagrangeCoeff>,
    challenges: Seq<F>,
    phases: Seq<PhaseRecord<F, P>>,
    start: int,
)
    requires
        forall|p: int|
            0 <= p < phases.len() ==> witness::phase_matches(
                cs,
                p,
                advice,
                challenges,
                #[trigger] phases[p],
            ),
    ensures
        draws(steps::phases_steps(phases, start)) == phases_draws(
            cs,
            phases.len(),
            advice,
            start,
        ),
    decreases phases.len(),
{
    if phases.len() > 0 {
        let init = phases.drop_last();
        let p = phases.len() - 1;
        let record = phases.last();
        assert forall|p: int| 0 <= p < init.len() implies witness::phase_matches(
            cs,
            p,
            advice,
            challenges,
            #[trigger] init[p],
        ) by {
            assert(init[p] == phases[p]);
        }
        lemma_draws_phases(cs, advice, challenges, init, start);
        lemma_draws_concat(steps::phases_steps(init, start), steps::phase_steps(record, start));
        lemma_draws_phase(record, start);
        assert(witness::phase_matches(cs, p, advice, challenges, phases[p]));
        let columns = steps::indices_of_phase(cs.advice_column_phase@, p);
        assert(record.values =~= Seq::new(
            columns.len(),
            |j: int| advice.advice_polys@[columns[j] as int]@,
        ));
        assert(record.blinds =~= Seq::new(
            columns.len(),
            |j: int| advice.advice_blinds@[columns[j] as int].0,
        ));
    }
}

proof fn lemma_draws_circuits<F: Field, C: Curve, S: Params<F, C>>(
    params: &S,
    pk: &ProvingKey<F>,
    query_instance: bool,
    instances: Seq<Seq<Seq<F>>>,
    instance: Seq<InstanceSingle<F>>,
    advice: Seq<AdviceCommitted<F, LagrangeCoeff>>,
    challenges: Seq<F>,
    records: Seq<CircuitRecord<F, C::AffineRepr>>,
    start: int,
)
    requires
        witness::all_recorded::<F, C, S>(
            params,
            &pk.vk.cs,
            query_instance,
            instance,
            advice,
            challenges,
            records,
        ),
    ensures
        draws(steps::circuits_steps(records, query_instance, instances, start)) == circuits_draws(
            &pk.vk.cs,
            advice,
            start,
        ),
    decreases records.len(),
{
    if records.len() > 0 {
        let cs = &pk.vk.cs;
        let i = records.len() - 1;
        let record = records.last();
        assert(witness::circuit_recorded::<F, C, S>(
            params,
            cs,
            query_instance,
            instance[i],
            advice[i],
            challenges,
            records[i],
        ));
        let earlier = records.drop_last();
        let earlier_advice = advice.drop_last();
        assert forall|k: int| 0 <= k < earlier.len() implies witness::circuit_recorded::<F, C, S>(
            params,
            cs,
            query_instance,
            instance[k],
            earlier_advice[k],
            challenges,
            #[trigger] earlier[k],
        ) by {
            assert(earlier[k] == records[k]);
        }
        lemma_draws_circuits::<F, C, S>(
            params,
            pk,
            query_instance,
            instances,
            instance,
            earlier_advice,
            challenges,
            earlier,
            start,
        );
        let last = steps::circuit_steps(record, query_instance, instances[i], start);
        lemma_draws_concat(
            steps::circuits_steps(earlier, query_instance, instances, start),
            last,
        );
        lemma_draws_phases(cs, advice[i], challenges, record.phases, start);
        let absorbed = steps::absorb_steps(query_instance, instances[i], record.instance_points);
        if query_instance {
            lemma_no_draws(absorbed);
        } else {
            lemma_draws_scalars::<F, C::AffineRepr>(instances[i]);
        }
        if record.phases.len() > 0 {
            lemma_draws_concat(absorbed, steps::phases_steps(record.phases, start));
            assert(draws(last) =~= draws(steps::phases_steps(record.phases, start)));
        }
    }
}

/// Randomness is drawn in an order that depends on nothing but the phases of
/// the columns: in each phase the rows that blind its columns, column by
/// column, and then the blind of each commitment. Columns that were handed over
/// are thus blinded in the same order as columns that were synthesized.
pub proof fn lemma_order_of_draws<F: Field, C: Curve, S: Params<F, C>>(
    params: &S,
    pk: &ProvingKey<F>,
    query_instance: bool,
    instances: Seq<Seq<Seq<F>>>,
    instance: Seq<InstanceSingle<F>>,
    advice: Seq<AdviceCommitted<F, LagrangeCoeff>>,
    challenges: Seq<F>,
    before: Seq<Step<F, C::AffineRepr>>,
    after: Seq<Step<F, C::AffineRepr>>,
)
    requires
        witness::is_phase1::<F, C, S>(
            params,
            pk,
            query_instance,
            instances,
            instance,
            advice,
            challenges,
            before,
            after,
        ),
    ensures
        draws(after) == draws(before) + circuits_draws(
            &pk.vk.cs,
            advice,
            pk.vk.domain.n - (pk.vk.cs.blinding_factors + 1),
        ),
{
    let start = pk.unusable_rows_start();
    let records = choose|records: Seq<CircuitRecord<F, C::AffineRepr>>|
        {
            &&& #[trigger] witness::all_recorded::<F, C, S>(
                params,
                &pk.vk.cs,
                query_instance,
                instance,
                advice,
                challenges,
                records,
            )
            &&& after == before + steps::circuits_steps(
                records,
                query_instance,
                instances,
                start,
            )
        };
    lemma_draws_circuits::<F, C, S>(
        params,
        pk,
        query_instance,
        instances,
        instance,
        advice,
        challenges,
        records,
        start,
    );
    lemma_draws_concat(before, steps::circuits_steps(records, query_instance, instances, start));
}

/// Every proof starts with the steps of witness generation: there is a point up
/// to which nothing but that was done, for the same circuits and instances.
pub proof fn lemma_proof_starts_with_witness<
    F: Field,
    C: Curve,
    S: Params<F, C>,
    ConcreteCircuit: Circuit<F>,
>(
    params: &S,
    pk: &ProvingKey<F>,
    query_instance: bool,
    circuits: Seq<ConcreteCircuit>,
    instances: Seq<Seq<Seq<F>>>,
    before: Seq<Step<F, C::AffineRepr>>,
    after: Seq<Step<F, C::AffineRepr>>,
)
    requires
        prover::proof_synthesized::<F, C, S, ConcreteCircuit>(
            params,
            pk,
            query_instance,
            circuits,
            instances,
            before,
            after,
        ),
    ensures
        exists|
            instance: Seq<InstanceSingle<F>>,
            advice: Seq<AdviceCommitted<F, LagrangeCoeff>>,
            challenges: Seq<F>,
            middle: Seq<Step<F, C::AffineRepr>>,
        |
            {
                &&& witness::are_instance_singles(&pk.vk.domain, instances, instance)
                &&& witness::all_synthesized(pk, circuits, instances, challenges, advice)
                &&& #[trigger] witness::is_phase1::<F, C, S>(
                    params,
                    pk,
                    query_instance,
                    instances,
                    instance,
                    advice,
                    challenges,
                    before.push(Step::CommonScalar(pk.vk.transcript_repr)),
                    middle,
                )
                &&& middle.is_prefix_of(after)
            },
{
    let (instance, advice, challenges) = choose|
        instance: Seq<InstanceSingle<F>>,
        advice: Seq<AdviceCommitted<F, LagrangeCoeff>>,
        challenges: Seq<F>,
    |
        {
            &&& #[trigger] prover::is_created::<F, C, S>(
                params,
                pk,
                query_instance,
                instances,
                instance,
                advice,
                challenges,
                before,
                after,
            )
            &&& witness::all_synthesized(pk, circuits, instances, challenges, advice)
        };
    let middle = choose|middle: Seq<Step<F, C::AffineRepr>>|
        {
            &&& #[trigger] witness::is_phase1::<F, C, S>(
                params,
                pk,
                query_instance,
                instances,
                instance,
                advice,
                challenges,
                before.push(Step::CommonScalar(pk.vk.transcript_repr)),
                middle,
            )
            &&& protocol::is_proof(
                pk,
                query_instance,
                instance,
                advice,
                challenges,
                middle,
                after,
            )
        };
    assert(middle.is_prefix_of(after));
}

/// Handing over the columns that a circuit assigns leads to nothing that the
/// synthesis of the circuit could not have led to. What the columns hold in the
/// rows that blind them does not matter.
pub proof fn lemma_advice_of_synthesis<
    F: Field,
    C: Curve,
    S: Params<F, C>,
    ConcreteCircuit: Circuit<F>,
>(
    params: &S,
    pk: &ProvingKey<F>,
    query_instance: bool,
    circuit: ConcreteCircuit,
    instances: Seq<Seq<F>>,
    synthesized: AdviceCommitted<F, LagrangeCoeff>,
    columns: Seq<Seq<F>>,
    before: Seq<Step<F, C::AffineRepr>>,
    after: Seq<Step<F, C::AffineRepr>>,
)
    requires
        pk.wf(params.spec_n()),
        forall|challenges: Seq<F>|
            challenges.len() == pk.vk.cs.num_challenges ==> #[trigger] witness::is_synthesized(
                pk,
                &circuit,
                instances,
                challenges,
                synthesized,
            ),
        columns.len() == pk.vk.cs.num_advice_columns,
        forall|c: int| 0 <= c < columns.len() ==> (#[trigger] columns[c]).len() == pk.vk.domain.n,
        forall|c: int, row: int|
            0 <= c < columns.len() && 0 <= row < pk.unusable_rows_start()
                ==> #[trigger] columns[c][row] == synthesized.advice_polys@[c]@[row],
        prover::proof_created_from::<F, C, S>(
            params,
            pk,
            query_instance,
            instances,
            columns,
            before,
            after,
        ),
    ensures
        prover::proof_synthesized::<F, C, S, ConcreteCircuit>(
            params,
            pk,
            query_instance,
            seq![circuit],
            seq![instances],
            before,
            after,
        ),
{
    let start = pk.unusable_rows_start();
    let (instance, advice, challenges) = choose|
        instance: InstanceSingle<F>,
        advice: AdviceCommitted<F, LagrangeCoeff>,
        challenges: Seq<F>,
    |
        {
            &&& #[trigger] prover::is_created::<F, C, S>(
                params,
                pk,
                query_instance,
                seq![instances],
                seq![instance],
                seq![advice],
                challenges,
                before,
                after,
            )
            &&& commit::same_above(
                columns,
                channel::values_of(advice.advice_polys@),
                start,
            )
        };
    assert(witness::is_synthesized(pk, &circuit, instances, challenges, synthesized));
    let (config, rounds) = choose|
        config: ConcreteCircuit::Config,
        rounds: Seq<Seq<Action<F>>>,
    |
        {
            &&& ConcreteCircuit::is_config(&config)
            &&& #[trigger] witness::is_driven(
                &circuit,
                &config,
                pk.vk.cs.constants@,
                instances,
                pk.vk.cs.spec_num_phases(),
                rounds,
            )
            &&& history::all_in_range(
                pk.vk.cs.num_advice_columns as nat,
                pk.vk.domain.n as nat,
                rounds.last(),
            )
            &&& witness::knows_challenges(&pk.vk.cs, rounds.last(), challenges)
            &&& witness::holds_cells(pk, rounds.last(), synthesized)
        };
    assert(witness::holds_cells(pk, rounds.last(), advice)) by {
        let polys = channel::values_of(advice.advice_polys@);
        assert forall|c: int, row: int|
            0 <= c < pk.vk.cs.num_advice_columns && 0 <= row < start implies history::cells_at(
            pk.vk.cs.num_advice_columns as nat,
            pk.vk.domain.n as nat,
            rounds.last(),
            pk.vk.cs.advice_column_phase@[c].0 as nat,
        )[c][row].evaluates_to((#[trigger] advice.advice_polys@[c]@[row]).value()) by {
            assert(polys[c].take(start) == columns[c].take(start));
            assert(polys[c].take(start)[row] == columns[c].take(start)[row]);
            assert(columns[c][row] == synthesized.advice_polys@[c]@[row]);
        }
    }
    assert(witness::is_synthesized(pk, &circuit, instances, challenges, advice));
    assert(witness::all_synthesized(
        pk,
        seq![circuit],
        seq![instances],
        challenges,
        seq![advice],
    ));
}

/// A proof that was created by synthesis could have been created from the
/// columns that it commits to, whatever these hold in the rows that blind them.
pub proof fn lemma_synthesis_of_advice<F: Field, C: Curve, S: Params<F, C>>(
    params: &S,
    pk: &ProvingKey<F>,
    query_instance: bool,
    instances: Seq<Seq<F>>,
    instance: InstanceSingle<F>,
    advice: AdviceCommitted<F, LagrangeCoeff>,
    challenges: Seq<F>,
    columns: Seq<Seq<F>>,
    before: Seq<Step<F, C::AffineRepr>>,
    after: Seq<Step<F, C::AffineRepr>>,
)
    requires
        prover::is_created::<F, C, S>(
            params,
            pk,
            query_instance,
            seq![instances],
            seq![instance],
            seq![advice],
            challenges,
            before,
            after,
        ),
        commit::same_above(
            columns,
            channel::values_of(advice.advice_polys@),
            pk.unusable_rows_start(),
        ),
    ensures
        prover::proof_created_from::<F, C, S>(
            params,
            pk,
            query_instance,
            instances,
            columns,
            before,
            after,
        ),
{
}

/// What can come of advice columns does not depend on the rows that blind them.
pub proof fn lemma_blinding_rows<F: Field, C: Curve, S: Params<F, C>>(
    params: &S,
    pk: &ProvingKey<F>,
    query_instance: bool,
    instances: Seq<Seq<F>>,
    columns: Seq<Seq<F>>,
    others: Seq<Seq<F>>,
    before: Seq<Step<F, C::AffineRepr>>,
    after: Seq<Step<F, C::AffineRepr>>,
)
    requires
        commit::same_above(columns, others, pk.unusable_rows_start()),
    ensures
        prover::proof_created_from::<F, C, S>(
            params,
            pk,
            query_instance,
            instances,
            columns,
            before,
            after,
        ) <==> prover::proof_created_from::<F, C, S>(
            params,
            pk,
            query_instance,
            instances,
            others,
            before,
            after,
        ),
{
    let start = pk.unusable_rows_start();
    assert forall|advice: AdviceCommitted<F, LagrangeCoeff>| #[trigger]
        commit::same_above(columns, channel::values_of(advice.advice_polys@), start)
            <==> commit::same_above(others, channel::values_of(advice.advice_polys@), start) by {
        let polys = channel::values_of(advice.advice_polys@);
        if commit::same_above(columns, polys, start) {
            assert forall|i: int| 0 <= i < polys.len() implies (#[trigger] polys[i]).len()
                == others[i].len() && polys[i].take(start) == others[i].take(start) by {
                assert(others[i].len() == columns[i].len());
            }
        }
        if commit::same_above(others, polys, start) {
            assert forall|i: int| 0 <= i < polys.len() implies (#[trigger] polys[i]).len()
                == columns[i].len() && polys[i].take(start) == columns[i].take(start) by {
                assert(others[i].len() == columns[i].len());
            }
        }
    }
    if prover::proof_created_from::<F, C, S>(
        params,
        pk,
        query_instance,
        instances,
        columns,
        before,
        after,
    ) {
        let (instance, advice, challenges) = choose|
            instance: InstanceSingle<F>,
            advice: AdviceCommitted<F, LagrangeCoeff>,
            challenges: Seq<F>,
        |
            {
                &&& #[trigger] prover::is_created::<F, C, S>(
                    params,
                    pk,
                    query_instance,
                    seq![instances],
                    seq![instance],
                    seq![advice],
                    challenges,
                    before,
                    after,
                )
                &&& commit::same_above(columns, channel::values_of(advice.advice_polys@), start)
            };
        assert(commit::same_above(others, channel::values_of(advice.advice_polys@), start));
    }
    if prover::proof_created_from::<F, C, S>(
        params,
        pk,
        query_instance,
        instances,
        others,
        before,
        after,
    ) {
        let (instance, advice, challenges) = choose|
            instance: InstanceSingle<F>,
            advice: AdviceCommitted<F, LagrangeCoeff>,
            challenges: Seq<F>,
        |
            {
                &&& #[trigger] prover::is_created::<F, C, S>(
                    params,
                    pk,
                    query_instance,
                    seq![instances],
                    seq![instance],
                    seq![advice],
                    challenges,
                    before,
                    after,
                )
                &&& commit::same_above(others, channel::values_of(advice.advice_polys@), start)
            };
        assert(commit::same_above(columns, channel::values_of(advice.advice_polys@), start));
    }
}

/// `longer` is `shorter` with zeroes appended to some columns.
pub open spec fn appends_zeroes<F: Field>(shorter: Seq<Seq<F>>, longer: Seq<Seq<F>>) -> bool {
    &&& shorter.len() == longer.len()
    &&& forall|c: int|
        0 <= c < shorter.len() ==> (#[trigger] shorter[c]).is_prefix_of(longer[c])
    &&& forall|c: int, row: int|
        0 <= c < shorter.len() && shorter[c].len() <= row < longer[c].len() ==> (
        #[trigger] longer[c][row]).value() == 0
}

/// The circuit does with the longer columns nothing that it could not do with
/// the shorter ones.
pub open spec fn reads_no_further<F: Field, ConcreteCircuit: Circuit<F>>(
    pk: &ProvingKey<F>,
    circuit: &ConcreteCircuit,
    shorter: Seq<Seq<F>>,
    longer: Seq<Seq<F>>,
) -> bool {
    forall|config: ConcreteCircuit::Config, before: Seq<Action<F>>, after: Seq<Action<F>>|
        #[trigger] circuit.synthesizes(&config, pk.vk.cs.constants@, longer, before, after)
            ==> circuit.synthesizes(&config, pk.vk.cs.constants@, shorter, before, after)
}

proof fn lemma_driven_on_shorter<F: Field, ConcreteCircuit: Circuit<F>>(
    pk: &ProvingKey<F>,
    circuit: &ConcreteCircuit,
    shorter: Seq<Seq<F>>,
    longer: Seq<Seq<F>>,
    challenges: Seq<F>,
    advice: AdviceCommitted<F, LagrangeCoeff>,
)
    requires
        reads_no_further(pk, circuit, shorter, longer),
        witness::is_synthesized(pk, circuit, longer, challenges, advice),
    ensures
        witness::is_synthesized(pk, circuit, shorter, challenges, advice),
{
    let constants = pk.vk.cs.constants@;
    let phases = pk.vk.cs.spec_num_phases();
    let (config, rounds) = choose|
        config: ConcreteCircuit::Config,
        rounds: Seq<Seq<Action<F>>>,
    |
        {
            &&& ConcreteCircuit::is_config(&config)
            &&& #[trigger] witness::is_driven(
                circuit,
                &config,
                constants,
                longer,
                phases,
                rounds,
            )
            &&& history::all_in_range(
                pk.vk.cs.num_advice_columns as nat,
                pk.vk.domain.n as nat,
                rounds.last(),
            )
            &&& witness::knows_challenges(&pk.vk.cs, rounds.last(), challenges)
            &&& witness::holds_cells(pk, rounds.last(), advice)
        };
    assert forall|k: int| 0 <= k < rounds.len() - 1 implies history::phases_in(
        #[trigger] rounds[k],
    ) < phases && witness::is_round(
        circuit,
        &config,
        constants,
        shorter,
        phases,
        rounds[k],
        rounds[k + 1],
    ) by {
        assert(witness::is_round(
            circuit,
            &config,
            constants,
            longer,
            phases,
            rounds[k],
            rounds[k + 1],
        ));
        let synthesized = choose|synthesized: Seq<Action<F>>|
            {
                &&& rounds[k].is_prefix_of(synthesized)
                &&& #[trigger] circuit.synthesizes(
                    &config,
                    constants,
                    longer,
                    rounds[k],
                    synthesized,
                )
                &&& witness::advances(phases, synthesized, rounds[k + 1])
            };
        assert(circuit.synthesizes(&config, constants, shorter, rounds[k], synthesized));
    }
    assert(witness::is_driven(circuit, &config, constants, shorter, phases, rounds));
}

proof fn lemma_absorbed_points<F, P>(
    records: Seq<CircuitRecord<F, P>>,
    a: Seq<Seq<Seq<F>>>,
    b: Seq<Seq<Seq<F>>>,
    start: int,
)
    ensures
        steps::circuits_steps(records, true, a, start) == steps::circuits_steps(
            records,
            true,
            b,
            start,
        ),
    decreases records.len(),
{
    if records.len() > 0 {
        lemma_absorbed_points(records.drop_last(), a, b, start);
    }
}

/// Instances are padded with zeroes: where instance columns are queried, what can
/// come of instances with zeroes appended can come of the instances themselves,
/// unless a circuit reads the zeroes.
pub proof fn lemma_appended_zeroes<
    F: Field,
    C: Curve,
    S: Params<F, C>,
    ConcreteCircuit: Circuit<F>,
>(
    params: &S,
    pk: &ProvingKey<F>,
    circuits: Seq<ConcreteCircuit>,
    shorter: Seq<Seq<Seq<F>>>,
    longer: Seq<Seq<Seq<F>>>,
    before: Seq<Step<F, C::AffineRepr>>,
    after: Seq<Step<F, C::AffineRepr>>,
)
    requires
        circuits.len() == longer.len(),
        shorter.len() == longer.len(),
        forall|i: int|
            0 <= i < longer.len() ==> appends_zeroes(shorter[i], #[trigger] longer[i])
                && reads_no_further(pk, &circuits[i], shorter[i], longer[i]),
        prover::proof_synthesized::<F, C, S, ConcreteCircuit>(
            params,
            pk,
            true,
            circuits,
            longer,
            before,
            after,
        ),
    ensures
        prover::proof_synthesized::<F, C, S, ConcreteCircuit>(
            params,
            pk,
            true,
            circuits,
            shorter,
            before,
            after,
        ),
{
    let start = pk.unusable_rows_start();
    let hashed = before.push(Step::CommonScalar(pk.vk.transcript_repr));
    let (instance, advice, challenges) = choose|
        instance: Seq<InstanceSingle<F>>,
        advice: Seq<AdviceCommitted<F, LagrangeCoeff>>,
        challenges: Seq<F>,
    |
        {
            &&& #[trigger] prover::is_created::<F, C, S>(
                params,
                pk,
                true,
                longer,
                instance,
                advice,
                challenges,
                before,
                after,
            )
            &&& witness::all_synthesized(pk, circuits, longer, challenges, advice)
        };
    assert forall|i: int| 0 <= i < instance.len() implies witness::is_instance_single(
        &pk.vk.domain,
        shorter[i],
        #[trigger] instance[i],
    ) by {
        assert(witness::is_instance_single(&pk.vk.domain, longer[i], instance[i]));
        assert(appends_zeroes(shorter[i], longer[i]));
        let single = instance[i];
        assert forall|c: int| 0 <= c < shorter[i].len() implies witness::is_padded(
            (#[trigger] single.instance_values@[c])@,
            shorter[i][c],
            pk.vk.domain.n as int,
        ) by {
            let padded = single.instance_values@[c]@;
            assert(witness::is_padded(padded, longer[i][c], pk.vk.domain.n as int));
            assert(shorter[i][c].is_prefix_of(longer[i][c]));
            assert forall|row: int| 0 <= row < shorter[i][c].len() implies #[trigger] padded[row]
                == shorter[i][c][row] by {
                assert(longer[i][c][row] == shorter[i][c][row]);
            }
            assert forall|row: int| shorter[i][c].len() <= row < pk.vk.domain.n implies (
            #[trigger] padded[row]).value() == 0 by {
                if row < longer[i][c].len() {
                    assert(longer[i][c][row].value() == 0);
                }
            }
        }
    }
    assert(witness::are_instance_singles(&pk.vk.domain, shorter, instance));
    let middle = choose|middle: Seq<Step<F, C::AffineRepr>>|
        {
            &&& #[trigger] witness::is_phase1::<F, C, S>(
                params,
                pk,
                true,
                longer,
                instance,
                advice,
                challenges,
                hashed,
                middle,
            )
            &&& protocol::is_proof(pk, true, instance, advice, challenges, middle, after)
        };
    let records = choose|records: Seq<CircuitRecord<F, C::AffineRepr>>|
        {
            &&& #[trigger] witness::all_recorded::<F, C, S>(
                params,
                &pk.vk.cs,
                true,
                instance,
                advice,
                challenges,
                records,
            )
            &&& middle == hashed + steps::circuits_steps(records, true, longer, start)
        };
    lemma_absorbed_points(records, longer, shorter, start);
    assert(witness::is_phase1::<F, C, S>(
        params,
        pk,
        true,
        shorter,
        instance,
        advice,
        challenges,
        hashed,
        middle,
    ));
    assert(prover::is_created::<F, C, S>(
        params,
        pk,
        true,
        shorter,
        instance,
        advice,
        challenges,
        before,
        after,
    ));
    assert forall|i: int| 0 <= i < advice.len() implies witness::is_synthesized(
        pk,
        &circuits[i],
        shorter[i],
        challenges,
        #[trigger] advice[i],
    ) by {
        assert(appends_zeroes(shorter[i], longer[i]));
        lemma_driven_on_shorter(
            pk,
            &circuits[i],
            shorter[i],
            longer[i],
            challenges,
            advice[i],
        );
    }
    assert(witness::all_synthesized(pk, circuits, shorter, challenges, advice));
}

/// If a step of a run fails, nothing is done after it, and the error that the run
/// returns is the one that the failure amounts to.
pub proof fn lemma_failure_is_last<F, P, T, R>(
    before: &Channel<F, P, T, R>,
    after: &Channel<F, P, T, R>,
    how: Taking<F, P, T, R>,
    outcome: Result<(), Error>,
    k: int,
)
    requires
        match outcome {
            Ok(_) => before.goes_on(after, how),
            Err(e) => before.breaks_off(after, how, e),
        },
        before.trace().len() <= k < after.trace().len(),
        after.trace()[k] is Failed,
    ensures
        k == after.trace().len() - 1,
        outcome == Err::<(), Error>(channel::error_of(after.trace()[k]->failure)),
{
    reveal(Channel::goes_on);
    reveal(Channel::breaks_off);
}

/// A run fails exactly if its last step failed, and adds to what was done before it.
pub proof fn lemma_failed_run_ends_in_failure<F, P, T, R>(
    before: &Channel<F, P, T, R>,
    after: &Channel<F, P, T, R>,
    how: Taking<F, P, T, R>,
    outcome: Result<(), Error>,
)
    requires
        match outcome {
            Ok(_) => before.goes_on(after, how),
            Err(e) => before.breaks_off(after, how, e),
        },
    ensures
        outcome is Err <==> before.trace().len() < after.trace().len()
            && after.trace().last() is Failed,
        before.trace().is_prefix_of(after.trace()),
{
    reveal(Channel::goes_on);
    reveal(Channel::breaks_off);
    let len = before.trace().len() as int;
    assert(after.trace().take(len) =~= before.trace()) by {
        assert forall|k: int| 0 <= k < len implies #[trigger] after.trace()[k]
            == before.trace()[k] by {}
    }
    if outcome is Ok && len < after.trace().len() {
        assert(!(after.trace()[after.trace().len() - 1] is Failed));
    }
}

} // verus!
