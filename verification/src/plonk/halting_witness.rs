//! Two runs of witness generation that are answered alike take the same steps,
//! whether they fail or not.

use super::channel;
use super::channel::Step;
use super::commit;
use super::halting;
use super::halting_proof;
use super::replay;
use super::replay::World;
use super::steps;
use super::steps::{CircuitRecord, PhaseRecord};
use super::witness;
use super::witness::{AdviceCommitted, InstanceSingle};
use super::{ConstraintSystem, ProvingKey};
use crate::curve::Curve;
use crate::field;
use crate::field::Field;
use crate::poly::commitment::Params;
use crate::poly::LagrangeCoeff;
use vstd::prelude::*;

verus! {

/// A phase up to the commitments to its columns, or, if it did not get that far,
/// up to nothing.
pub open spec fn begun_phase<F, P>(
    record: PhaseRecord<F, P>,
    committed: bool,
) -> PhaseRecord<F, P> {
    if committed {
        PhaseRecord { challenges: Seq::empty(), ..record }
    } else {
        PhaseRecord {
            values: Seq::empty(),
            blinds: Seq::empty(),
            points: Seq::empty(),
            challenges: Seq::empty(),
        }
    }
}

/// A circuit up to a phase that is not over.
pub open spec fn begun_circuit<F, P>(
    record: CircuitRecord<F, P>,
    last: int,
    committed: bool,
) -> CircuitRecord<F, P> {
    CircuitRecord {
        instance_points: record.instance_points,
        phases: record.phases.take(last).push(begun_phase(record.phases[last], committed)),
    }
}

/// The circuits up to a phase of one of them that is not over.
pub open spec fn begun_circuits<F, P>(
    records: Seq<CircuitRecord<F, P>>,
    count: int,
    last: int,
    committed: bool,
) -> Seq<CircuitRecord<F, P>> {
    records.take(count).push(begun_circuit(records[count], last, committed))
}

proof fn lemma_phase_start<F, P>(record: PhaseRecord<F, P>, start: int, committed: bool) -> (rest:
    Seq<Step<F, P>>)
    ensures
        steps::phase_steps(record, start) == steps::phase_steps(
            begun_phase(record, committed),
            start,
        ) + rest,
{
    let begun = begun_phase(record, committed);
    let rest = if committed {
        steps::squeeze_steps(record.challenges)
    } else {
        steps::phase_steps(record, start)
    };
    assert(steps::phase_steps(record, start) =~= steps::phase_steps(begun, start) + rest);
    rest
}

proof fn lemma_phases_start<F, P>(
    phases: Seq<PhaseRecord<F, P>>,
    last: int,
    start: int,
    committed: bool,
) -> (rest: Seq<Step<F, P>>)
    requires
        0 <= last < phases.len(),
    ensures
        steps::phases_steps(phases, start) == steps::phases_steps(
            phases.take(last).push(begun_phase(phases[last], committed)),
            start,
        ) + rest,
    decreases phases.len(),
{
    let begun = phases.take(last).push(begun_phase(phases[last], committed));
    assert(begun.drop_last() =~= phases.take(last));
    if last == phases.len() - 1 {
        assert(phases.drop_last() =~= phases.take(last));
        let rest = lemma_phase_start(phases[last], start, committed);
        assert(steps::phases_steps(phases, start) =~= steps::phases_steps(begun, start) + rest);
        rest
    } else {
        let first = phases.drop_last();
        assert(first.take(last) =~= phases.take(last));
        let rest = lemma_phases_start(first, last, start, committed);
        let more = rest + steps::phase_steps(phases.last(), start);
        assert(steps::phases_steps(phases, start) =~= steps::phases_steps(begun, start) + more);
        more
    }
}

proof fn lemma_circuits_start<F, P>(
    records: Seq<CircuitRecord<F, P>>,
    query_instance: bool,
    instances: Seq<Seq<Seq<F>>>,
    start: int,
    count: int,
    last: int,
    committed: bool,
) -> (rest: Seq<Step<F, P>>)
    requires
        0 <= count < records.len(),
        0 <= last < records[count].phases.len(),
    ensures
        steps::circuits_steps(records, query_instance, instances, start) == steps::circuits_steps(
            begun_circuits(records, count, last, committed),
            query_instance,
            instances,
            start,
        ) + rest,
    decreases records.len(),
{
    let begun = begun_circuits(records, count, last, committed);
    let all = steps::circuits_steps(records, query_instance, instances, start);
    let first = steps::circuits_steps(begun, query_instance, instances, start);
    assert(begun.drop_last() =~= records.take(count));
    if count == records.len() - 1 {
        assert(records.drop_last() =~= records.take(count));
        let rest = lemma_phases_start(records[count].phases, last, start, committed);
        assert(all =~= first + rest);
        rest
    } else {
        let fewer = records.drop_last();
        assert(fewer.take(count) =~= records.take(count));
        let rest = lemma_circuits_start(
            fewer,
            query_instance,
            instances,
            start,
            count,
            last,
            committed,
        );
        let more = rest + steps::circuit_steps(
            records.last(),
            query_instance,
            instances[records.len() - 1],
            start,
        );
        assert(all =~= first + more);
        more
    }
}

proof fn lemma_tails_hold<F, P>(columns: Seq<Seq<F>>, start: int)
    ensures
        halting::none_failed(steps::tail_steps::<F, P>(columns, start)),
    decreases columns.len(),
{
    if columns.len() > 0 {
        lemma_tails_hold::<F, P>(columns.drop_last(), start);
    }
}

proof fn lemma_scalars_hold<F, P>(columns: Seq<Seq<F>>)
    ensures
        halting::none_failed(steps::column_scalar_steps::<F, P>(columns)),
    decreases columns.len(),
{
    if columns.len() > 0 {
        lemma_scalars_hold::<F, P>(columns.drop_last());
    }
}

proof fn lemma_phases_hold<F, P>(phases: Seq<PhaseRecord<F, P>>, start: int)
    ensures
        halting::none_failed(steps::phases_steps(phases, start)),
    decreases phases.len(),
{
    if phases.len() > 0 {
        lemma_phases_hold(phases.drop_last(), start);
        lemma_tails_hold::<F, P>(phases.last().values, start);
    }
}

proof fn lemma_circuits_hold<F, P>(
    records: Seq<CircuitRecord<F, P>>,
    query_instance: bool,
    instances: Seq<Seq<Seq<F>>>,
    start: int,
)
    ensures
        halting::none_failed(
            steps::circuits_steps(records, query_instance, instances, start),
        ),
    decreases records.len(),
{
    if records.len() > 0 {
        lemma_circuits_hold(records.drop_last(), query_instance, instances, start);
        lemma_phases_hold(records.last().phases, start);
        lemma_scalars_hold::<F, P>(instances[records.len() - 1]);
    }
}

/// A circuit was gone through.
pub open spec fn circuit_complete<F: Field, C: Curve, S: Params<F, C>>(
    params: &S,
    cs: &ConstraintSystem,
    query_instance: bool,
    single: InstanceSingle<F>,
    record: CircuitRecord<F, C::AffineRepr>,
) -> bool {
    &&& record.phases.len() == cs.spec_num_phases()
    &&& commit::absorbs::<F, C, S>(
        params,
        query_instance,
        channel::values_of(single.instance_values@),
        record.instance_points,
    )
    &&& forall|p: int|
        0 <= p < record.phases.len() ==> witness::phase_shaped::<F, C, S>(
            params,
            cs,
            p,
            #[trigger] record.phases[p],
        )
    &&& forall|p: int, j: int|
        0 <= p < record.phases.len() && 0 <= j < record.phases[p].values.len() ==> (
        #[trigger] record.phases[p].values[j]).len() == params.spec_n()
}

/// A circuit was gone through at least up to a phase.
pub open spec fn circuit_started<F: Field, C: Curve, S: Params<F, C>>(
    params: &S,
    cs: &ConstraintSystem,
    query_instance: bool,
    single: InstanceSingle<F>,
    record: CircuitRecord<F, C::AffineRepr>,
    last: int,
    committed: bool,
) -> bool {
    &&& 0 <= last < record.phases.len()
    &&& commit::absorbs::<F, C, S>(
        params,
        query_instance,
        channel::values_of(single.instance_values@),
        record.instance_points,
    )
    &&& forall|p: int|
        0 <= p < last ==> witness::phase_shaped::<F, C, S>(
            params,
            cs,
            p,
            #[trigger] record.phases[p],
        )
    &&& steps::phase_committed::<F, C, S>(params, record.phases[last])
    &&& committed ==> record.phases[last].values.len() == steps::indices_of_phase(
        cs.advice_column_phase@,
        last,
    ).len()
    &&& forall|p: int, j: int|
        0 <= p <= last && 0 <= j < record.phases[p].values.len() ==> (
        #[trigger] record.phases[p].values[j]).len() == params.spec_n()
}

proof fn lemma_complete_repeats<F: Field, C: Curve, S: Params<F, C>>(
    params: &S,
    pk: &ProvingKey<F>,
    query_instance: bool,
    single_a: InstanceSingle<F>,
    single_b: InstanceSingle<F>,
    a: CircuitRecord<F, C::AffineRepr>,
    b: CircuitRecord<F, C::AffineRepr>,
)
    requires
        pk.wf(params.spec_n()),
        replay::same_usable(a.phases, b.phases, pk.unusable_rows_start()),
        circuit_complete::<F, C, S>(params, &pk.vk.cs, query_instance, single_a, a),
        circuit_complete::<F, C, S>(params, &pk.vk.cs, query_instance, single_b, b),
    ensures
        replay::may_repeat::<F, C, S>(
            params,
            a.phases,
            b.phases,
            pk.unusable_rows_start(),
            params.spec_n() as int,
        ),
{
    assert forall|p: int| #![trigger a.phases[p]] 0 <= p < a.phases.len() implies {
        &&& steps::phase_committed::<F, C, S>(params, a.phases[p])
        &&& steps::phase_committed::<F, C, S>(params, b.phases[p])
        &&& replay::same_challenges(a.phases, b.phases, p) ==> replay::same_phase(
            a.phases[p],
            b.phases[p],
            pk.unusable_rows_start(),
            params.spec_n() as int,
        )
    } by {
        assert(witness::phase_shaped::<F, C, S>(params, &pk.vk.cs, p, a.phases[p]));
        assert(witness::phase_shaped::<F, C, S>(params, &pk.vk.cs, p, b.phases[p]));
    }
}

proof fn lemma_started_repeats<F: Field, C: Curve, S: Params<F, C>>(
    params: &S,
    pk: &ProvingKey<F>,
    query_instance: bool,
    single_a: InstanceSingle<F>,
    single_b: InstanceSingle<F>,
    a: CircuitRecord<F, C::AffineRepr>,
    b: CircuitRecord<F, C::AffineRepr>,
    last: int,
    committed: bool,
)
    requires
        pk.wf(params.spec_n()),
        replay::same_usable(a.phases, b.phases, pk.unusable_rows_start()),
        circuit_started::<F, C, S>(
            params,
            &pk.vk.cs,
            query_instance,
            single_a,
            a,
            last,
            committed,
        ),
        circuit_started::<F, C, S>(
            params,
            &pk.vk.cs,
            query_instance,
            single_b,
            b,
            last,
            committed,
        ),
    ensures
        replay::may_repeat::<F, C, S>(
            params,
            begun_circuit(a, last, committed).phases,
            begun_circuit(b, last, committed).phases,
            pk.unusable_rows_start(),
            params.spec_n() as int,
        ),
{
    let start = pk.unusable_rows_start();
    let n = params.spec_n() as int;
    let x = begun_circuit(a, last, committed).phases;
    let y = begun_circuit(b, last, committed).phases;
    assert forall|p: int| #![trigger x[p]] 0 <= p < x.len() implies {
        &&& steps::phase_committed::<F, C, S>(params, x[p])
        &&& steps::phase_committed::<F, C, S>(params, y[p])
        &&& replay::same_challenges(x, y, p) ==> replay::same_phase(x[p], y[p], start, n)
    } by {
        if p < last {
            assert(x[p] == a.phases[p] && y[p] == b.phases[p]);
            assert(witness::phase_shaped::<F, C, S>(params, &pk.vk.cs, p, a.phases[p]));
            assert(witness::phase_shaped::<F, C, S>(params, &pk.vk.cs, p, b.phases[p]));
        } else {
            assert(x[p] == begun_phase(a.phases[last], committed));
            assert(y[p] == begun_phase(b.phases[last], committed));
        }
        if replay::same_challenges(x, y, p) {
            assert(replay::same_challenges(a.phases, b.phases, p)) by {
                assert forall|q: int| 0 <= q < p implies field::values_of(
                    (#[trigger] a.phases[q]).challenges,
                ) == field::values_of(b.phases[q].challenges) by {
                    assert(x[q] == a.phases[q] && y[q] == b.phases[q]);
                }
            }
            assert forall|j: int, row: int|
                0 <= j < x[p].values.len() && 0 <= row < start implies (
            #[trigger] x[p].values[j][row]).value() == y[p].values[j][row].value() by {
                assert(a.phases[p].values[j][row].value() == b.phases[p].values[j][row].value());
            }
            assert forall|j: int| 0 <= j < x[p].values.len() implies (
            #[trigger] x[p].values[j]).len() == n by {
                assert(a.phases[p].values[j].len() == n);
            }
            assert forall|j: int| 0 <= j < y[p].values.len() implies (
            #[trigger] y[p].values[j]).len() == n by {
                assert(b.phases[p].values[j].len() == n);
            }
        }
    }
}

/// Two runs that go through circuits at least up to a phase are alike up to it.
proof fn lemma_starts_alike<F: Field, C: Curve, S: Params<F, C>>(
    params: &S,
    pk: &ProvingKey<F>,
    world: World<C::AffineRepr>,
    query_instance: bool,
    instances_a: Seq<Seq<Seq<F>>>,
    instances_b: Seq<Seq<Seq<F>>>,
    singles_a: Seq<InstanceSingle<F>>,
    singles_b: Seq<InstanceSingle<F>>,
    a: Seq<CircuitRecord<F, C::AffineRepr>>,
    b: Seq<CircuitRecord<F, C::AffineRepr>>,
    count: int,
    last: int,
    committed: bool,
    before_a: Seq<Step<F, C::AffineRepr>>,
    before_b: Seq<Step<F, C::AffineRepr>>,
    after_a: Seq<Step<F, C::AffineRepr>>,
    after_b: Seq<Step<F, C::AffineRepr>>,
)
    requires
        pk.wf(params.spec_n()),
        replay::is_functional::<F, C, S>(params),
        replay::absorbs_alike(query_instance, instances_a, instances_b, singles_a, singles_b),
        replay::all_same_usable(a, b, pk.unusable_rows_start()),
        0 <= count < a.len(),
        count < b.len(),
        count < instances_a.len(),
        forall|i: int|
            0 <= i < count ==> circuit_complete::<F, C, S>(
                params,
                &pk.vk.cs,
                query_instance,
                singles_a[i],
                #[trigger] a[i],
            ),
        forall|i: int|
            0 <= i < count ==> circuit_complete::<F, C, S>(
                params,
                &pk.vk.cs,
                query_instance,
                singles_b[i],
                #[trigger] b[i],
            ),
        circuit_started::<F, C, S>(
            params,
            &pk.vk.cs,
            query_instance,
            singles_a[count],
            a[count],
            last,
            committed,
        ),
        circuit_started::<F, C, S>(
            params,
            &pk.vk.cs,
            query_instance,
            singles_b[count],
            b[count],
            last,
            committed,
        ),
        halting_proof::are_answered(world, before_a, before_b, after_a, after_b),
        halting::reaches(
            before_a,
            steps::circuits_steps(
                begun_circuits(a, count, last, committed),
                query_instance,
                instances_a,
                pk.unusable_rows_start(),
            ),
            after_a,
        ),
        halting::reaches(
            before_b,
            steps::circuits_steps(
                begun_circuits(b, count, last, committed),
                query_instance,
                instances_b,
                pk.unusable_rows_start(),
            ),
            after_b,
        ),
    ensures
        halting_proof::alike(
            before_a,
            before_b,
            steps::circuits_steps(
                begun_circuits(a, count, last, committed),
                query_instance,
                instances_a,
                pk.unusable_rows_start(),
            ),
            steps::circuits_steps(
                begun_circuits(b, count, last, committed),
                query_instance,
                instances_b,
                pk.unusable_rows_start(),
            ),
            after_a,
            after_b,
        ),
{
    let start = pk.unusable_rows_start();
    let n = params.spec_n() as int;
    let x = begun_circuits(a, count, last, committed);
    let y = begun_circuits(b, count, last, committed);
    assert forall|i: int| 0 <= i < x.len() implies replay::circuit_may_repeat::<F, C, S>(
        params,
        query_instance,
        instances_a[i],
        instances_b[i],
        singles_a[i],
        singles_b[i],
        #[trigger] x[i],
        y[i],
        start,
        n,
    ) by {
        assert(instances_a[i] == instances_a[i]);
        assert(replay::same_usable(a[i].phases, b[i].phases, start));
        if i < count {
            assert(x[i] == a[i] && y[i] == b[i]);
            lemma_complete_repeats::<F, C, S>(
                params,
                pk,
                query_instance,
                singles_a[i],
                singles_b[i],
                a[i],
                b[i],
            );
        } else {
            lemma_started_repeats::<F, C, S>(
                params,
                pk,
                query_instance,
                singles_a[i],
                singles_b[i],
                a[i],
                b[i],
                last,
                committed,
            );
        }
    }
    lemma_circuits_hold(x, query_instance, instances_a, start);
    lemma_circuits_hold(y, query_instance, instances_b, start);
    let steps_a = steps::circuits_steps(x, query_instance, instances_a, start);
    let steps_b = steps::circuits_steps(y, query_instance, instances_b, start);
    let before = replay::shapes(before_a);
    let (sa, sb) = (replay::shapes(steps_a), replay::shapes(steps_b));
    let either = halting::either(before + sa, before + sb);
    if replay::is_answered(either, before + sa) && replay::is_answered(either, before + sb) {
        replay::lemma_circuits_repeat::<F, C, S>(
            params,
            either,
            before,
            query_instance,
            instances_a,
            instances_b,
            singles_a,
            singles_b,
            x,
            y,
            start,
            n,
        );
    }
    halting::lemma_runs_alike(
        world,
        before_a,
        before_b,
        steps_a,
        steps_b,
        after_a,
        after_b,
    );
}

/// What is known of the circuits in a run: the records as far as it got, and, if
/// it got to the arguments, what these are run on.
pub struct Start<F, P> {
    /// The records of the circuits.
    pub records: Seq<CircuitRecord<F, P>>,
    /// Whether the run was stopped in the last of them.
    pub stopped: bool,
    /// The committed columns.
    pub advice: Seq<AdviceCommitted<F, LagrangeCoeff>>,
    /// The challenges.
    pub challenges: Seq<F>,
}

/// A run went through all circuits and got to the arguments, or was stopped in
/// the course of the circuits.
pub open spec fn is_start<F: Field, C: Curve, S: Params<F, C>>(
    params: &S,
    pk: &ProvingKey<F>,
    query_instance: bool,
    instances: Seq<Seq<Seq<F>>>,
    singles: Seq<InstanceSingle<F>>,
    start: Start<F, C::AffineRepr>,
    before: Seq<Step<F, C::AffineRepr>>,
    after: Seq<Step<F, C::AffineRepr>>,
) -> bool {
    let records = start.records;
    let taken = steps::circuits_steps(
        records,
        query_instance,
        instances,
        pk.unusable_rows_start(),
    );
    if start.stopped {
        let last = records.len() - 1;
        &&& 0 <= last < instances.len()
        &&& forall|i: int|
            0 <= i < last ==> circuit_complete::<F, C, S>(
                params,
                &pk.vk.cs,
                query_instance,
                singles[i],
                #[trigger] records[i],
            )
        &&& witness::circuit_begun::<F, C, S>(
            params,
            &pk.vk.cs,
            query_instance,
            singles[last],
            records[last],
        )
        &&& channel::stops_in(before, taken, after)
    } else {
        &&& records.len() == instances.len()
        &&& start.challenges.len() == pk.vk.cs.num_challenges
        &&& witness::all_recorded::<F, C, S>(
            params,
            &pk.vk.cs,
            query_instance,
            singles,
            start.advice,
            start.challenges,
            records,
        )
        &&& (before + taken).is_prefix_of(after)
    }
}

/// A circuit that was recorded was gone through.
pub proof fn lemma_recorded_complete<F: Field, C: Curve, S: Params<F, C>>(
    params: &S,
    pk: &ProvingKey<F>,
    query_instance: bool,
    single: InstanceSingle<F>,
    advice: AdviceCommitted<F, LagrangeCoeff>,
    challenges: Seq<F>,
    record: CircuitRecord<F, C::AffineRepr>,
)
    requires
        pk.wf(params.spec_n()),
        witness::circuit_recorded::<F, C, S>(
            params,
            &pk.vk.cs,
            query_instance,
            single,
            advice,
            challenges,
            record,
        ),
    ensures
        circuit_complete::<F, C, S>(params, &pk.vk.cs, query_instance, single, record),
{
    replay::lemma_recorded_sizes::<F, C, S>(
        params,
        pk,
        query_instance,
        single,
        advice,
        challenges,
        record,
    );
    assert forall|p: int| 0 <= p < record.phases.len() implies witness::phase_shaped::<F, C, S>(
        params,
        &pk.vk.cs,
        p,
        #[trigger] record.phases[p],
    ) by {
        assert(witness::phase_matches(&pk.vk.cs, p, advice, challenges, record.phases[p]));
    }
}

/// Where a run that was stopped was stopped.
pub open spec fn stop_of<F, P>(start: Start<F, P>) -> (int, int, bool) {
    let count = start.records.len() - 1;
    let phases = start.records[count].phases;
    (count, phases.len() - 1, phases.last().values.len() > 0)
}

/// One stop comes no later than another.
pub open spec fn no_later(a: (int, int, bool), b: (int, int, bool)) -> bool {
    ||| a.0 < b.0
    ||| a.0 == b.0 && a.1 < b.1
    ||| a.0 == b.0 && a.1 == b.1 && (a.2 ==> b.2)
}

/// A run goes through what comes before a stop, if it was not stopped earlier.
proof fn lemma_gets_to_stop<F: Field, C: Curve, S: Params<F, C>>(
    params: &S,
    pk: &ProvingKey<F>,
    query_instance: bool,
    instances: Seq<Seq<Seq<F>>>,
    singles: Seq<InstanceSingle<F>>,
    start: Start<F, C::AffineRepr>,
    stop: (int, int, bool),
    before: Seq<Step<F, C::AffineRepr>>,
    after: Seq<Step<F, C::AffineRepr>>,
)
    requires
        pk.wf(params.spec_n()),
        is_start::<F, C, S>(
            params,
            pk,
            query_instance,
            instances,
            singles,
            start,
            before,
            after,
        ),
        0 <= stop.0 < instances.len(),
        0 <= stop.1 < pk.vk.cs.spec_num_phases(),
        start.stopped ==> no_later(stop, stop_of(start)),
    ensures
        stop.0 < start.records.len(),
        forall|i: int|
            0 <= i < stop.0 ==> circuit_complete::<F, C, S>(
                params,
                &pk.vk.cs,
                query_instance,
                singles[i],
                #[trigger] start.records[i],
            ),
        circuit_started::<F, C, S>(
            params,
            &pk.vk.cs,
            query_instance,
            singles[stop.0],
            start.records[stop.0],
            stop.1,
            stop.2,
        ),
        halting::reaches(
            before,
            steps::circuits_steps(
                begun_circuits(start.records, stop.0, stop.1, stop.2),
                query_instance,
                instances,
                pk.unusable_rows_start(),
            ),
            after,
        ),
        start.stopped && stop == stop_of(start) ==> channel::stops_in(
            before,
            steps::circuits_steps(
                begun_circuits(start.records, stop.0, stop.1, stop.2),
                query_instance,
                instances,
                pk.unusable_rows_start(),
            ),
            after,
        ),
{
    let records = start.records;
    let (count, last, committed) = stop;
    let complete = if start.stopped {
        records.len() - 1
    } else {
        records.len() as int
    };
    assert forall|i: int| 0 <= i < complete implies circuit_complete::<F, C, S>(
        params,
        &pk.vk.cs,
        query_instance,
        singles[i],
        #[trigger] records[i],
    ) by {
        if !start.stopped {
            assert(witness::circuit_recorded::<F, C, S>(
                params,
                &pk.vk.cs,
                query_instance,
                singles[i],
                start.advice[i],
                start.challenges,
                records[i],
            ));
            lemma_recorded_complete::<F, C, S>(
                params,
                pk,
                query_instance,
                singles[i],
                start.advice[i],
                start.challenges,
                records[i],
            );
        }
    }
    let record = records[count];
    if count < complete {
        assert(circuit_complete::<F, C, S>(
            params,
            &pk.vk.cs,
            query_instance,
            singles[count],
            record,
        ));
        assert(witness::phase_shaped::<F, C, S>(params, &pk.vk.cs, last, record.phases[last]));
    } else {
        assert(record.phases.last() == record.phases[record.phases.len() - 1]);
        if last < record.phases.len() - 1 {
            assert(witness::phase_shaped::<F, C, S>(params, &pk.vk.cs, last, record.phases[last]));
        }
    }
    let rest = lemma_circuits_start(
        records,
        query_instance,
        instances,
        pk.unusable_rows_start(),
        count,
        last,
        committed,
    );
    let begun = begun_circuits(records, count, last, committed);
    halting::lemma_reaches_parts(
        before,
        steps::circuits_steps(begun, query_instance, instances, pk.unusable_rows_start()),
        rest,
        after,
    );
    if start.stopped && stop == stop_of(start) {
        let phase = record.phases[last];
        let again = begun_phase(phase, committed);
        assert(again.values =~= phase.values);
        assert(again.blinds =~= phase.blinds);
        assert(again.points =~= phase.points);
        assert(again.challenges =~= phase.challenges);
        assert(again == phase);
        assert(record.phases.take(last).push(again) =~= record.phases);
        assert(begun_circuit(record, last, committed) == record);
        assert(begun =~= records);
    }
}

/// Two runs that are answered alike, absorb the same instances and commit to the
/// same usable rows are the same if one of them is stopped in the course of the
/// circuits. Otherwise both get past these after the same steps, with the same
/// columns and challenges.
pub proof fn lemma_circuits_alike<F: Field, C: Curve, S: Params<F, C>>(
    params: &S,
    pk: &ProvingKey<F>,
    world: World<C::AffineRepr>,
    query_instance: bool,
    instances_a: Seq<Seq<Seq<F>>>,
    instances_b: Seq<Seq<Seq<F>>>,
    singles_a: Seq<InstanceSingle<F>>,
    singles_b: Seq<InstanceSingle<F>>,
    a: Start<F, C::AffineRepr>,
    b: Start<F, C::AffineRepr>,
    before_a: Seq<Step<F, C::AffineRepr>>,
    before_b: Seq<Step<F, C::AffineRepr>>,
    after_a: Seq<Step<F, C::AffineRepr>>,
    after_b: Seq<Step<F, C::AffineRepr>>,
)
    requires
        pk.wf(params.spec_n()),
        pk.vk.cs.num_challenges > 0 ==> instances_a.len() > 0,
        replay::is_functional::<F, C, S>(params),
        replay::absorbs_alike(query_instance, instances_a, instances_b, singles_a, singles_b),
        replay::all_same_usable(a.records, b.records, pk.unusable_rows_start()),
        halting_proof::are_answered(world, before_a, before_b, after_a, after_b),
        is_start::<F, C, S>(
            params,
            pk,
            query_instance,
            instances_a,
            singles_a,
            a,
            before_a,
            after_a,
        ),
        is_start::<F, C, S>(
            params,
            pk,
            query_instance,
            instances_b,
            singles_b,
            b,
            before_b,
            after_b,
        ),
    ensures
        a.stopped <==> b.stopped,
        a.stopped ==> replay::shapes(after_a) == replay::shapes(after_b),
        !a.stopped ==> {
            &&& replay::same_advice(a.advice, b.advice)
            &&& field::values_of(a.challenges) == field::values_of(b.challenges)
            &&& replay::shapes(
                before_a + steps::circuits_steps(
                    a.records,
                    query_instance,
                    instances_a,
                    pk.unusable_rows_start(),
                ),
            ) == replay::shapes(
                before_b + steps::circuits_steps(
                    b.records,
                    query_instance,
                    instances_b,
                    pk.unusable_rows_start(),
                ),
            )
        },
{
    let start = pk.unusable_rows_start();
    if a.stopped || b.stopped {
        lemma_stop_alike::<F, C, S>(
            params,
            pk,
            world,
            query_instance,
            instances_a,
            instances_b,
            singles_a,
            singles_b,
            a,
            b,
            before_a,
            before_b,
            after_a,
            after_b,
        );
    } else {
        let steps_a = steps::circuits_steps(a.records, query_instance, instances_a, start);
        let steps_b = steps::circuits_steps(b.records, query_instance, instances_b, start);
        lemma_answered_start(world, before_a + steps_a, after_a);
        lemma_answered_start(world, before_b + steps_b, after_b);
        replay::lemma_shapes_concat(before_a, steps_a);
        replay::lemma_shapes_concat(before_b, steps_b);
        replay::lemma_witness_repeats::<F, C, S>(
            params,
            pk,
            world,
            query_instance,
            instances_a,
            instances_b,
            singles_a,
            singles_b,
            a.advice,
            b.advice,
            a.challenges,
            b.challenges,
            a.records,
            b.records,
            replay::shapes(before_a),
        );
    }
}

proof fn lemma_stop_alike<F: Field, C: Curve, S: Params<F, C>>(
    params: &S,
    pk: &ProvingKey<F>,
    world: World<C::AffineRepr>,
    query_instance: bool,
    instances_a: Seq<Seq<Seq<F>>>,
    instances_b: Seq<Seq<Seq<F>>>,
    singles_a: Seq<InstanceSingle<F>>,
    singles_b: Seq<InstanceSingle<F>>,
    a: Start<F, C::AffineRepr>,
    b: Start<F, C::AffineRepr>,
    before_a: Seq<Step<F, C::AffineRepr>>,
    before_b: Seq<Step<F, C::AffineRepr>>,
    after_a: Seq<Step<F, C::AffineRepr>>,
    after_b: Seq<Step<F, C::AffineRepr>>,
)
    requires
        pk.wf(params.spec_n()),
        a.stopped || b.stopped,
        replay::is_functional::<F, C, S>(params),
        replay::absorbs_alike(query_instance, instances_a, instances_b, singles_a, singles_b),
        replay::all_same_usable(a.records, b.records, pk.unusable_rows_start()),
        halting_proof::are_answered(world, before_a, before_b, after_a, after_b),
        is_start::<F, C, S>(
            params,
            pk,
            query_instance,
            instances_a,
            singles_a,
            a,
            before_a,
            after_a,
        ),
        is_start::<F, C, S>(
            params,
            pk,
            query_instance,
            instances_b,
            singles_b,
            b,
            before_b,
            after_b,
        ),
    ensures
        replay::shapes(after_a) == replay::shapes(after_b),
        a.stopped && b.stopped,
{
    let start = pk.unusable_rows_start();
    let stop = if a.stopped && (!b.stopped || no_later(stop_of(a), stop_of(b))) {
        stop_of(a)
    } else {
        stop_of(b)
    };
    lemma_gets_to_stop::<F, C, S>(
        params,
        pk,
        query_instance,
        instances_a,
        singles_a,
        a,
        stop,
        before_a,
        after_a,
    );
    lemma_gets_to_stop::<F, C, S>(
        params,
        pk,
        query_instance,
        instances_b,
        singles_b,
        b,
        stop,
        before_b,
        after_b,
    );
    lemma_starts_alike::<F, C, S>(
        params,
        pk,
        world,
        query_instance,
        instances_a,
        instances_b,
        singles_a,
        singles_b,
        a.records,
        b.records,
        stop.0,
        stop.1,
        stop.2,
        before_a,
        before_b,
        after_a,
        after_b,
    );
    let x = begun_circuits(a.records, stop.0, stop.1, stop.2);
    let y = begun_circuits(b.records, stop.0, stop.1, stop.2);
    let steps_a = steps::circuits_steps(x, query_instance, instances_a, start);
    let steps_b = steps::circuits_steps(y, query_instance, instances_b, start);
    lemma_circuits_hold(x, query_instance, instances_a, start);
    lemma_circuits_hold(y, query_instance, instances_b, start);
    if channel::stops_in(before_a, steps_a, after_a) {
        halting::lemma_stopped_short(before_a, steps_a, after_a);
    }
    if channel::stops_in(before_b, steps_b, after_b) {
        halting::lemma_stopped_short(before_b, steps_b, after_b);
    }
    if !a.stopped {
        lemma_not_stopped(
            a.records,
            query_instance,
            instances_a,
            start,
            stop,
            before_a,
            after_a,
        );
    }
    if !b.stopped {
        lemma_not_stopped(
            b.records,
            query_instance,
            instances_b,
            start,
            stop,
            before_b,
            after_b,
        );
    }
}

/// A run that went through all circuits went through each phase.
proof fn lemma_not_stopped<F, P>(
    records: Seq<CircuitRecord<F, P>>,
    query_instance: bool,
    instances: Seq<Seq<Seq<F>>>,
    start: int,
    stop: (int, int, bool),
    before: Seq<Step<F, P>>,
    after: Seq<Step<F, P>>,
)
    requires
        0 <= stop.0 < records.len(),
        0 <= stop.1 < records[stop.0].phases.len(),
        (before + steps::circuits_steps(
            records,
            query_instance,
            instances,
            start,
        )).is_prefix_of(after),
    ensures
        (before + steps::circuits_steps(
            begun_circuits(records, stop.0, stop.1, stop.2),
            query_instance,
            instances,
            start,
        )).is_prefix_of(after),
{
    let rest = lemma_circuits_start(
        records,
        query_instance,
        instances,
        start,
        stop.0,
        stop.1,
        stop.2,
    );
    let begun = steps::circuits_steps(
        begun_circuits(records, stop.0, stop.1, stop.2),
        query_instance,
        instances,
        start,
    );
    let all = before + (begun + rest);
    let len = (before + begun).len() as int;
    assert(after.take(len) =~= after.take(all.len() as int).take(len));
    assert(after.take(len) =~= before + begun);
}

/// What came before in a run that was answered was answered.
pub proof fn lemma_answered_start<F: Field, P>(
    world: World<P>,
    start: Seq<Step<F, P>>,
    after: Seq<Step<F, P>>,
)
    requires
        start.is_prefix_of(after),
        replay::is_answered(world, replay::shapes(after)),
    ensures
        replay::is_answered(world, replay::shapes(start)),
{
    let rest = after.skip(start.len() as int);
    assert(after =~= start + rest);
    replay::lemma_shapes_concat(start, rest);
    replay::lemma_answered_prefix(world, replay::shapes(start), replay::shapes(rest));
}

} // verus!
