//! The steps by which a prover commits to the columns of a circuit.

use super::channel::Step;
use super::circuit::Phase;
use crate::curve::Curve;
use crate::field::Field;
use crate::poly::commitment;
use crate::poly::commitment::{Blind, Params};
use vstd::prelude::*;

verus! {

/// The slices as sequences.
pub open spec fn slices_of<F>(slices: Seq<&[F]>) -> Seq<Seq<F>> {
    slices.map_values(|s: &[F]| s@)
}

/// The scalars of blinds.
pub open spec fn blinds_of<F>(blinds: Seq<Blind<F>>) -> Seq<F> {
    blinds.map_values(|b: Blind<F>| b.0)
}

/// Slices, and lists of them, hold what they hold, in their order.
pub proof fn lemma_slices<F>(instances: Seq<&[&[F]]>, i: int, c: int, row: int)
    requires
        0 <= i < instances.len(),
        0 <= c < instances[i]@.len(),
        0 <= row < instances[i]@[c]@.len(),
    ensures
        all_slices_of(instances).len() == instances.len(),
        all_slices_of(instances)[i].len() == instances[i]@.len(),
        all_slices_of(instances)[i] == slices_of(instances[i]@),
        all_slices_of(instances)[i][c].len() == instances[i]@[c]@.len(),
        all_slices_of(instances)[i][c][row] == instances[i]@[c]@[row],
{
}

/// Blinds stand in the order of the commitments.
pub proof fn lemma_blinds<F>(blinds: Seq<Blind<F>>, c: int)
    requires
        0 <= c < blinds.len(),
    ensures
        blinds_of(blinds).len() == blinds.len(),
        blinds_of(blinds)[c] == blinds[c].0,
{
}

/// Random draws that gave these values.
pub open spec fn random_steps<F, P>(values: Seq<F>) -> Seq<Step<F, P>> {
    values.map_values(|v: F| Step::Random(v))
}

/// The absorption of these scalars.
pub open spec fn scalar_steps<F, P>(values: Seq<F>) -> Seq<Step<F, P>> {
    values.map_values(|v: F| Step::CommonScalar(v))
}

/// The absorption of these points.
pub open spec fn point_steps<F, P>(points: Seq<P>) -> Seq<Step<F, P>> {
    points.map_values(|p: P| Step::CommonPoint(p))
}

/// The writing of these points.
pub open spec fn write_steps<F, P>(points: Seq<P>) -> Seq<Step<F, P>> {
    points.map_values(|p: P| Step::WritePoint(p))
}

/// The squeezing of these challenges.
pub open spec fn squeeze_steps<F, P>(challenges: Seq<F>) -> Seq<Step<F, P>> {
    challenges.map_values(|c: F| Step::Squeeze(c))
}

/// The absorption of the scalars of each column in turn.
pub open spec fn column_scalar_steps<F, P>(columns: Seq<Seq<F>>) -> Seq<Step<F, P>>
    decreases columns.len(),
{
    if columns.len() == 0 {
        Seq::empty()
    } else {
        column_scalar_steps(columns.drop_last()) + scalar_steps(columns.last())
    }
}

/// The random draws for the rows of each column from `start` on, column by
/// column.
pub open spec fn tail_steps<F, P>(columns: Seq<Seq<F>>, start: int) -> Seq<Step<F, P>>
    decreases columns.len(),
{
    if columns.len() == 0 {
        Seq::empty()
    } else {
        tail_steps(columns.drop_last(), start) + random_steps(columns.last().skip(start))
    }
}

/// The absorption of the instance columns of a circuit: by their commitments
/// if instance columns are queried, else value by value.
pub open spec fn absorb_steps<F, P>(
    query_instance: bool,
    instances: Seq<Seq<F>>,
    points: Seq<P>,
) -> Seq<Step<F, P>> {
    if query_instance {
        point_steps(points)
    } else {
        column_scalar_steps(instances)
    }
}

/// What a phase of witness generation leaves behind.
pub struct PhaseRecord<F, P> {
    /// The values of the columns of the phase, with the rows that blind them.
    pub values: Seq<Seq<F>>,
    /// The blinds of the commitments to the columns.
    pub blinds: Seq<F>,
    /// The commitments to the columns.
    pub points: Seq<P>,
    /// The challenges that were squeezed.
    pub challenges: Seq<F>,
}

/// The steps of a phase: the rows from `start` on of every column are drawn at
/// random, then a blind for each column; the commitments to the columns are
/// written, and the challenges of the phase are squeezed.
pub open spec fn phase_steps<F, P>(record: PhaseRecord<F, P>, start: int) -> Seq<Step<F, P>> {
    tail_steps(record.values, start) + random_steps(record.blinds) + write_steps(record.points)
        + squeeze_steps(record.challenges)
}

/// The steps of phases in turn.
pub open spec fn phases_steps<F, P>(phases: Seq<PhaseRecord<F, P>>, start: int) -> Seq<Step<F, P>>
    decreases phases.len(),
{
    if phases.len() == 0 {
        Seq::empty()
    } else {
        phases_steps(phases.drop_last(), start) + phase_steps(phases.last(), start)
    }
}

/// What the generation of the witness of a circuit leaves behind.
pub struct CircuitRecord<F, P> {
    /// The commitments to the instance columns, if they are queried.
    pub instance_points: Seq<P>,
    /// The phases.
    pub phases: Seq<PhaseRecord<F, P>>,
}

/// The steps by which the witness of a circuit is committed to: the instance
/// columns are absorbed at the end of the first phase, before its columns.
pub open spec fn circuit_steps<F, P>(
    record: CircuitRecord<F, P>,
    query_instance: bool,
    instances: Seq<Seq<F>>,
    start: int,
) -> Seq<Step<F, P>> {
    if record.phases.len() == 0 {
        Seq::empty()
    } else {
        absorb_steps(query_instance, instances, record.instance_points) + phases_steps(
            record.phases,
            start,
        )
    }
}

/// The points are commitments to the columns of a phase under its blinds.
pub open spec fn phase_committed<F: Field, C: Curve, S: Params<F, C>>(
    params: &S,
    record: PhaseRecord<F, C::AffineRepr>,
) -> bool {
    &&& record.blinds.len() == record.values.len()
    &&& record.points.len() == record.values.len()
    &&& forall|j: int|
        0 <= j < record.values.len() ==> commitment::commits_to::<F, C, S>(
            params,
            record.values[j],
            record.blinds[j],
            #[trigger] record.points[j],
        )
}

/// The points are commitments to the instance columns under the default blind.
pub open spec fn instances_committed<F: Field, C: Curve, S: Params<F, C>>(
    params: &S,
    values: Seq<Seq<F>>,
    points: Seq<C::AffineRepr>,
) -> bool {
    &&& points.len() == values.len()
    &&& forall|j: int|
        0 <= j < values.len() ==> commitment::commits_plainly::<F, C, S>(
            params,
            values[j],
            #[trigger] points[j],
        )
}

/// The indices at which `phase` stands, in increasing order.
pub open spec fn indices_of_phase(phases: Seq<Phase>, phase: int) -> Seq<usize>
    decreases phases.len(),
{
    if phases.len() == 0 {
        Seq::empty()
    } else {
        let before = indices_of_phase(phases.drop_last(), phase);
        if phases.last().0 == phase {
            before.push((phases.len() - 1) as usize)
        } else {
            before
        }
    }
}

/// Every index at which a phase stands is listed once, under that phase, and
/// no other index is.
pub proof fn lemma_indices_of_phase(phases: Seq<Phase>, phase: int)
    requires
        phases.len() <= usize::MAX,
    ensures
        forall|j: int|
            #![trigger indices_of_phase(phases, phase)[j]]
            0 <= j < indices_of_phase(phases, phase).len() ==> {
                let i = indices_of_phase(phases, phase)[j];
                0 <= i < phases.len() && phases[i as int].0 == phase
            },
        forall|j: int, k: int|
            0 <= j < k < indices_of_phase(phases, phase).len() ==> #[trigger] indices_of_phase(
                phases,
                phase,
            )[j] < #[trigger] indices_of_phase(phases, phase)[k],
        forall|i: int|
            0 <= i < phases.len() && (#[trigger] phases[i]).0 == phase ==> indices_of_phase(
                phases,
                phase,
            ).contains(i as usize),
    decreases phases.len(),
{
    if phases.len() > 0 {
        let init = phases.drop_last();
        let before = indices_of_phase(init, phase);
        let all = indices_of_phase(phases, phase);
        lemma_indices_of_phase(init, phase);
        assert forall|j: int| 0 <= j < before.len() implies all[j] == #[trigger] before[j]
            && before[j] < init.len() && phases[before[j] as int].0 == phase by {
            assert(phases[before[j] as int] == init[before[j] as int]);
        }
        assert forall|i: int| 0 <= i < phases.len() && (#[trigger] phases[i]).0 == phase implies
            all.contains(i as usize) by {
            if i < init.len() {
                assert(init[i].0 == phase);
                let j = choose|j: int| 0 <= j < before.len() && before[j] == i as usize;
                assert(all[j] == i as usize);
            } else {
                assert(all.last() == i as usize);
            }
        }
    }
}

/// The columns of instances of several circuits as sequences.
pub open spec fn all_slices_of<F>(instances: Seq<&[&[F]]>) -> Seq<Seq<Seq<F>>> {
    instances.map_values(|s: &[&[F]]| slices_of(s@))
}

/// The steps by which the witnesses of several circuits are committed to, one
/// after the other.
pub open spec fn circuits_steps<F, P>(
    records: Seq<CircuitRecord<F, P>>,
    query_instance: bool,
    instances: Seq<Seq<Seq<F>>>,
    start: int,
) -> Seq<Step<F, P>>
    decreases records.len(),
{
    if records.len() == 0 {
        Seq::empty()
    } else {
        circuits_steps(records.drop_last(), query_instance, instances, start) + circuit_steps(
            records.last(),
            query_instance,
            instances[records.len() - 1],
            start,
        )
    }
}

/// A phase without columns and challenges has no steps.
pub proof fn lemma_empty_phases<F, P>(phases: Seq<PhaseRecord<F, P>>, used: int, start: int)
    requires
        0 <= used <= phases.len(),
        forall|p: int|
            used <= p < phases.len() ==> {
                &&& (#[trigger] phases[p]).values.len() == 0
                &&& phases[p].blinds.len() == 0
                &&& phases[p].points.len() == 0
                &&& phases[p].challenges.len() == 0
            },
    ensures
        phases_steps(phases, start) == phases_steps(phases.take(used), start),
    decreases phases.len(),
{
    if used == phases.len() {
        assert(phases.take(used) =~= phases);
    } else {
        let init = phases.drop_last();
        assert(phases.take(used) =~= init.take(used));
        lemma_empty_phases(init, used, start);
        assert(phases[phases.len() - 1] == phases.last());
        assert(phase_steps(phases.last(), start) =~= Seq::empty());
        assert(phases_steps(phases, start) =~= phases_steps(init, start));
    }
}

/// If all stand at the first phase, all indices are listed under it.
pub proof fn lemma_single_phase(phases: Seq<Phase>)
    requires
        forall|i: int| 0 <= i < phases.len() ==> (#[trigger] phases[i]).0 == 0,
    ensures
        indices_of_phase(phases, 0) == Seq::new(phases.len(), |i: int| i as usize),
    decreases phases.len(),
{
    if phases.len() > 0 {
        let init = phases.drop_last();
        assert forall|i: int| 0 <= i < init.len() implies (#[trigger] init[i]).0 == 0 by {
            assert(init[i] == phases[i]);
        }
        lemma_single_phase(init);
        assert(phases.last() == phases[phases.len() - 1]);
    }
    assert(indices_of_phase(phases, 0) =~= Seq::new(phases.len(), |i: int| i as usize));
}

} // verus!
