//! The backend on which a circuit assigns its witness.

use super::channel;
use super::channel::Channel;
use super::circuit::{
    Advice, Any, Assignment, Challenge, Column, Fixed, Instance, Phase, Selector, Value,
    MAX_PHASES,
};
use super::commit;
use super::commit::{
    absorb_instances, commit_columns, squeeze_challenges, store_columns,
};
use super::history;
use super::history::Action;
use super::steps;
use super::steps::{CircuitRecord, PhaseRecord};
use super::witness::{AdviceCommitted, InstanceSingle};
use super::{Assigned, Error};
use crate::curve::Curve;
use crate::field::Field;
use crate::poly::commitment::{Params, Prover};
use crate::poly::invert;
use crate::poly::{batch_invert_assigned, LagrangeCoeff, Polynomial};
use crate::rng::RandomSource;
use crate::transcript::TranscriptWrite;
use std::collections::HashMap;
use std::marker::PhantomData;
use vstd::prelude::*;

verus! {

broadcast use channel::group_channel;

/// Every index is below the bound and is listed once.
pub open spec fn is_partition(indices: Seq<Vec<usize>>, bound: int) -> bool {
    &&& forall|p: int, j: int|
        0 <= p < indices.len() && 0 <= j < indices[p]@.len() ==> #[trigger] indices[p]@[j] < bound
    &&& forall|p: int, j: int, q: int, k: int|
        0 <= p < indices.len() && 0 <= j < indices[p]@.len() && 0 <= q < indices.len() && 0 <= k
            < indices[q]@.len() && #[trigger] indices[p]@[j] == #[trigger] indices[q]@[k] ==> p == q
            && j == k
}

/// The index is listed under one of the first `phases` phases.
pub open spec fn is_listed(indices: Seq<Vec<usize>>, phases: int, index: usize) -> bool {
    exists|p: int, j: int|
        0 <= p < phases && 0 <= j < indices[p]@.len() && #[trigger] indices[p]@[j] == index
}

/// The state of the generation of the witness of one circuit.
pub struct WitnessCollection<'a, F: Field, C: Curve, S, P, T, R> {
    /// The parameters of the commitment scheme.
    pub params: &'a S,
    /// The phase that is being synthesized.
    pub current_phase: Phase,
    /// The advice cells as they have been assigned.
    pub advice: Vec<Polynomial<Assigned<F>, LagrangeCoeff>>,
    /// The challenges of the phases that are over, by their index.
    pub challenges: HashMap<usize, F>,
    /// The instance columns.
    pub instances: &'a [&'a [F]],
    /// The advice columns of the phases that are over.
    pub advice_single: AdviceCommitted<F, LagrangeCoeff>,
    /// The instance columns as polynomials.
    pub instance_single: &'a InstanceSingle<F>,
    /// The transcript and the source of randomness.
    pub channel: Channel<F, C::AffineRepr, T, R>,
    /// The indices of the advice columns of each phase.
    pub column_indices: [Vec<usize>; 3],
    /// The indices of the challenges of each phase.
    pub challenge_indices: [Vec<usize>; 3],
    /// The row at which those rows start that blind the columns.
    pub unusable_rows_start: usize,
    /// The channel as it was before this circuit.
    pub base: Ghost<Channel<F, C::AffineRepr, T, R>>,
    /// What the circuit has done.
    pub history: Ghost<Seq<Action<F>>>,
    /// What has been committed to.
    pub record: Ghost<CircuitRecord<F, C::AffineRepr>>,
    /// The opening argument.
    pub marker: PhantomData<P>,
}

impl<'a, F, C, S, P, T, R> WitnessCollection<'a, F, C, S, P, T, R> where
    F: Field,
    C: Curve,
    S: Params<F, C>,
    P: Prover<F, T, R>,
    T: TranscriptWrite<F, C::AffineRepr>,
    R: RandomSource<F>,
 {
    /// What the cells held when a phase was ended.
    pub open spec fn cells_at(&self, phase: int) -> Seq<Seq<Assigned<F>>> {
        history::cells_at(
            self.advice@.len(),
            self.params.spec_n() as nat,
            self.history@,
            phase as nat,
        )
    }

    /// The columns and challenges of a phase that is over are those that were
    /// recorded, and hold what had been assigned when it was ended, but for the
    /// rows that blind them.
    pub open spec fn phase_recorded(&self, p: int) -> bool {
        let record = self.record@.phases[p];
        let columns = self.column_indices@[p]@;
        let challenges = self.challenge_indices@[p]@;
        &&& steps::phase_committed::<F, C, S>(self.params, record)
        &&& record.values.len() == columns.len()
        &&& record.challenges.len() == challenges.len()
        &&& forall|j: int|
            #![trigger columns[j]]
            0 <= j < columns.len() ==> {
                &&& self.advice_single.advice_polys@[columns[j] as int]@ == record.values[j]
                &&& self.advice_single.advice_blinds@[columns[j] as int].0 == record.blinds[j]
            }
        &&& forall|j: int, row: int|
            0 <= j < columns.len() && 0 <= row < self.unusable_rows_start ==> self.cells_at(
                p,
            )[columns[j] as int][row].evaluates_to((#[trigger] record.values[j][row]).value())
        &&& forall|j: int|
            #![trigger challenges[j]]
            0 <= j < challenges.len() ==> {
                &&& self.challenges@.contains_key(challenges[j])
                &&& self.challenges@[challenges[j]] == record.challenges[j]
            }
    }

    /// The challenges that became known when a phase was ended are those of the
    /// phases up to it.
    pub open spec fn known_recorded(&self, k: int) -> bool {
        let known = self.history@[k]->known;
        let phases = history::phases_in(self.history@.take(k)) as int;
        &&& forall|index: usize| #[trigger]
            known.contains_key(index) <==> is_listed(
                self.challenge_indices@,
                phases + 1,
                index,
            )
        &&& forall|index: usize| #[trigger]
            known.contains_key(index) ==> self.challenges@.contains_key(index)
                && self.challenges@[index] == known[index]
    }

    /// A step failed for a reason that amounts to this error.
    pub open spec fn breaks_off_with(&self, e: Error) -> bool {
        e is Transcript && self.base@.breaks_off(&self.channel, channel::plainly(), e)
    }

    /// What was done to the backend is what the cells, the columns, the challenges
    /// and the record tell.
    pub open spec fn is_recorded(&self) -> bool {
        &&& self.is_consistent()
        &&& self.current_phase.0 <= MAX_PHASES
        &&& self.record@.phases.len() == self.current_phase.0
        &&& history::phases_in(self.history@) == self.current_phase.0
        &&& channel::values_of(self.advice@) == history::cells(
            self.advice@.len(),
            self.params.spec_n() as nat,
            self.history@,
        )
        &&& history::all_in_range(
            self.advice@.len(),
            self.params.spec_n() as nat,
            self.history@,
        )
        &&& forall|p: int| 0 <= p < self.current_phase.0 ==> #[trigger] self.phase_recorded(p)
        &&& forall|k: usize| #[trigger]
            self.challenges@.contains_key(k) <==> is_listed(
                self.challenge_indices@,
                self.current_phase.0 as int,
                k,
            )
        &&& history::known(self.history@) == self.challenges@
        &&& forall|k: int|
            0 <= k < self.history@.len() && self.history@[k] is NextPhase
                ==> #[trigger] self.known_recorded(k)
        &&& self.current_phase.0 > 0 && P::QUERY_INSTANCE ==> steps::instances_committed::<F, C, S>(
            self.params,
            channel::values_of(self.instance_single.instance_values@),
            self.record@.instance_points,
        )
    }

    /// The columns of the current phase, as they were to be committed to when a
    /// step failed, hold what had been assigned to them, but for the rows that
    /// blind them. There are none if the step failed before that.
    pub open spec fn phase_begun(&self, record: PhaseRecord<F, C::AffineRepr>) -> bool {
        let columns = self.column_indices@[self.current_phase.0 as int]@;
        &&& steps::phase_committed::<F, C, S>(self.params, record)
        &&& record.challenges.len() == 0
        &&& record.values.len() == columns.len() || record.values.len() == 0
        &&& record.values.len() > 0 || self.current_phase.0 == 0
        &&& forall|j: int| 0 <= j < record.values.len() ==> (#[trigger] record.values[j]).len()
            == self.params.spec_n()
        &&& forall|j: int, row: int|
            0 <= j < record.values.len() && 0 <= row < self.unusable_rows_start
                ==> self.advice@[columns[j] as int]@[row].evaluates_to(
                (#[trigger] record.values[j][row]).value(),
            )
    }

    /// A step failed in the course of the phases of this record, the last of which
    /// is not over.
    pub open spec fn stops_with(&self, record: CircuitRecord<F, C::AffineRepr>) -> bool {
        &&& self.is_recorded()
        &&& self.current_phase.0 < MAX_PHASES
        &&& record.phases.len() == self.current_phase.0 + 1
        &&& record.phases.drop_last() == self.record@.phases
        &&& self.phase_begun(record.phases.last())
        &&& commit::absorbs::<F, C, S>(
            self.params,
            P::QUERY_INSTANCE,
            channel::values_of(self.instance_single.instance_values@),
            record.instance_points,
        )
        &&& channel::stops_in(
            self.base@.trace(),
            steps::circuit_steps(
                record,
                P::QUERY_INSTANCE,
                steps::slices_of(self.instances@),
                self.unusable_rows_start as int,
            ),
            self.channel.trace(),
        )
    }

    /// The lengths and indices agree.
    pub open spec fn is_consistent(&self) -> bool {
        &&& 0 < self.params.spec_n()
        &&& self.unusable_rows_start <= self.params.spec_n()
        &&& self.advice_single.advice_polys@.len() == self.advice@.len()
        &&& self.advice_single.advice_blinds@.len() == self.advice@.len()
        &&& forall|i: int|
            0 <= i < self.advice@.len() ==> (#[trigger] self.advice@[i])@.len()
                == self.params.spec_n()
        &&& forall|i: int|
            0 <= i < self.advice@.len() ==> (#[trigger] self.advice_single.advice_polys@[i])@.len()
                == self.params.spec_n()
        &&& is_partition(self.column_indices@, self.advice@.len() as int)
        &&& is_partition(self.challenge_indices@, usize::MAX as int)
    }

    /// The columns of the current phase hold in `later` what has been assigned
    /// to them, but for the rows that blind them. Other columns, and the
    /// challenges of earlier phases, are unchanged.
    pub open spec fn phase_evaluated(&self, later: &Self) -> bool {
        let columns = self.column_indices@[self.current_phase.0 as int]@;
        &&& forall|j: int, row: int|
            0 <= j < columns.len() && 0 <= row < self.unusable_rows_start
                ==> self.advice@[columns[j] as int]@[row].evaluates_to(
                (#[trigger] later.advice_single.advice_polys@[columns[j] as int]@[row]).value(),
            )
        &&& forall|k: usize|
            #![trigger later.advice_single.advice_polys@[k as int]]
            #![trigger later.advice_single.advice_blinds@[k as int]]
            k < self.advice@.len() && !columns.contains(k) ==> {
                &&& later.advice_single.advice_polys@[k as int]
                    == self.advice_single.advice_polys@[k as int]
                &&& later.advice_single.advice_blinds@[k as int]
                    == self.advice_single.advice_blinds@[k as int]
            }
        &&& forall|k: usize|
            self.challenges@.contains_key(k) ==> #[trigger] later.challenges@[k]
                == self.challenges@[k]
    }

    /// What was done is still told if nothing but the channel has changed.
    proof fn lemma_still_recorded(&self, later: &Self)
        requires
            self.is_recorded(),
            *later == (WitnessCollection { channel: later.channel, ..*self }),
        ensures
            later.is_recorded(),
    {
        assert forall|p: int| 0 <= p < later.current_phase.0 implies #[trigger] later.phase_recorded(
            p,
        ) by {
            assert(self.phase_recorded(p));
        }
        assert forall|k: int|
            0 <= k < later.history@.len() && later.history@[k] is NextPhase implies
            #[trigger] later.known_recorded(k) by {
            assert(self.known_recorded(k));
        }
    }

    /// An assignment to a cell keeps the invariant.
    proof fn lemma_wf_of_advice(
        &self,
        later: &Self,
        column: usize,
        row: usize,
        value: Assigned<F>,
    )
        requires
            self.wf(),
            column < self.advice@.len(),
            row < self.params.spec_n(),
            *later == (WitnessCollection {
                advice: later.advice,
                history: Ghost(self.history@.push(Action::Assign { column, row, value })),
                ..*self
            }),
            later.advice@.len() == self.advice@.len(),
            forall|i: int|
                0 <= i < self.advice@.len() && i != column ==> #[trigger] later.advice@[i]
                    == self.advice@[i],
            later.advice@[column as int]@ == self.advice@[column as int]@.update(
                row as int,
                value,
            ),
        ensures
            later.wf(),
    {
        let columns = self.advice@.len();
        let rows = self.params.spec_n() as nat;
        let action = Action::Assign { column, row, value };
        history::lemma_cells_at(columns, rows, self.history@, action);
        history::lemma_still_in_range(columns, rows, self.history@, action);
        assert(later.history@.drop_last() =~= self.history@);
        assert(channel::values_of(later.advice@) =~= history::cells(columns, rows, later.history@));
        assert forall|p: int| 0 <= p < later.current_phase.0 implies #[trigger] later.phase_recorded(
            p,
        ) by {
            assert(self.phase_recorded(p));
            assert(later.cells_at(p) == self.cells_at(p));
        }
        assert forall|k: int|
            0 <= k < later.history@.len() && later.history@[k] is NextPhase implies
            #[trigger] later.known_recorded(k) by {
            assert(self.known_recorded(k));
            assert(later.history@.take(k) =~= self.history@.take(k));
        }
    }

    /// A phase that has been committed to and recorded keeps the invariant.
    proof fn lemma_wf_of_phase(
        &self,
        later: &Self,
        record: PhaseRecord<F, C::AffineRepr>,
        instance_points: Seq<C::AffineRepr>,
    )
        requires
            self.wf(),
            self.current_phase.0 < MAX_PHASES,
            later.params == self.params,
            later.instances == self.instances,
            later.instance_single == self.instance_single,
            later.column_indices == self.column_indices,
            later.challenge_indices == self.challenge_indices,
            later.unusable_rows_start == self.unusable_rows_start,
            later.base == self.base,
            later.base@.goes_on(&later.channel, channel::plainly()),
            later.advice == self.advice,
            later.history@ == self.history@.push(
                Action::NextPhase { known: later.challenges@ },
            ),
            later.current_phase.0 == self.current_phase.0 + 1,
            later.record@.phases == self.record@.phases.push(record),
            later.record@.instance_points == instance_points,
            self.current_phase.0 > 0 ==> instance_points == self.record@.instance_points,
            self.current_phase.0 == 0 && P::QUERY_INSTANCE ==> steps::instances_committed::<
                F,
                C,
                S,
            >(
                self.params,
                channel::values_of(self.instance_single.instance_values@),
                instance_points,
            ),
            later.advice_single.advice_polys@.len() == self.advice@.len(),
            later.advice_single.advice_blinds@.len() == self.advice@.len(),
            forall|j: int| 0 <= j < record.values.len() ==> (#[trigger] record.values[j]).len()
                == self.params.spec_n(),
            later.phase_recorded(self.current_phase.0 as int),
            self.phase_evaluated(later),
            forall|k: usize| #[trigger]
                later.challenges@.contains_key(k) <==> self.challenges@.contains_key(k)
                    || self.challenge_indices@[self.current_phase.0 as int]@.contains(k),
            later.channel.trace() == self.channel.trace() + (if self.current_phase.0 == 0 {
                steps::absorb_steps(
                    P::QUERY_INSTANCE,
                    steps::slices_of(self.instances@),
                    instance_points,
                )
            } else {
                Seq::empty()
            }) + steps::phase_steps(record, self.unusable_rows_start as int),
        ensures
            later.wf(),
    {
        let phase = self.current_phase.0 as int;
        let columns = self.column_indices@[phase]@;
        let start = self.unusable_rows_start as int;
        history::lemma_cells_at(
            self.advice@.len(),
            self.params.spec_n() as nat,
            self.history@,
            Action::NextPhase { known: later.challenges@ },
        );
        history::lemma_still_in_range(
            self.advice@.len(),
            self.params.spec_n() as nat,
            self.history@,
            Action::NextPhase { known: later.challenges@ },
        );
        assert(later.history@.drop_last() =~= self.history@);
        assert forall|p: int| 0 <= p < later.current_phase.0 implies #[trigger] later.phase_recorded(
            p,
        ) by {
            if p < phase {
                assert(self.phase_recorded(p));
                assert(later.cells_at(p) == self.cells_at(p));
                let earlier = self.column_indices@[p]@;
                assert forall|j: int| #![trigger earlier[j]] 0 <= j < earlier.len() implies {
                    &&& later.advice_single.advice_polys@[earlier[j] as int]@
                        == later.record@.phases[p].values[j]
                    &&& later.advice_single.advice_blinds@[earlier[j] as int].0
                        == later.record@.phases[p].blinds[j]
                } by {
                    assert(!columns.contains(earlier[j])) by {
                        if columns.contains(earlier[j]) {
                            let k = choose|k: int|
                                0 <= k < columns.len() && columns[k] == earlier[j];
                            assert(self.column_indices@[p]@[j] == self.column_indices@[phase]@[k]);
                        }
                    }
                    assert(earlier[j] < self.advice@.len());
                }
            }
        }
        assert(self.advice@.len() == self.advice.len());
        assert forall|i: int| 0 <= i < later.advice@.len() implies (
        #[trigger] later.advice_single.advice_polys@[i])@.len() == later.params.spec_n() by {
            if columns.contains(i as usize) {
                let j = choose|j: int| 0 <= j < columns.len() && columns[j] == i as usize;
                assert(later.advice_single.advice_polys@[columns[j] as int]@ == record.values[j]);
            } else {
                assert(later.advice_single.advice_polys@[(i as usize) as int]
                    == self.advice_single.advice_polys@[i]);
            }
        }
        assert forall|k: usize| #[trigger]
            later.challenges@.contains_key(k) <==> is_listed(
                later.challenge_indices@,
                later.current_phase.0 as int,
                k,
            ) by {
            let indices = self.challenge_indices@;
            if is_listed(indices, phase, k) {
                let (p, j) = choose|p: int, j: int|
                    0 <= p < phase && 0 <= j < indices[p]@.len() && #[trigger] indices[p]@[j] == k;
                assert(indices[p]@[j] == k && 0 <= p < phase + 1);
            }
            if indices[phase]@.contains(k) {
                let j = choose|j: int| 0 <= j < indices[phase]@.len() && indices[phase]@[j] == k;
                assert(indices[phase]@[j] == k);
            }
        }
        assert forall|k: int|
            0 <= k < later.history@.len() && later.history@[k] is NextPhase implies
            #[trigger] later.known_recorded(k) by {
            assert(later.history@.take(k) =~= self.history@.take(k));
            if k < self.history@.len() {
                assert(self.known_recorded(k));
            } else {
                assert(self.history@.take(k) =~= self.history@);
            }
        }
        let phases = later.record@.phases;
        assert(phases.drop_last() =~= self.record@.phases);
        assert(steps::phases_steps(phases, start) == steps::phases_steps(
            self.record@.phases,
            start,
        ) + steps::phase_steps(record, start));
        assert(later.channel.trace() =~= later.base@.trace() + steps::circuit_steps(
            later.record@,
            P::QUERY_INSTANCE,
            steps::slices_of(later.instances@),
            start,
        ));
    }

    /// The values of the columns of a phase as they have been assigned.
    fn evaluate_columns(&self, phase: usize) -> (r: Vec<Polynomial<F, LagrangeCoeff>>)
        requires
            self.is_consistent(),
            phase < 3,
        ensures
            r@.len() == self.column_indices@[phase as int]@.len(),
            forall|j: int|
                #![trigger r@[j]]
                0 <= j < r@.len() ==> invert::column_evaluated(
                    self.advice@[self.column_indices@[phase as int]@[j] as int]@,
                    r@[j]@,
                ),
    {
        let indices = &self.column_indices[phase];
        let mut columns: Vec<&[Assigned<F>]> = Vec::new();
        let mut i: usize = 0;
        while i < indices.len()
            invariant
                self.is_consistent(),
                phase < 3,
                indices@ == self.column_indices@[phase as int]@,
                i <= indices@.len(),
                columns@.len() == i,
                forall|j: int|
                    0 <= j < i ==> (#[trigger] columns@[j])@
                        == self.advice@[indices@[j] as int]@ && columns@[j]@.len()
                        == self.params.spec_n(),
            decreases indices@.len() - i,
        {
            assert(self.column_indices@[phase as int]@[i as int] < self.advice@.len());
            columns.push(self.advice[indices[i]].values());
            i += 1;
        }
        batch_invert_assigned(columns)
    }
}

impl<'a, F, C, S, P, T, R> Assignment<F> for WitnessCollection<'a, F, C, S, P, T, R> where
    F: Field,
    C: Curve,
    S: Params<F, C>,
    P: Prover<F, T, R>,
    T: TranscriptWrite<F, C::AffineRepr>,
    R: RandomSource<F>,
 {
    /// The steps that have been taken are those of the phases that are over,
    /// and the challenges of those phases are the ones that are known.
    open spec fn wf(&self) -> bool {
        &&& self.is_recorded()
        &&& self.base@.goes_on(&self.channel, channel::plainly())
        &&& self.channel.trace() == self.base@.trace() + steps::circuit_steps(
            self.record@,
            P::QUERY_INSTANCE,
            steps::slices_of(self.instances@),
            self.unusable_rows_start as int,
        )
    }

    /// Steps and phases are only added, and the circuit stays the same.
    open spec fn evolves(&self, later: &Self) -> bool {
        &&& later.params == self.params
        &&& later.instances == self.instances
        &&& later.instance_single == self.instance_single
        &&& later.column_indices == self.column_indices
        &&& later.challenge_indices == self.challenge_indices
        &&& later.unusable_rows_start == self.unusable_rows_start
        &&& later.advice@.len() == self.advice@.len()
        &&& later.base == self.base
        &&& self.history@.is_prefix_of(later.history@)
        &&& self.record@.phases.is_prefix_of(later.record@.phases)
        &&& self.current_phase.0 <= later.current_phase.0
    }

    open spec fn spec_num_columns(&self) -> nat {
        self.advice@.len()
    }

    open spec fn spec_num_rows(&self) -> nat {
        self.params.spec_n() as nat
    }

    open spec fn spec_instances(&self) -> Seq<Seq<F>> {
        steps::slices_of(self.instances@)
    }

    open spec fn spec_usable_rows(&self) -> nat {
        self.unusable_rows_start as nat
    }

    open spec fn spec_k(&self) -> u32 {
        self.params.spec_k()
    }

    open spec fn history(&self) -> Seq<Action<F>> {
        self.history@
    }

    /// A step failed while the instances were absorbed or the columns of a phase
    /// were committed to.
    open spec fn has_failed(&self) -> bool {
        &&& exists|e: Error| self.breaks_off_with(e)
        &&& exists|record: CircuitRecord<F, C::AffineRepr>| #[trigger] self.stops_with(record)
    }

    proof fn lemma_evolves(&self, later: &Self, latest: &Self) {
    }

    fn enter_region(&mut self, name: &str)
        ensures
            *final(self) == *old(self),
    {
        // Do nothing; we don't care about regions in this context.
    }

    fn exit_region(&mut self)
        ensures
            *final(self) == *old(self),
    {
        // Do nothing; we don't care about regions in this context.
    }

    fn enable_selector(&mut self, annotation: &str, selector: &Selector, row: usize) -> (r: Result<
        (),
        Error,
    >)
        ensures
            *final(self) == *old(self),
            r is Ok,
    {
        // We only care about advice columns here
        Ok(())
    }

    fn annotate_column(&mut self, annotation: &str, column: Column<Any>)
        ensures
            *final(self) == *old(self),
    {
        // Do nothing
    }

    fn query_instance(&self, column: Column<Instance>, row: usize) -> (r: Result<Value<F>, Error>)
        ensures
            r == (if row >= self.unusable_rows_start {
                Err(Error::NotEnoughRowsAvailable { current_k: self.params.spec_k() })
            } else if column.index < self.instances@.len() && row
                < self.instances@[column.index as int]@.len() {
                Ok(Value { inner: Some(self.instances@[column.index as int]@[row as int]) })
            } else {
                Err(Error::BoundsFailure)
            }),
    {
        if row >= self.unusable_rows_start {
            return Err(Error::NotEnoughRowsAvailable { current_k: self.params.k() });
        }
        if column.index() >= self.instances.len() {
            return Err(Error::BoundsFailure);
        }
        let values = self.instances[column.index()];
        if row >= values.len() {
            return Err(Error::BoundsFailure);
        }
        Ok(Value::known(values[row]))
    }

    fn assign_advice(&mut self, column: Column<Advice>, row: usize, to: Value<Assigned<F>>) -> (r:
        Value<Assigned<F>>)
        ensures
            ({
                let before = old(self).advice@[column.index as int]@;
                final(self).advice@[column.index as int]@ == before.update(row as int, to.inner->0)
            }),
            forall|i: int|
                0 <= i < old(self).advice@.len() && i != column.index
                    ==> #[trigger] final(self).advice@[i] == old(self).advice@[i],
            *final(self) == (WitnessCollection {
                advice: final(self).advice,
                history: final(self).history,
                ..*old(self)
            }),
    {
        if let Ok(value) = to.assign() {
            let poly = &mut self.advice[column.index()];
            *poly.index_mut(row) = value;
        }
        proof {
            let value = to.inner->0;
            self.history@ = self.history@.push(
                Action::Assign { column: column.index, row, value },
            );
            old(self).lemma_wf_of_advice(self, column.index, row, value);
        }
        to
    }

    fn assign_fixed(&mut self, column: Column<Fixed>, row: usize, to: Assigned<F>)
        ensures
            *final(self) == *old(self),
    {
        // We only care about advice columns here
    }

    fn copy(
        &mut self,
        left_column: Column<Any>,
        left_row: usize,
        right_column: Column<Any>,
        right_row: usize,
    )
        ensures
            *final(self) == *old(self),
    {
        // We only care about advice columns here
    }

    fn fill_from_row(
        &mut self,
        column: Column<Fixed>,
        row: usize,
        to: Value<Assigned<F>>,
    ) -> (r: Result<(), Error>)
        ensures
            *final(self) == *old(self),
            r is Ok,
    {
        Ok(())
    }

    fn get_challenge(&self, challenge: Challenge) -> (r: Value<F>)
        ensures
            r == (if self.challenges@.contains_key(challenge.index) {
                Value { inner: Some(self.challenges@[challenge.index]) }
            } else {
                Value { inner: None }
            }),
            r.inner is Some <==> is_listed(
                self.challenge_indices@,
                self.current_phase.0 as int,
                challenge.index,
            ),
    {
        broadcast use vstd::std_specs::hash::group_hash_axioms;

        match self.challenges.get(&challenge.index()) {
            Some(value) => Value::known(*value),
            None => Value::unknown(),
        }
    }

    fn push_namespace(&mut self, name: &str)
        ensures
            *final(self) == *old(self),
    {
        // Do nothing; we don't care about namespaces in this context.
    }

    fn pop_namespace(&mut self, gadget_name: Option<String>)
        ensures
            *final(self) == *old(self),
    {
        // Do nothing; we don't care about namespaces in this context.
    }

    /// Absorbs the instance columns if this is the first phase. Then evaluates
    /// the columns of the phase as they have been assigned, blinds them,
    /// commits to them, and squeezes the challenges of the phase. There is no
    /// phase after the third.
    #[verifier::rlimit(30)]
    fn next_phase(&mut self) -> (r: Result<(), Error>)
        ensures
            old(self).current_phase.0 >= MAX_PHASES ==> r == Err::<(), Error>(Error::Synthesis)
                && *final(self) == *old(self),
            old(self).current_phase.0 < MAX_PHASES ==> (r matches Err(e) ==> {
                &&& final(self).breaks_off_with(e)
                &&& final(self).has_failed()
                &&& final(self).advice == old(self).advice
            }),
            r is Ok ==> {
                &&& final(self).current_phase.0 == old(self).current_phase.0 + 1
                &&& final(self).advice == old(self).advice
                &&& old(self).phase_evaluated(final(self))
            },
    {
        let phase = self.current_phase.to_u8() as usize;
        if phase >= 3 {
            return Err(Error::Synthesis);
        }
        let ghost before = self.channel.trace();
        let ghost mut instance_points = self.record@.instance_points;
        let ghost columns_of_instances = steps::slices_of(self.instances@);
        if phase == 0 {
            match absorb_instances::<F, C, S, T, R>(
                self.params,
                P::QUERY_INSTANCE,
                self.instances,
                &self.instance_single.instance_values,
                &mut self.channel,
            ) {
                Ok(points) => {
                    proof {
                        instance_points = points@;
                    }
                },
                Err(e) => {
                    proof {
                        let points = choose|points: Seq<C::AffineRepr>|
                            {
                                &&& #[trigger] commit::absorbs::<F, C, S>(
                                    self.params,
                                    P::QUERY_INSTANCE,
                                    channel::values_of(self.instance_single.instance_values@),
                                    points,
                                )
                                &&& channel::stops_in(
                                    before,
                                    steps::absorb_steps(
                                        P::QUERY_INSTANCE,
                                        columns_of_instances,
                                        points,
                                    ),
                                    self.channel.trace(),
                                )
                            };
                        assert(before =~= self.base@.trace());
                        assert(self.breaks_off_with(e));
                        let record = PhaseRecord {
                            values: Seq::empty(),
                            blinds: Seq::empty(),
                            points: Seq::empty(),
                            challenges: Seq::empty(),
                        };
                        let stopped = CircuitRecord {
                            instance_points: points,
                            phases: seq![record],
                        };
                        let start = self.unusable_rows_start as int;
                        let absorb = steps::absorb_steps(
                            P::QUERY_INSTANCE,
                            columns_of_instances,
                            points,
                        );
                        assert(stopped.phases.drop_last() =~= self.record@.phases);
                        channel::lemma_stops_earlier(
                            before,
                            absorb,
                            steps::phases_steps(stopped.phases, start),
                            self.channel.trace(),
                        );
                        old(self).lemma_still_recorded(self);
                        assert(self.stops_with(stopped));
                    }
                    return Err(e);
                },
            }
        }
        let ghost absorbed = self.channel.trace();
        let columns = self.evaluate_columns(phase);
        let ghost assigned = channel::values_of(columns@);
        let committed = commit_columns::<F, C, S, T, R>(
            self.params,
            columns,
            self.unusable_rows_start,
            &mut self.channel,
        );
        proof {
            let absorb = steps::absorb_steps(
                P::QUERY_INSTANCE,
                columns_of_instances,
                instance_points,
            );
            let done = steps::phases_steps(
                self.record@.phases,
                self.unusable_rows_start as int,
            );
            assert(absorbed =~= self.base@.trace() + absorb + done);
            if let Err(e) = committed {
                let record = choose|record: PhaseRecord<F, C::AffineRepr>|
                    {
                        &&& #[trigger] commit::commits_columns::<F, C, S>(
                            self.params,
                            assigned,
                            self.unusable_rows_start as int,
                            record,
                        )
                        &&& channel::stops_in(
                            absorbed,
                            steps::phase_steps(record, self.unusable_rows_start as int),
                            self.channel.trace(),
                        )
                    };
                let stopped = CircuitRecord {
                    instance_points,
                    phases: self.record@.phases.push(record),
                };
                let start = self.unusable_rows_start as int;
                let indices = self.column_indices@[phase as int]@;
                assert(stopped.phases.drop_last() =~= self.record@.phases);
                assert(self.base@.trace() + (absorb + done) =~= absorbed);
                channel::lemma_stops_later(
                    self.base@.trace(),
                    absorb + done,
                    steps::phase_steps(record, start),
                    self.channel.trace(),
                );
                assert(absorb + done + steps::phase_steps(record, start)
                    =~= steps::circuit_steps(
                    stopped,
                    P::QUERY_INSTANCE,
                    columns_of_instances,
                    start,
                ));
                assert forall|j: int| 0 <= j < record.values.len() implies (
                #[trigger] record.values[j]).len() == self.params.spec_n() by {
                    assert(record.values[j].len() == assigned[j].len());
                    assert(self.column_indices@[phase as int]@[j] < self.advice@.len());
                }
                assert forall|j: int, row: int|
                    0 <= j < record.values.len() && 0 <= row < start implies
                    self.advice@[indices[j] as int]@[row].evaluates_to(
                    (#[trigger] record.values[j][row]).value(),
                ) by {
                    assert(record.values[j].take(start) == assigned[j].take(start));
                    assert(record.values[j].take(start)[row] == assigned[j].take(start)[row]);
                    assert(self.column_indices@[phase as int]@[j] < self.advice@.len());
                }
                if record.values.len() == 0 {
                    assert(steps::phase_steps(record, start) =~= Seq::empty());
                }
                old(self).lemma_still_recorded(self);
                assert(self.stops_with(stopped));
                assert(self.breaks_off_with(e));
            }
        }
        let (values, blinds, record) = committed?;
        store_columns(&self.column_indices[phase], values, &blinds, &mut self.advice_single);
        let challenges = squeeze_challenges(
            &self.challenge_indices[phase],
            &mut self.challenges,
            &mut self.channel,
        );
        self.current_phase = self.current_phase.next();
        proof {
            let full = PhaseRecord { challenges: challenges@, ..record@ };
            self.record@ = CircuitRecord {
                instance_points,
                phases: self.record@.phases.push(full),
            };
            let action = Action::NextPhase { known: self.challenges@ };
            self.history@ = self.history@.push(action);
            history::lemma_cells_at(
                self.advice@.len(),
                self.params.spec_n() as nat,
                old(self).history@,
                action,
            );
            assert(self.cells_at(phase as int) == channel::values_of(self.advice@));
            let indices = self.column_indices@[phase as int]@;
            let polys = self.advice_single.advice_polys@;
            let start = self.unusable_rows_start as int;
            assert forall|j: int, row: int| 0 <= j < indices.len() && 0 <= row < start implies
                self.advice@[indices[j] as int]@[row].evaluates_to(
                (#[trigger] polys[indices[j] as int]@[row]).value(),
            ) by {
                assert(polys[indices[j] as int]@ == full.values[j]);
                assert(full.values[j].take(start) == assigned[j].take(start));
                assert(full.values[j].take(start)[row] == assigned[j].take(start)[row]);
                assert(self.column_indices@[phase as int]@[j] < self.advice@.len());
            }
            assert(steps::phase_steps(full, start) =~= steps::phase_steps(record@, start)
                + steps::squeeze_steps(challenges@));
            assert(absorbed + (steps::phase_steps(record@, start) + steps::squeeze_steps(
                challenges@,
            )) =~= self.channel.trace());
            assert(before + Seq::empty() =~= before);
            old(self).lemma_wf_of_phase(self, full, instance_points);
        }
        Ok(())
    }
}

} // verus!
