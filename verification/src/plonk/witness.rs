//! Generation of the witness of circuits, and the commitments to it.

use super::account_synthesis;
use super::channel;
use super::channel::{Channel, Step};
use super::circuit;
use super::circuit::{Assignment, Circuit, Column, Fixed, Phase, MAX_PHASES};
use super::collection;
use super::collection::WitnessCollection;
use super::commit;
use super::history;
use super::history::Action;
use super::steps;
use super::steps::{CircuitRecord, PhaseRecord};
use super::{Assigned, ConstraintSystem, Error, ProvingKey};
use crate::curve::Curve;
use crate::field;
use crate::field::Field;
use crate::poly::commitment::{Blind, Params, Prover};
use crate::poly::domain;
use crate::poly::ops::copy_values;
use crate::poly::{Basis, Coeff, EvaluationDomain, LagrangeCoeff, Polynomial};
use crate::rng::RandomSource;
use crate::transcript::TranscriptWrite;
use std::collections::HashMap;
use std::marker::PhantomData;
use vstd::prelude::*;

verus! {

broadcast use channel::group_channel;

/// Per-circuit instance state produced by phase-1 synthesis.
///
/// `instance_polys` is the coefficient-basis form of `instance_values`.
pub struct InstanceSingle<F> {
    /// The values of each instance column.
    pub instance_values: Vec<Polynomial<F, LagrangeCoeff>>,
    /// The coefficients of each instance column.
    pub instance_polys: Vec<Polynomial<F, Coeff>>,
}

/// Per-circuit advice state produced by [`synthesize_witness`].
///
/// `advice_values` is the Lagrange-basis witness; `advice_polys` is the same
/// data in coefficient basis. Blinds are drawn but not retained here — they
/// are only needed on the internal proving path.
pub struct AdviceSingle<F> {
    /// The values of each advice column.
    pub advice_values: Vec<Polynomial<F, LagrangeCoeff>>,
    /// The coefficients of each advice column.
    pub advice_polys: Vec<Polynomial<F, Coeff>>,
}

/// The shape of advice columns accepted by [`super::create_proof_from_advice`]:
/// one `Vec<F>` per physical advice column, each of length `params.n()`.
pub type AdviceColumns<F> = Vec<Vec<F>>;

/// Committed advice columns of a circuit.
pub struct AdviceCommitted<F, B: Basis> {
    /// The columns.
    pub advice_polys: Vec<Polynomial<F, B>>,
    /// The blinds of the commitments to them.
    pub advice_blinds: Vec<Blind<F>>,
}

/// `padded` is `values`, followed by zeroes up to a length of `n`.
pub open spec fn is_padded<F: Field>(padded: Seq<F>, values: Seq<F>, n: int) -> bool {
    &&& padded.len() == n
    &&& values.len() <= n
    &&& forall|i: int| 0 <= i < values.len() ==> #[trigger] padded[i] == values[i]
    &&& forall|i: int| values.len() <= i < n ==> (#[trigger] padded[i]).value() == 0
}

/// The polynomials in the coefficient basis take the values of those in the
/// Lagrange basis on the domain.
pub open spec fn all_interpolate<F: Field>(
    domain: &EvaluationDomain<F>,
    polys: Seq<Polynomial<F, Coeff>>,
    values: Seq<Polynomial<F, LagrangeCoeff>>,
) -> bool {
    &&& polys.len() == values.len()
    &&& forall|i: int|
        0 <= i < polys.len() ==> domain::interpolates(
            field::values_of((#[trigger] polys[i])@),
            field::values_of(values[i]@),
            domain.omega.value(),
            F::modulus(),
        )
}

/// The instance columns of `single` are `instance`, padded with zeroes to the
/// size of the domain, in both bases.
pub open spec fn is_instance_single<F: Field>(
    domain: &EvaluationDomain<F>,
    instance: Seq<Seq<F>>,
    single: InstanceSingle<F>,
) -> bool {
    &&& single.instance_values@.len() == instance.len()
    &&& forall|i: int|
        0 <= i < instance.len() ==> is_padded(
            (#[trigger] single.instance_values@[i])@,
            instance[i],
            domain.n as int,
        )
    &&& all_interpolate(domain, single.instance_polys@, single.instance_values@)
}

/// No instance column reaches into the rows that blind the columns.
pub open spec fn instance_fits<F>(instance: Seq<Seq<F>>, unusable_rows_start: int) -> bool {
    forall|i: int| 0 <= i < instance.len() ==> (#[trigger] instance[i]).len() <= unusable_rows_start
}

/// The coefficients of each of the polynomials.
pub fn all_to_coeff<F: Field>(
    domain: &EvaluationDomain<F>,
    values: &Vec<Polynomial<F, LagrangeCoeff>>,
) -> (r: Vec<Polynomial<F, Coeff>>)
    requires
        domain.wf(),
        forall|i: int| 0 <= i < values@.len() ==> (#[trigger] values@[i])@.len() == domain.n,
    ensures
        all_interpolate(domain, r@, values@),
{
    let mut r: Vec<Polynomial<F, Coeff>> = Vec::new();
    let mut i: usize = 0;
    while i < values.len()
        invariant
            domain.wf(),
            forall|i: int| 0 <= i < values@.len() ==> (#[trigger] values@[i])@.len() == domain.n,
            i <= values@.len(),
            all_interpolate(domain, r@, values@.take(i as int)),
        decreases values@.len() - i,
    {
        let lagrange_vec = domain.lagrange_from_vec(copy_values(values[i].values()));
        r.push(domain.lagrange_to_coeff(lagrange_vec));
        i += 1;
    }
    assert(values@.take(i as int) =~= values@);
    r
}

/// Materialize one [`InstanceSingle`] from a slice of instance-column value
/// vectors, zero-padding to `n = params.n()`.
pub fn build_instance_single<F: Field, C: Curve, S: Params<F, C>>(
    params: &S,
    domain: &EvaluationDomain<F>,
    meta: &ConstraintSystem,
    instance: &[&[F]],
) -> (r: InstanceSingle<F>)
    requires
        domain.wf(),
        domain.n == params.spec_n(),
        instance_fits(steps::slices_of(instance@), domain.n - (meta.blinding_factors + 1)),
    ensures
        is_instance_single(domain, steps::slices_of(instance@), r),
{
    let mut instance_values: Vec<Polynomial<F, LagrangeCoeff>> = Vec::new();
    let mut i: usize = 0;
    while i < instance.len()
        invariant
            domain.wf(),
            instance_fits(steps::slices_of(instance@), domain.n - (meta.blinding_factors + 1)),
            i <= instance@.len(),
            instance_values@.len() == i,
            forall|k: int|
                0 <= k < i ==> is_padded(
                    (#[trigger] instance_values@[k])@,
                    steps::slices_of(instance@)[k],
                    domain.n as int,
                ),
        decreases instance@.len() - i,
    {
        let values = instance[i];
        assert(values@ == steps::slices_of(instance@)[i as int]);
        let mut poly = domain.empty_lagrange();
        let mut j: usize = 0;
        while j < values.len()
            invariant
                j <= values@.len() <= domain.n,
                poly@.len() == domain.n,
                forall|k: int| 0 <= k < j ==> #[trigger] poly@[k] == values@[k],
                forall|k: int| j <= k < domain.n ==> (#[trigger] poly@[k]).value() == 0,
            decreases values@.len() - j,
        {
            *poly.index_mut(j) = values[j];
            j += 1;
        }
        instance_values.push(poly);
        i += 1;
    }
    let instance_polys = all_to_coeff(domain, &instance_values);
    InstanceSingle { instance_values, instance_polys }
}

/// Bucket advice columns and challenges by their phase index (0/1/2).
pub fn column_and_challenge_indices(meta: &ConstraintSystem) -> (r: (
    [Vec<usize>; 3],
    [Vec<usize>; 3],
))
    requires
        forall|i: int|
            0 <= i < meta.advice_column_phase@.len() ==> (#[trigger] meta.advice_column_phase@[i]).0
                < MAX_PHASES,
        forall|i: int|
            0 <= i < meta.challenge_phase@.len() ==> (#[trigger] meta.challenge_phase@[i]).0
                < MAX_PHASES,
    ensures
        forall|p: int|
            0 <= p < 3 ==> (#[trigger] r.0@[p])@ == steps::indices_of_phase(
                meta.advice_column_phase@,
                p,
            ),
        forall|p: int|
            0 <= p < 3 ==> (#[trigger] r.1@[p])@ == steps::indices_of_phase(
                meta.challenge_phase@,
                p,
            ),
{
    (bucket(&meta.advice_column_phase), bucket(&meta.challenge_phase))
}

fn bucket(phases: &Vec<Phase>) -> (r: [Vec<usize>; 3])
    requires
        forall|i: int| 0 <= i < phases@.len() ==> (#[trigger] phases@[i]).0 < 3,
    ensures
        forall|p: int|
            0 <= p < 3 ==> (#[trigger] r@[p])@ == steps::indices_of_phase(phases@, p),
{
    let mut r: [Vec<usize>; 3] = [Vec::new(), Vec::new(), Vec::new()];
    let mut i: usize = 0;
    while i < phases.len()
        invariant
            forall|i: int| 0 <= i < phases@.len() ==> (#[trigger] phases@[i]).0 < 3,
            i <= phases@.len(),
            forall|p: int|
                0 <= p < 3 ==> (#[trigger] r@[p])@ == steps::indices_of_phase(
                    phases@.take(i as int),
                    p,
                ),
        decreases phases@.len() - i,
    {
        assert(phases@.take(i + 1).drop_last() =~= phases@.take(i as int));
        let phase = phases[i].to_u8() as usize;
        r[phase].push(i);
        i += 1;
    }
    assert(phases@.take(i as int) =~= phases@);
    r
}

/// A phase was committed to with the columns and challenges of the circuit
/// that belong to it.
pub open spec fn phase_matches<F: Field, P>(
    cs: &ConstraintSystem,
    phase: int,
    advice: AdviceCommitted<F, LagrangeCoeff>,
    challenges: Seq<F>,
    record: PhaseRecord<F, P>,
) -> bool {
    let columns = steps::indices_of_phase(cs.advice_column_phase@, phase);
    let indices = steps::indices_of_phase(cs.challenge_phase@, phase);
    &&& record.values.len() == columns.len()
    &&& record.blinds.len() == columns.len()
    &&& record.challenges.len() == indices.len()
    &&& forall|j: int|
        #![trigger columns[j]]
        0 <= j < columns.len() ==> {
            &&& advice.advice_polys@[columns[j] as int]@ == record.values[j]
            &&& advice.advice_blinds@[columns[j] as int].0 == record.blinds[j]
        }
    &&& forall|j: int|
        #![trigger indices[j]]
        0 <= j < indices.len() ==> challenges[indices[j] as int] == record.challenges[j]
}

/// `advice` and `challenges` are what `record` says was committed to and
/// squeezed for a circuit, phase by phase.
pub open spec fn circuit_recorded<F: Field, C: Curve, S: Params<F, C>>(
    params: &S,
    cs: &ConstraintSystem,
    query_instance: bool,
    instance: InstanceSingle<F>,
    advice: AdviceCommitted<F, LagrangeCoeff>,
    challenges: Seq<F>,
    record: CircuitRecord<F, C::AffineRepr>,
) -> bool {
    &&& query_instance ==> steps::instances_committed::<F, C, S>(
        params,
        channel::values_of(instance.instance_values@),
        record.instance_points,
    )
    &&& record.phases.len() == cs.spec_num_phases()
    &&& forall|p: int|
        #![trigger record.phases[p]]
        0 <= p < record.phases.len() ==> {
            &&& steps::phase_committed::<F, C, S>(params, record.phases[p])
            &&& phase_matches(cs, p, advice, challenges, record.phases[p])
        }
    &&& advice_fits(cs, params.spec_n(), advice)
    &&& challenges.len() == cs.num_challenges
}

/// There is a column and a blind for every advice column.
pub open spec fn same_shape<F, B: Basis>(
    cs: &ConstraintSystem,
    advice: AdviceCommitted<F, B>,
) -> bool {
    &&& advice.advice_polys@.len() == cs.num_advice_columns
    &&& advice.advice_blinds@.len() == cs.num_advice_columns
}

/// There is a column of `n` rows and a blind for every advice column.
pub open spec fn advice_fits<F, B: Basis>(
    cs: &ConstraintSystem,
    n: usize,
    advice: AdviceCommitted<F, B>,
) -> bool {
    &&& same_shape(cs, advice)
    &&& forall|i: int|
        0 <= i < advice.advice_polys@.len() ==> (#[trigger] advice.advice_polys@[i])@.len() == n
}

/// The lists of the indices of each phase hold every index once.
proof fn lemma_indices_partition(phases: Seq<Phase>, indices: Seq<Vec<usize>>)
    requires
        phases.len() <= usize::MAX,
        forall|p: int|
            0 <= p < indices.len() ==> (#[trigger] indices[p])@ == steps::indices_of_phase(
                phases,
                p,
            ),
    ensures
        collection::is_partition(indices, phases.len() as int),
{
    assert forall|p: int, j: int|
        0 <= p < indices.len() && 0 <= j < indices[p]@.len() implies #[trigger] indices[p]@[j]
        < phases.len() && phases[indices[p]@[j] as int].0 == p by {
        steps::lemma_indices_of_phase(phases, p);
        assert(steps::indices_of_phase(phases, p)[j] == indices[p]@[j]);
    }
    assert forall|p: int, j: int, q: int, k: int|
        0 <= p < indices.len() && 0 <= j < indices[p]@.len() && 0 <= q < indices.len() && 0 <= k
            < indices[q]@.len() && #[trigger] indices[p]@[j] == #[trigger] indices[q]@[k] implies p
        == q && j == k by {
        assert(phases[indices[p]@[j] as int].0 == p);
        assert(phases[indices[q]@[k] as int].0 == q);
        steps::lemma_indices_of_phase(phases, p);
        let list = steps::indices_of_phase(phases, p);
        if j < k {
            assert(list[j] < list[k]);
        } else if k < j {
            assert(list[k] < list[j]);
        }
    }
}

/// An index is listed under one of the first phases exactly if it stands at one
/// of them.
proof fn lemma_listed(phases: Seq<Phase>, indices: Seq<Vec<usize>>, bound: int, index: usize)
    requires
        phases.len() <= usize::MAX,
        0 <= bound <= indices.len(),
        forall|p: int|
            0 <= p < indices.len() ==> (#[trigger] indices[p])@ == steps::indices_of_phase(
                phases,
                p,
            ),
    ensures
        collection::is_listed(indices, bound, index) <==> index < phases.len()
            && phases[index as int].0 < bound,
{
    if collection::is_listed(indices, bound, index) {
        let (p, j) = choose|p: int, j: int|
            0 <= p < bound && 0 <= j < indices[p]@.len() && #[trigger] indices[p]@[j] == index;
        steps::lemma_indices_of_phase(phases, p);
        assert(steps::indices_of_phase(phases, p)[j] == index);
    }
    if index < phases.len() && phases[index as int].0 < bound {
        let p = phases[index as int].0 as int;
        steps::lemma_indices_of_phase(phases, p);
        let list = steps::indices_of_phase(phases, p);
        assert(list.contains(index));
        let j = choose|j: int| 0 <= j < list.len() && list[j] == index;
        assert(indices[p]@[j] == index);
    }
}

/// No index is listed under a phase that none stands at.
proof fn lemma_no_indices(phases: Seq<Phase>, phase: int, bound: int)
    requires
        phases.len() <= usize::MAX,
        bound <= phase,
        forall|i: int| 0 <= i < phases.len() ==> (#[trigger] phases[i]).0 < bound,
    ensures
        steps::indices_of_phase(phases, phase).len() == 0,
{
    steps::lemma_indices_of_phase(phases, phase);
    let list = steps::indices_of_phase(phases, phase);
    if list.len() > 0 {
        assert(phases[list[0] as int].0 == phase);
    }
}

/// The challenges of a map that holds the first `count` of them, in order.
pub(crate) fn collect_challenges<F: Field>(challenges: HashMap<usize, F>, count: usize) -> (r: Vec<F>)
    requires
        forall|k: usize| k < count ==> #[trigger] challenges@.contains_key(k),
    ensures
        r@.len() == count,
        forall|k: usize| k < count ==> #[trigger] r@[k as int] == challenges@[k],
{
    broadcast use vstd::std_specs::hash::group_hash_axioms;

    let ghost given = challenges@;
    let mut challenges = challenges;
    let mut r: Vec<F> = Vec::new();
    let mut index: usize = 0;
    while index < count
        invariant
            index <= count,
            r@.len() == index,
            forall|k: usize| k < count ==> #[trigger] given.contains_key(k),
            forall|k: usize|
                index <= k < count ==> #[trigger] challenges@.contains_key(k) && challenges@[k]
                    == given[k],
            forall|k: usize| k < index ==> #[trigger] r@[k as int] == given[k],
        decreases count - index,
    {
        assert(challenges@.contains_key(index));
        if let Some(challenge) = challenges.remove(&index) {
            r.push(challenge);
        }
        index += 1;
    }
    r
}

/// The circuit can be synthesized from every phase, unless a step fails.
pub open spec fn is_total<F: Field, ConcreteCircuit: Circuit<F>>(
    circuit: &ConcreteCircuit,
    phases: int,
) -> bool {
    forall|p: nat| p < phases ==> #[trigger] circuit.is_total(p)
}

/// The circuits can be synthesized from every phase, unless a step fails.
pub open spec fn are_total<F: Field, ConcreteCircuit: Circuit<F>>(
    circuits: Seq<ConcreteCircuit>,
    phases: int,
) -> bool {
    forall|i: int| 0 <= i < circuits.len() ==> is_total(#[trigger] &circuits[i], phases)
}

/// The phase is ended unless there is none left.
pub open spec fn advances<F>(
    phases: int,
    before: Seq<Action<F>>,
    after: Seq<Action<F>>,
) -> bool {
    if history::phases_in(before) < phases {
        after == before.push(Action::NextPhase { known: history::known(after) })
    } else {
        after == before
    }
}

/// One round of synthesis, after which the phase is ended unless there is none
/// left.
pub open spec fn is_round<F: Field, ConcreteCircuit: Circuit<F>>(
    circuit: &ConcreteCircuit,
    config: &ConcreteCircuit::Config,
    constants: Seq<Column<Fixed>>,
    instances: Seq<Seq<F>>,
    phases: int,
    before: Seq<Action<F>>,
    after: Seq<Action<F>>,
) -> bool {
    exists|synthesized: Seq<Action<F>>|
        {
            &&& before.is_prefix_of(synthesized)
            &&& #[trigger] circuit.synthesizes(config, constants, instances, before, synthesized)
            &&& advances(phases, synthesized, after)
        }
}

/// The circuit was synthesized, from nothing, in rounds that each began while
/// there were phases left.
pub open spec fn is_driving<F: Field, ConcreteCircuit: Circuit<F>>(
    circuit: &ConcreteCircuit,
    config: &ConcreteCircuit::Config,
    constants: Seq<Column<Fixed>>,
    instances: Seq<Seq<F>>,
    phases: int,
    rounds: Seq<Seq<Action<F>>>,
) -> bool {
    &&& rounds.len() > 0
    &&& rounds[0] == Seq::<Action<F>>::empty()
    &&& forall|k: int|
        0 <= k < rounds.len() - 1 ==> history::phases_in(#[trigger] rounds[k]) < phases && is_round(
            circuit,
            config,
            constants,
            instances,
            phases,
            rounds[k],
            rounds[k + 1],
        )
}

/// The circuit was synthesized, from nothing, in as many rounds as it takes to
/// end all phases.
pub open spec fn is_driven<F: Field, ConcreteCircuit: Circuit<F>>(
    circuit: &ConcreteCircuit,
    config: &ConcreteCircuit::Config,
    constants: Seq<Column<Fixed>>,
    instances: Seq<Seq<F>>,
    phases: int,
    rounds: Seq<Seq<Action<F>>>,
) -> bool {
    &&& is_driving(circuit, config, constants, instances, phases, rounds)
    &&& history::phases_in(rounds.last()) >= phases
}

/// A round is added.
proof fn lemma_driving<F: Field, ConcreteCircuit: Circuit<F>>(
    circuit: &ConcreteCircuit,
    config: &ConcreteCircuit::Config,
    constants: Seq<Column<Fixed>>,
    instances: Seq<Seq<F>>,
    phases: int,
    rounds: Seq<Seq<Action<F>>>,
    next: Seq<Action<F>>,
)
    requires
        is_driving(circuit, config, constants, instances, phases, rounds),
        history::phases_in(rounds.last()) < phases,
        is_round(circuit, config, constants, instances, phases, rounds.last(), next),
    ensures
        is_driving(circuit, config, constants, instances, phases, rounds.push(next)),
{
    let all = rounds.push(next);
    assert forall|k: int| 0 <= k < all.len() - 1 implies history::phases_in(#[trigger] all[k])
        < phases && is_round(
        circuit,
        config,
        constants,
        instances,
        phases,
        all[k],
        all[k + 1],
    ) by {
        assert(all[k] == rounds[k]);
        if k < rounds.len() - 1 {
            assert(all[k + 1] == rounds[k + 1]);
        } else {
            assert(all[k + 1] == next);
        }
    }
}

/// Every column holds what had been assigned to it when its phase was ended,
/// but for the rows that blind it.
pub open spec fn holds_cells<F: Field>(
    pk: &ProvingKey<F>,
    history: Seq<Action<F>>,
    advice: AdviceCommitted<F, LagrangeCoeff>,
) -> bool {
    forall|c: int, row: int|
        0 <= c < pk.vk.cs.num_advice_columns && 0 <= row < pk.unusable_rows_start()
            ==> history::cells_at(
            pk.vk.cs.num_advice_columns as nat,
            pk.vk.domain.n as nat,
            history,
            pk.vk.cs.advice_column_phase@[c].0 as nat,
        )[c][row].evaluates_to((#[trigger] advice.advice_polys@[c]@[row]).value())
}

/// The challenges of the phases up to `phase` are known, and no others.
pub open spec fn knows_up_to<F>(
    cs: &ConstraintSystem,
    challenges: Seq<F>,
    phase: int,
    known: Map<usize, F>,
) -> bool {
    forall|index: usize|
        {
            &&& #[trigger] known.contains_key(index) <==> index < challenges.len()
                && cs.challenge_phase@[index as int].0 <= phase
            &&& known.contains_key(index) ==> known[index] == challenges[index as int]
        }
}

/// Whenever a phase was ended, the challenges of the phases up to it became
/// known, and no others.
pub open spec fn knows_challenges<F>(
    cs: &ConstraintSystem,
    history: Seq<Action<F>>,
    challenges: Seq<F>,
) -> bool {
    forall|k: int|
        0 <= k < history.len() && (#[trigger] history[k]) is NextPhase ==> knows_up_to(
            cs,
            challenges,
            history::phases_in(history.take(k)) as int,
            history[k]->known,
        )
}

/// The columns are those that the circuit has assigned when it was synthesized
/// with the columns for constants, the given instance columns, and the given
/// challenges as they became known. It assigned no cell that is not there.
pub open spec fn is_synthesized<F: Field, ConcreteCircuit: Circuit<F>>(
    pk: &ProvingKey<F>,
    circuit: &ConcreteCircuit,
    instances: Seq<Seq<F>>,
    challenges: Seq<F>,
    advice: AdviceCommitted<F, LagrangeCoeff>,
) -> bool {
    exists|config: ConcreteCircuit::Config, rounds: Seq<Seq<Action<F>>>|
        {
            &&& ConcreteCircuit::is_config(&config)
            &&& #[trigger] is_driven(
                circuit,
                &config,
                pk.vk.cs.constants@,
                instances,
                pk.vk.cs.spec_num_phases(),
                rounds,
            )
            &&& history::all_in_range(
                pk.vk.cs.num_advice_columns as nat,
                pk.vk.domain.n as nat,
                rounds.last(),
            )
            &&& knows_challenges(&pk.vk.cs, rounds.last(), challenges)
            &&& holds_cells(pk, rounds.last(), advice)
        }
}

/// The columns of each circuit are those that it has assigned when it was
/// synthesized with its instance columns.
pub open spec fn all_synthesized<F: Field, ConcreteCircuit: Circuit<F>>(
    pk: &ProvingKey<F>,
    circuits: Seq<ConcreteCircuit>,
    instances: Seq<Seq<Seq<F>>>,
    challenges: Seq<F>,
    advice: Seq<AdviceCommitted<F, LagrangeCoeff>>,
) -> bool {
    forall|i: int|
        0 <= i < advice.len() ==> is_synthesized(
            pk,
            &circuits[i],
            instances[i],
            challenges,
            #[trigger] advice[i],
        )
}

/// A phase was committed to with its columns, and its challenges were squeezed.
pub open spec fn phase_shaped<F: Field, C: Curve, S: Params<F, C>>(
    params: &S,
    cs: &ConstraintSystem,
    phase: int,
    record: PhaseRecord<F, C::AffineRepr>,
) -> bool {
    &&& steps::phase_committed::<F, C, S>(params, record)
    &&& record.values.len() == steps::indices_of_phase(cs.advice_column_phase@, phase).len()
    &&& record.challenges.len() == steps::indices_of_phase(cs.challenge_phase@, phase).len()
}

/// The first phases of a circuit were gone through.
pub open spec fn circuit_shaped<F: Field, C: Curve, S: Params<F, C>>(
    params: &S,
    cs: &ConstraintSystem,
    query_instance: bool,
    single: InstanceSingle<F>,
    record: CircuitRecord<F, C::AffineRepr>,
) -> bool {
    &&& record.phases.len() <= MAX_PHASES
    &&& forall|p: int|
        0 <= p < record.phases.len() ==> phase_shaped::<F, C, S>(
            params,
            cs,
            p,
            #[trigger] record.phases[p],
        )
    &&& record.phases.len() > 0 ==> commit::absorbs::<F, C, S>(
        params,
        query_instance,
        channel::values_of(single.instance_values@),
        record.instance_points,
    )
}

/// The circuit was synthesized in `rounds`, and once more after them, which took
/// it to `history`: it ended a phase then, or the phase was to be ended after it.
pub open spec fn is_driven_to<F: Field, ConcreteCircuit: Circuit<F>>(
    circuit: &ConcreteCircuit,
    config: &ConcreteCircuit::Config,
    constants: Seq<Column<Fixed>>,
    instances: Seq<Seq<F>>,
    phases: int,
    rounds: Seq<Seq<Action<F>>>,
    history: Seq<Action<F>>,
) -> bool {
    &&& is_driving(circuit, config, constants, instances, phases, rounds)
    &&& history::phases_in(rounds.last()) < phases
    &&& rounds.last().is_prefix_of(history)
    &&& {
        ||| circuit.synthesizes(config, constants, instances, rounds.last(), history)
        ||| circuit.fails(config, constants, instances, rounds.last(), history)
    }
}

/// The circuit was synthesized in `rounds`, and refused in the round after them,
/// which took it to `history`.
pub open spec fn is_refused_at<F: Field, ConcreteCircuit: Circuit<F>>(
    circuit: &ConcreteCircuit,
    config: &ConcreteCircuit::Config,
    constants: Seq<Column<Fixed>>,
    instances: Seq<Seq<F>>,
    phases: int,
    rounds: Seq<Seq<Action<F>>>,
    history: Seq<Action<F>>,
) -> bool {
    &&& is_driving(circuit, config, constants, instances, phases, rounds)
    &&& history::phases_in(rounds.last()) < phases
    &&& rounds.last().is_prefix_of(history)
    &&& circuit.refuses(config, constants, instances, rounds.last(), history)
}

/// The circuit was synthesized in `rounds` until all phases were over, or was
/// stopped in the round after them, which took it to `history`.
pub open spec fn has_run<F: Field, ConcreteCircuit: Circuit<F>>(
    circuit: &ConcreteCircuit,
    config: &ConcreteCircuit::Config,
    constants: Seq<Column<Fixed>>,
    instances: Seq<Seq<F>>,
    phases: int,
    rounds: Seq<Seq<Action<F>>>,
    history: Seq<Action<F>>,
) -> bool {
    ||| {
        &&& is_driven(circuit, config, constants, instances, phases, rounds)
        &&& history == rounds.last()
    }
    ||| is_driven_to(circuit, config, constants, instances, phases, rounds, history)
}

/// The challenges of the phases up to `phase` are known as they were recorded,
/// and no others.
pub open spec fn knows_recorded<F, P>(
    cs: &ConstraintSystem,
    phases: Seq<PhaseRecord<F, P>>,
    phase: int,
    known: Map<usize, F>,
) -> bool {
    &&& forall|index: usize| #[trigger]
        known.contains_key(index) <==> index < cs.num_challenges
            && cs.challenge_phase@[index as int].0 <= phase
    &&& forall|p: int, j: int|
        0 <= p < phases.len() && p <= phase && 0 <= j < phases[p].challenges.len()
            ==> known[steps::indices_of_phase(cs.challenge_phase@, p)[j]]
            == #[trigger] phases[p].challenges[j]
}

/// The recorded phases are those that were ended, or the first ones of them, and
/// perhaps the one that was to be ended next. Every column of theirs holds what had
/// been assigned to it by then, but for the rows that blind it. Whenever a phase was
/// ended, the challenges of the phases up to it became known, and no others.
pub open spec fn records_hold<F: Field, P>(
    pk: &ProvingKey<F>,
    history: Seq<Action<F>>,
    phases: Seq<PhaseRecord<F, P>>,
) -> bool {
    let columns = pk.vk.cs.num_advice_columns as nat;
    let rows = pk.vk.domain.n as nat;
    &&& phases.len() <= history::phases_in(history) + 1
    &&& forall|p: int|
        0 <= p < phases.len() ==> (#[trigger] phases[p]).values.len() <= steps::indices_of_phase(
            pk.vk.cs.advice_column_phase@,
            p,
        ).len()
    &&& forall|p: int|
        0 <= p < phases.len() && p < history::phases_in(history) ==> (
        #[trigger] phases[p]).challenges.len() == steps::indices_of_phase(
            pk.vk.cs.challenge_phase@,
            p,
        ).len()
    &&& forall|k: int|
        0 <= k < history.len() && (#[trigger] history[k]) is NextPhase ==> knows_recorded(
            &pk.vk.cs,
            phases,
            history::phases_in(history.take(k)) as int,
            history[k]->known,
        )
    &&& forall|p: int, j: int, row: int|
        0 <= p < phases.len() && 0 <= j < phases[p].values.len() && 0 <= row
            < pk.unusable_rows_start() ==> history::cells_until(
            columns,
            rows,
            history,
            p as nat,
        )[steps::indices_of_phase(pk.vk.cs.advice_column_phase@, p)[j] as int][row].evaluates_to(
            (#[trigger] phases[p].values[j][row]).value(),
        )
}

/// The recorded phases are those of the circuit, as far as it got, when it was
/// synthesized with the given instance columns.
pub open spec fn is_assigned<F: Field, P, ConcreteCircuit: Circuit<F>>(
    pk: &ProvingKey<F>,
    circuit: &ConcreteCircuit,
    instances: Seq<Seq<F>>,
    phases: Seq<PhaseRecord<F, P>>,
) -> bool {
    exists|
        config: ConcreteCircuit::Config,
        rounds: Seq<Seq<Action<F>>>,
        history: Seq<Action<F>>,
    |
        {
            &&& ConcreteCircuit::is_config(&config)
            &&& #[trigger] has_run(
                circuit,
                &config,
                pk.vk.cs.constants@,
                instances,
                pk.vk.cs.spec_num_phases(),
                rounds,
                history,
            )
            &&& records_hold(pk, history, phases)
        }
}

/// The first phases of a circuit were gone through, and the next one was begun:
/// its columns were to be committed to, or, if there are none, it did not get that
/// far.
pub open spec fn circuit_begun<F: Field, C: Curve, S: Params<F, C>>(
    params: &S,
    cs: &ConstraintSystem,
    query_instance: bool,
    single: InstanceSingle<F>,
    record: CircuitRecord<F, C::AffineRepr>,
) -> bool {
    let last = record.phases.len() - 1;
    &&& 0 <= last < cs.spec_num_phases()
    &&& commit::absorbs::<F, C, S>(
        params,
        query_instance,
        channel::values_of(single.instance_values@),
        record.instance_points,
    )
    &&& forall|p: int|
        0 <= p < last ==> phase_shaped::<F, C, S>(params, cs, p, #[trigger] record.phases[p])
    &&& steps::phase_committed::<F, C, S>(params, record.phases[last])
    &&& record.phases[last].challenges.len() == 0
    &&& record.phases[last].values.len() == steps::indices_of_phase(
        cs.advice_column_phase@,
        last,
    ).len() || (record.phases[last].values.len() == 0 && last == 0)
    &&& forall|p: int, j: int|
        0 <= p <= last && 0 <= j < record.phases[p].values.len() ==> (
        #[trigger] record.phases[p].values[j]).len() == params.spec_n()
}

/// The steps that took a channel from `before` to `after` are the first ones for a
/// circuit, and the next one failed.
pub open spec fn stops_in_circuit<
    F: Field,
    C: Curve,
    S: Params<F, C>,
    ConcreteCircuit: Circuit<F>,
>(
    params: &S,
    pk: &ProvingKey<F>,
    query_instance: bool,
    circuit: &ConcreteCircuit,
    instances: Seq<Seq<F>>,
    single: InstanceSingle<F>,
    before: Seq<Step<F, C::AffineRepr>>,
    after: Seq<Step<F, C::AffineRepr>>,
) -> bool {
    exists|record: CircuitRecord<F, C::AffineRepr>|
        {
            &&& #[trigger] circuit_begun::<F, C, S>(
                params,
                &pk.vk.cs,
                query_instance,
                single,
                record,
            )
            &&& is_assigned(pk, circuit, instances, record.phases)
            &&& channel::stops_in(
                before,
                steps::circuit_steps(
                    record,
                    query_instance,
                    instances,
                    pk.unusable_rows_start(),
                ),
                after,
            )
        }
}

/// The circuit refused when these phases were over.
pub open spec fn is_refused<F: Field, P, ConcreteCircuit: Circuit<F>>(
    pk: &ProvingKey<F>,
    circuit: &ConcreteCircuit,
    instances: Seq<Seq<F>>,
    phases: Seq<PhaseRecord<F, P>>,
) -> bool {
    exists|
        config: ConcreteCircuit::Config,
        rounds: Seq<Seq<Action<F>>>,
        history: Seq<Action<F>>,
    |
        {
            &&& ConcreteCircuit::is_config(&config)
            &&& #[trigger] is_refused_at(
                circuit,
                &config,
                pk.vk.cs.constants@,
                instances,
                pk.vk.cs.spec_num_phases(),
                rounds,
                history,
            )
            &&& phases.len() == history::phases_in(history)
            &&& records_hold(pk, history, phases)
        }
}

/// The steps that took a channel from `before` to `after` are those of the first
/// phases of a circuit, after which it refused.
pub open spec fn goes_part_way<
    F: Field,
    C: Curve,
    S: Params<F, C>,
    ConcreteCircuit: Circuit<F>,
>(
    params: &S,
    pk: &ProvingKey<F>,
    query_instance: bool,
    circuit: &ConcreteCircuit,
    instances: Seq<Seq<F>>,
    single: InstanceSingle<F>,
    before: Seq<Step<F, C::AffineRepr>>,
    after: Seq<Step<F, C::AffineRepr>>,
) -> bool {
    exists|done: CircuitRecord<F, C::AffineRepr>|
        {
            &&& #[trigger] circuit_shaped::<F, C, S>(
                params,
                &pk.vk.cs,
                query_instance,
                single,
                done,
            )
            &&& is_refused(pk, circuit, instances, done.phases)
            &&& after == before + steps::circuit_steps(
                done,
                query_instance,
                instances,
                pk.unusable_rows_start(),
            )
        }
}

/// A step on the transcript failed. The error is the one that it amounts to, or
/// tells that the circuit passed it on.
pub open spec fn is_cut_short<F, P, T: TranscriptWrite<F, P>, R: RandomSource<F>>(
    before: &Channel<F, P, T, R>,
    after: &Channel<F, P, T, R>,
    e: Error,
) -> bool {
    exists|f: Error|
        f is Transcript && (e == f || e == Error::Synthesis) && #[trigger] before.breaks_off(
            after,
            channel::plainly(),
            f,
        )
}

/// The backend is that of a circuit with this key and these instances.
pub open spec fn is_backend_of<'a, F, C, S, P, T, R>(
    witness: &WitnessCollection<'a, F, C, S, P, T, R>,
    params: &S,
    pk: &ProvingKey<F>,
    instances: Seq<Seq<F>>,
    single: InstanceSingle<F>,
    channel: Channel<F, C::AffineRepr, T, R>,
) -> bool where
    F: Field,
    C: Curve,
    S: Params<F, C>,
    P: Prover<F, T, R>,
    T: TranscriptWrite<F, C::AffineRepr>,
    R: RandomSource<F>,
 {
    &&& *witness.params == *params
    &&& steps::slices_of(witness.instances@) == instances
    &&& *witness.instance_single == single
    &&& witness.base@ == channel
    &&& witness.advice@.len() == pk.vk.cs.num_advice_columns
    &&& witness.unusable_rows_start == pk.unusable_rows_start()
    &&& forall|p: int|
        0 <= p < 3 ==> (#[trigger] witness.column_indices@[p])@ == steps::indices_of_phase(
            pk.vk.cs.advice_column_phase@,
            p,
        )
    &&& forall|p: int|
        0 <= p < 3 ==> (#[trigger] witness.challenge_indices@[p])@ == steps::indices_of_phase(
            pk.vk.cs.challenge_phase@,
            p,
        )
}

/// What a backend that was stopped has recorded.
proof fn lemma_backend_begun<'a, F, C, S, P, T, R>(
    witness: &WitnessCollection<'a, F, C, S, P, T, R>,
    params: &S,
    pk: &ProvingKey<F>,
    instances: Seq<Seq<F>>,
    single: InstanceSingle<F>,
    channel: Channel<F, C::AffineRepr, T, R>,
    record: CircuitRecord<F, C::AffineRepr>,
) where
    F: Field,
    C: Curve,
    S: Params<F, C>,
    P: Prover<F, T, R>,
    T: TranscriptWrite<F, C::AffineRepr>,
    R: RandomSource<F>,

    requires
        pk.wf(params.spec_n()),
        is_backend_of(witness, params, pk, instances, single, channel),
        witness.stops_with(record),
    ensures
        circuit_begun::<F, C, S>(params, &pk.vk.cs, P::QUERY_INSTANCE, single, record),
{
    let meta = &pk.vk.cs;
    let last = record.phases.len() - 1;
    let done = witness.record@.phases;
    assert(record.phases.last() == record.phases[last]);
    assert(witness.column_indices@[last]@ == steps::indices_of_phase(
        meta.advice_column_phase@,
        last,
    ));
    circuit::lemma_phases_spanned(meta.advice_column_phase@, MAX_PHASES as int);
    if last >= meta.spec_num_phases() {
        lemma_no_indices(meta.advice_column_phase@, last, meta.spec_num_phases());
    }
    assert forall|p: int| 0 <= p < last implies phase_shaped::<F, C, S>(
        params,
        &pk.vk.cs,
        p,
        #[trigger] record.phases[p],
    ) by {
        assert(record.phases.drop_last()[p] == record.phases[p]);
        assert(witness.phase_recorded(p));
    }
    assert forall|p: int, j: int|
        0 <= p <= last && 0 <= j < record.phases[p].values.len() implies (
    #[trigger] record.phases[p].values[j]).len() == params.spec_n() by {
        if p < last {
            assert(record.phases.drop_last()[p] == record.phases[p]);
            assert(witness.phase_recorded(p));
            let columns = witness.column_indices@[p]@;
            assert(columns[j] < witness.advice@.len());
            assert(witness.advice_single.advice_polys@[columns[j] as int]@ == done[p].values[j]);
        }
    }
}

/// What a backend has recorded is what the circuit did to it, and so is the phase
/// that was begun when it was stopped, if it was.
proof fn lemma_backend_holds<'a, F, C, S, P, T, R>(
    witness: &WitnessCollection<'a, F, C, S, P, T, R>,
    params: &S,
    pk: &ProvingKey<F>,
    instances: Seq<Seq<F>>,
    single: InstanceSingle<F>,
    channel: Channel<F, C::AffineRepr, T, R>,
    phases: Seq<PhaseRecord<F, C::AffineRepr>>,
) where
    F: Field,
    C: Curve,
    S: Params<F, C>,
    P: Prover<F, T, R>,
    T: TranscriptWrite<F, C::AffineRepr>,
    R: RandomSource<F>,

    requires
        pk.wf(params.spec_n()),
        is_backend_of(witness, params, pk, instances, single, channel),
        witness.is_recorded(),
        phases == witness.record@.phases || {
            &&& witness.current_phase.0 < MAX_PHASES
            &&& phases.len() == witness.current_phase.0 + 1
            &&& phases.drop_last() == witness.record@.phases
            &&& witness.phase_begun(phases.last())
        },
    ensures
        records_hold(pk, witness.history(), phases),
{
    let meta = &pk.vk.cs;
    let history = witness.history();
    let done = witness.record@.phases;
    assert forall|p: int| 0 <= p < phases.len() implies {
        &&& (#[trigger] phases[p]).values.len() <= steps::indices_of_phase(
            meta.advice_column_phase@,
            p,
        ).len()
        &&& p < done.len() ==> phases[p].challenges.len() == steps::indices_of_phase(
            meta.challenge_phase@,
            p,
        ).len()
    } by {
        assert(witness.column_indices@[p]@ == steps::indices_of_phase(
            meta.advice_column_phase@,
            p,
        ));
        assert(witness.challenge_indices@[p]@ == steps::indices_of_phase(
            meta.challenge_phase@,
            p,
        ));
        if p < done.len() {
            assert(phases[p] == done[p]) by {
                if phases != done {
                    assert(phases.drop_last()[p] == done[p]);
                }
            }
            assert(witness.phase_recorded(p));
        } else {
            assert(phases[p] == phases.last());
        }
    }
    assert forall|k: int| 0 <= k < history.len() && (#[trigger] history[k]) is NextPhase implies
        knows_recorded(
        meta,
        phases,
        history::phases_in(history.take(k)) as int,
        history[k]->known,
    ) by {
        let phase = history::phases_in(history.take(k)) as int;
        let now_known = history[k]->known;
        history::lemma_phases_in(history, k);
        assert(witness.known_recorded(k));
        assert forall|index: usize| #[trigger]
            now_known.contains_key(index) <==> index < meta.num_challenges
                && meta.challenge_phase@[index as int].0 <= phase by {
            lemma_listed(meta.challenge_phase@, witness.challenge_indices@, phase + 1, index);
        }
        assert forall|p: int, j: int|
            0 <= p < phases.len() && p <= phase && 0 <= j < phases[p].challenges.len() implies
            now_known[steps::indices_of_phase(meta.challenge_phase@, p)[j]]
            == #[trigger] phases[p].challenges[j] by {
            assert(phases[p] == done[p]) by {
                if phases != done {
                    assert(phases.drop_last()[p] == done[p]);
                }
            }
            assert(witness.phase_recorded(p));
            let indices = witness.challenge_indices@[p]@;
            assert(indices == steps::indices_of_phase(meta.challenge_phase@, p));
            assert(collection::is_listed(witness.challenge_indices@, phase + 1, indices[j]));
            assert(now_known.contains_key(indices[j]));
            assert(witness.challenges@[indices[j]] == done[p].challenges[j]);
        }
    }
    assert forall|p: int, j: int, row: int|
        0 <= p < phases.len() && 0 <= j < phases[p].values.len() && 0 <= row
            < pk.unusable_rows_start() implies history::cells_until(
        meta.num_advice_columns as nat,
        pk.vk.domain.n as nat,
        history,
        p as nat,
    )[steps::indices_of_phase(meta.advice_column_phase@, p)[j] as int][row].evaluates_to(
        (#[trigger] phases[p].values[j][row]).value(),
    ) by {
        let columns = witness.column_indices@[p]@;
        assert(columns == steps::indices_of_phase(meta.advice_column_phase@, p));
        if p < done.len() {
            assert(phases[p] == done[p]) by {
                if phases != done {
                    assert(phases.drop_last()[p] == done[p]);
                }
            }
            assert(witness.phase_recorded(p));
            assert(columns[j] < witness.advice@.len());
            assert(witness.cells_at(p)[columns[j] as int][row].evaluates_to(
                done[p].values[j][row].value(),
            ));
        } else {
            assert(phases[p] == phases.last());
            assert(columns[j] < witness.advice@.len());
            assert(channel::values_of(witness.advice@)[columns[j] as int]
                == witness.advice@[columns[j] as int]@);
        }
    }
}

/// What is left of a backend that is intact.
proof fn lemma_backend_intact<'a, F, C, S, P, T, R>(
    witness: &WitnessCollection<'a, F, C, S, P, T, R>,
    params: &S,
    pk: &ProvingKey<F>,
    instances: Seq<Seq<F>>,
    single: InstanceSingle<F>,
    channel: Channel<F, C::AffineRepr, T, R>,
) where
    F: Field,
    C: Curve,
    S: Params<F, C>,
    P: Prover<F, T, R>,
    T: TranscriptWrite<F, C::AffineRepr>,
    R: RandomSource<F>,

    requires
        is_backend_of(witness, params, pk, instances, single, channel),
        witness.wf(),
    ensures
        circuit_shaped::<F, C, S>(
            params,
            &pk.vk.cs,
            P::QUERY_INSTANCE,
            single,
            witness.record@,
        ),
        witness.channel.trace() == channel.trace() + steps::circuit_steps(
            witness.record@,
            P::QUERY_INSTANCE,
            instances,
            pk.unusable_rows_start(),
        ),
{
    let done = witness.record@;
    assert forall|p: int| 0 <= p < done.phases.len() implies phase_shaped::<F, C, S>(
        params,
        &pk.vk.cs,
        p,
        #[trigger] done.phases[p],
    ) by {
        assert(witness.phase_recorded(p));
    }
}

/// Synthesizes the circuit once, and ends the phase unless there is none left.
fn synthesize_round<'a, F, C, S, P, T, R, ConcreteCircuit>(
    circuit: &ConcreteCircuit,
    config: &ConcreteCircuit::Config,
    constants: &Vec<Column<Fixed>>,
    num_phases: u8,
    witness: &mut WitnessCollection<'a, F, C, S, P, T, R>,
) -> (r: Result<(), Error>) where
    F: Field,
    C: Curve,
    S: Params<F, C>,
    P: Prover<F, T, R>,
    T: TranscriptWrite<F, C::AffineRepr>,
    R: RandomSource<F>,
    ConcreteCircuit: Circuit<F>,

    requires
        old(witness).wf(),
        old(witness).current_phase.0 < num_phases <= MAX_PHASES,
        ConcreteCircuit::is_config(config),
        circuit.fits(old(witness).spec_num_columns(), old(witness).spec_num_rows()),
    ensures
        old(witness).evolves(final(witness)),
        r is Ok ==> {
            &&& final(witness).wf()
            &&& final(witness).current_phase.0 > old(witness).current_phase.0
            &&& is_round(
                circuit,
                config,
                constants@,
                old(witness).spec_instances(),
                num_phases as int,
                old(witness).history(),
                final(witness).history(),
            )
        },
        r matches Err(e) ==> {
            ||| {
                &&& e == Error::Synthesis
                &&& !circuit.is_total(history::phases_in(old(witness).history()))
                &&& final(witness).wf()
                &&& circuit.refuses(
                    config,
                    constants@,
                    old(witness).spec_instances(),
                    old(witness).history(),
                    final(witness).history(),
                )
            }
            ||| {
                &&& final(witness).has_failed()
                &&& e == Error::Synthesis || final(witness).breaks_off_with(e)
                &&& {
                    ||| circuit.synthesizes(
                        config,
                        constants@,
                        old(witness).spec_instances(),
                        old(witness).history(),
                        final(witness).history(),
                    )
                    ||| circuit.fails(
                        config,
                        constants@,
                        old(witness).spec_instances(),
                        old(witness).history(),
                        final(witness).history(),
                    )
                }
            }
        },
{
    if circuit.synthesize(config, constants, witness).is_err() {
        return Err(Error::Synthesis);
    }
    let ghost between = *witness;
    if witness.current_phase.to_u8() < num_phases {
        let result = witness.next_phase();
        proof {
            old(witness).lemma_evolves(&between, witness);
        }
        if let Err(e) = result {
            return Err(e);
        }
    }
    proof {
        assert(circuit.synthesizes(
            config,
            constants@,
            old(witness).spec_instances(),
            old(witness).history(),
            between.history(),
        ));
        assert(advances(num_phases as int, between.history(), witness.history()));
    }
    Ok(())
}

/// A backend on which nothing has been assigned.
fn start_witness<'a, F, C, S, P, T, R>(
    params: &'a S,
    pk: &ProvingKey<F>,
    instances: &'a [&'a [F]],
    instance_single: &'a InstanceSingle<F>,
    channel: Channel<F, C::AffineRepr, T, R>,
) -> (r: WitnessCollection<'a, F, C, S, P, T, R>) where
    F: Field,
    C: Curve,
    S: Params<F, C>,
    P: Prover<F, T, R>,
    T: TranscriptWrite<F, C::AffineRepr>,
    R: RandomSource<F>,

    requires
        pk.wf(params.spec_n()),
    ensures
        r.wf(),
        r.history() == Seq::<Action<F>>::empty(),
        r.current_phase.0 == 0,
        is_backend_of(
            &r,
            params,
            pk,
            steps::slices_of(instances@),
            *instance_single,
            channel,
        ),
{
    let domain = &pk.vk.domain;
    let meta = &pk.vk.cs;
    proof {
        circuit::lemma_phases_spanned(meta.advice_column_phase@, MAX_PHASES as int);
    }
    let (column_indices, challenge_indices) = column_and_challenge_indices(meta);
    let unusable_rows_start = params.n() - (meta.blinding_factors + 1);
    let mut advice: Vec<Polynomial<Assigned<F>, LagrangeCoeff>> = Vec::new();
    let mut advice_polys: Vec<Polynomial<F, LagrangeCoeff>> = Vec::new();
    let mut advice_blinds: Vec<Blind<F>> = Vec::new();
    while advice.len() < meta.num_advice_columns
        invariant
            advice@.len() <= meta.num_advice_columns,
            advice_polys@.len() == advice@.len(),
            advice_blinds@.len() == advice@.len(),
            forall|i: int|
                0 <= i < advice@.len() ==> (#[trigger] advice@[i])@ == Seq::new(
                    domain.n as nat,
                    |r: int| Assigned::<F>::Zero,
                ),
            forall|i: int|
                0 <= i < advice@.len() ==> (#[trigger] advice_polys@[i])@.len() == domain.n,
        decreases meta.num_advice_columns - advice@.len(),
    {
        advice.push(domain.empty_lagrange_assigned());
        advice_polys.push(domain.empty_lagrange());
        advice_blinds.push(Blind::default());
    }
    let ghost base = channel;
    let ghost columns = column_indices;
    let ghost indices = challenge_indices;
    let witness: WitnessCollection<'a, F, C, S, P, T, R> = WitnessCollection {
        params,
        current_phase: Phase(0),
        advice,
        challenges: HashMap::new(),
        instances,
        advice_single: AdviceCommitted { advice_polys, advice_blinds },
        instance_single,
        channel,
        column_indices,
        challenge_indices,
        unusable_rows_start,
        base: Ghost(base),
        history: Ghost(Seq::empty()),
        record: Ghost(CircuitRecord { instance_points: Seq::empty(), phases: Seq::empty() }),
        marker: PhantomData,
    };
    proof {
        lemma_indices_partition(meta.advice_column_phase@, columns@);
        lemma_indices_partition(meta.challenge_phase@, indices@);
        assert(witness.channel.trace() =~= base.trace() + Seq::empty());
        let initial_cells = history::cells::<F>(
            meta.num_advice_columns as nat,
            domain.n as nat,
            Seq::empty(),
        );
        assert forall|i: int| 0 <= i < witness.advice@.len() implies (
        #[trigger] witness.advice@[i])@ == initial_cells[i] by {
            assert(witness.advice@[i]@ =~= initial_cells[i]);
        }
        assert(channel::values_of(witness.advice@) =~= initial_cells);
    }
    witness
}

/// Synthesizes the circuit until all phases are over.
fn drive<'a, F, C, S, P, T, R, ConcreteCircuit>(
    pk: &ProvingKey<F>,
    config: &ConcreteCircuit::Config,
    circuit: &ConcreteCircuit,
    witness: &mut WitnessCollection<'a, F, C, S, P, T, R>,
) -> (r: Result<Ghost<Seq<Seq<Action<F>>>>, Error>) where
    F: Field,
    C: Curve,
    S: Params<F, C>,
    P: Prover<F, T, R>,
    T: TranscriptWrite<F, C::AffineRepr>,
    R: RandomSource<F>,
    ConcreteCircuit: Circuit<F>,

    requires
        pk.vk.cs.wf(),
        old(witness).wf(),
        old(witness).history() == Seq::<Action<F>>::empty(),
        ConcreteCircuit::is_config(config),
        circuit.fits(old(witness).spec_num_columns(), old(witness).spec_num_rows()),
    ensures
        old(witness).evolves(final(witness)),
        r matches Ok(rounds) ==> {
            &&& final(witness).wf()
            &&& final(witness).current_phase.0 >= pk.vk.cs.spec_num_phases()
            &&& rounds@.len() > 0
            &&& rounds@.last() == final(witness).history()
            &&& is_driven(
                circuit,
                config,
                pk.vk.cs.constants@,
                old(witness).spec_instances(),
                pk.vk.cs.spec_num_phases(),
                rounds@,
            )
        },
        r matches Err(e) ==> {
            ||| {
                &&& e == Error::Synthesis
                &&& !is_total(circuit, pk.vk.cs.spec_num_phases())
                &&& final(witness).wf()
                &&& exists|rounds: Seq<Seq<Action<F>>>| #[trigger]
                    is_refused_at(
                        circuit,
                        config,
                        pk.vk.cs.constants@,
                        old(witness).spec_instances(),
                        pk.vk.cs.spec_num_phases(),
                        rounds,
                        final(witness).history(),
                    )
            }
            ||| {
                &&& final(witness).has_failed()
                &&& e == Error::Synthesis || final(witness).breaks_off_with(e)
                &&& exists|rounds: Seq<Seq<Action<F>>>| #[trigger]
                    is_driven_to(
                        circuit,
                        config,
                        pk.vk.cs.constants@,
                        old(witness).spec_instances(),
                        pk.vk.cs.spec_num_phases(),
                        rounds,
                        final(witness).history(),
                    )
            }
        },
{
    let meta = &pk.vk.cs;
    proof {
        circuit::lemma_phases_spanned(meta.advice_column_phase@, MAX_PHASES as int);
        old(witness).lemma_evolves(old(witness), old(witness));
    }
    let num_phases: u8 = meta.phases().len() as u8;
    let ghost initial = *witness;
    let ghost instances = witness.spec_instances();
    let ghost mut rounds: Seq<Seq<Action<F>>> = seq![Seq::empty()];
    // A circuit that moves on to the next phase by itself is synthesized once;
    // one that does not is synthesized again in every phase.
    while witness.current_phase.to_u8() < num_phases
        invariant
            ConcreteCircuit::is_config(config),
            circuit.fits(initial.spec_num_columns(), initial.spec_num_rows()),
            num_phases <= MAX_PHASES,
            num_phases == pk.vk.cs.spec_num_phases(),
            meta == &pk.vk.cs,
            initial == *old(witness),
            instances == initial.spec_instances(),
            witness.wf(),
            initial.evolves(witness),
            rounds.last() == witness.history(),
            is_driving(
                circuit,
                config,
                meta.constants@,
                instances,
                num_phases as int,
                rounds,
            ),
        decreases MAX_PHASES - witness.current_phase.0,
    {
        let ghost before = *witness;
        let result = synthesize_round(circuit, config, &meta.constants, num_phases, witness);
        proof {
            initial.lemma_evolves(&before, witness);
        }
        if let Err(e) = result {
            proof {
                if is_total(circuit, num_phases as int) {
                    assert(circuit.is_total(history::phases_in(before.history())));
                }
                if witness.wf() && circuit.refuses(
                    config,
                    meta.constants@,
                    instances,
                    before.history(),
                    witness.history(),
                ) {
                    assert(is_refused_at(
                        circuit,
                        config,
                        meta.constants@,
                        instances,
                        num_phases as int,
                        rounds,
                        witness.history(),
                    ));
                }
                if witness.has_failed() && (circuit.synthesizes(
                    config,
                    meta.constants@,
                    instances,
                    before.history(),
                    witness.history(),
                ) || circuit.fails(
                    config,
                    meta.constants@,
                    instances,
                    before.history(),
                    witness.history(),
                )) {
                    assert(is_driven_to(
                        circuit,
                        config,
                        meta.constants@,
                        instances,
                        num_phases as int,
                        rounds,
                        witness.history(),
                    ));
                }
            }
            return Err(e);
        }
        proof {
            lemma_driving(
                circuit,
                config,
                meta.constants@,
                instances,
                num_phases as int,
                rounds,
                witness.history(),
            );
            rounds = rounds.push(witness.history());
        }
    }
    Ok(Ghost(rounds))
}

/// The columns of a backend whose phases are over hold what was assigned.
proof fn lemma_holds_cells<'a, F, C, S, P, T, R>(
    witness: &WitnessCollection<'a, F, C, S, P, T, R>,
    params: &S,
    pk: &ProvingKey<F>,
    instances: Seq<Seq<F>>,
    single: InstanceSingle<F>,
    channel: Channel<F, C::AffineRepr, T, R>,
) where
    F: Field,
    C: Curve,
    S: Params<F, C>,
    P: Prover<F, T, R>,
    T: TranscriptWrite<F, C::AffineRepr>,
    R: RandomSource<F>,

    requires
        pk.wf(params.spec_n()),
        is_backend_of(witness, params, pk, instances, single, channel),
        witness.wf(),
        witness.current_phase.0 >= pk.vk.cs.spec_num_phases(),
    ensures
        holds_cells(pk, witness.history(), witness.advice_single),
        history::all_in_range(
            pk.vk.cs.num_advice_columns as nat,
            pk.vk.domain.n as nat,
            witness.history(),
        ),
{
    let meta = &pk.vk.cs;
    let all = witness.record@.phases;
    let advice = witness.advice_single;
    circuit::lemma_phases_spanned(meta.advice_column_phase@, MAX_PHASES as int);
    assert forall|c: int, row: int|
        0 <= c < meta.num_advice_columns && 0 <= row < pk.unusable_rows_start() implies
        history::cells_at(
        meta.num_advice_columns as nat,
        pk.vk.domain.n as nat,
        witness.history(),
        meta.advice_column_phase@[c].0 as nat,
    )[c][row].evaluates_to((#[trigger] advice.advice_polys@[c]@[row]).value()) by {
        let p = meta.advice_column_phase@[c].0 as int;
        steps::lemma_indices_of_phase(meta.advice_column_phase@, p);
        let list = steps::indices_of_phase(meta.advice_column_phase@, p);
        assert(list.contains(c as usize));
        let j = choose|j: int| 0 <= j < list.len() && list[j] == c as usize;
        assert(witness.column_indices@[p]@[j] == c);
        assert(witness.phase_recorded(p));
        assert(all[p].values[j][row] == advice.advice_polys@[c]@[row]);
    }
}

/// The challenges that became known to a circuit are those that were squeezed.
proof fn lemma_knows_challenges<'a, F, C, S, P, T, R>(
    witness: &WitnessCollection<'a, F, C, S, P, T, R>,
    params: &S,
    pk: &ProvingKey<F>,
    instances: Seq<Seq<F>>,
    single: InstanceSingle<F>,
    channel: Channel<F, C::AffineRepr, T, R>,
    challenges: Seq<F>,
) where
    F: Field,
    C: Curve,
    S: Params<F, C>,
    P: Prover<F, T, R>,
    T: TranscriptWrite<F, C::AffineRepr>,
    R: RandomSource<F>,

    requires
        pk.wf(params.spec_n()),
        is_backend_of(witness, params, pk, instances, single, channel),
        witness.wf(),
        challenges.len() == pk.vk.cs.num_challenges,
        forall|k: usize|
            k < pk.vk.cs.num_challenges ==> #[trigger] challenges[k as int]
                == witness.challenges@[k],
    ensures
        knows_challenges(&pk.vk.cs, witness.history(), challenges),
{
    let meta = &pk.vk.cs;
    let history = witness.history();
    assert forall|k: int|
        0 <= k < history.len() && (#[trigger] history[k]) is NextPhase implies knows_up_to(
        meta,
        challenges,
        history::phases_in(history.take(k)) as int,
        history[k]->known,
    ) by {
        let phase = history::phases_in(history.take(k)) as int;
        let now_known = history[k]->known;
        history::lemma_phases_in(history, k);
        assert(witness.known_recorded(k));
        assert forall|index: usize|
            {
                &&& #[trigger] now_known.contains_key(index) <==> index < challenges.len()
                    && meta.challenge_phase@[index as int].0 <= phase
                &&& now_known.contains_key(index) ==> now_known[index]
                    == challenges[index as int]
            } by {
            lemma_listed(meta.challenge_phase@, witness.challenge_indices@, phase + 1, index);
            if now_known.contains_key(index) {
                assert(challenges[index as int] == witness.challenges@[index]);
            }
        }
    }
}

/// What a backend whose phases are over has recorded.
proof fn lemma_recorded<'a, F, C, S, P, T, R>(
    witness: &WitnessCollection<'a, F, C, S, P, T, R>,
    params: &S,
    pk: &ProvingKey<F>,
    instances: Seq<Seq<F>>,
    single: InstanceSingle<F>,
    channel: Channel<F, C::AffineRepr, T, R>,
    challenges: Seq<F>,
    record: CircuitRecord<F, C::AffineRepr>,
) where
    F: Field,
    C: Curve,
    S: Params<F, C>,
    P: Prover<F, T, R>,
    T: TranscriptWrite<F, C::AffineRepr>,
    R: RandomSource<F>,

    requires
        pk.wf(params.spec_n()),
        is_backend_of(witness, params, pk, instances, single, channel),
        witness.wf(),
        witness.current_phase.0 >= pk.vk.cs.spec_num_phases(),
        challenges.len() == pk.vk.cs.num_challenges,
        forall|k: usize|
            k < pk.vk.cs.num_challenges ==> #[trigger] challenges[k as int]
                == witness.challenges@[k],
        record.instance_points == witness.record@.instance_points,
        record.phases == witness.record@.phases.take(pk.vk.cs.spec_num_phases()),
    ensures
        circuit_recorded::<F, C, S>(
            params,
            &pk.vk.cs,
            P::QUERY_INSTANCE,
            single,
            witness.advice_single,
            challenges,
            record,
        ),
        witness.channel.trace() == channel.trace() + steps::circuit_steps(
            record,
            P::QUERY_INSTANCE,
            instances,
            pk.unusable_rows_start(),
        ),
{
    let meta = &pk.vk.cs;
    let used = meta.spec_num_phases();
    let all = witness.record@.phases;
    circuit::lemma_phases_spanned(meta.advice_column_phase@, MAX_PHASES as int);
    assert forall|p: int| used <= p < all.len() implies (#[trigger] all[p]).values.len() == 0
        && all[p].blinds.len() == 0 && all[p].points.len() == 0 && all[p].challenges.len()
        == 0 by {
        assert(witness.phase_recorded(p));
        lemma_no_indices(meta.advice_column_phase@, p, used);
        lemma_no_indices(meta.challenge_phase@, p, used);
    }
    steps::lemma_empty_phases(all, used, pk.unusable_rows_start());
    assert forall|p: int|
        #![trigger record.phases[p]]
        0 <= p < record.phases.len() implies steps::phase_committed::<F, C, S>(
        params,
        record.phases[p],
    ) && phase_matches(meta, p, witness.advice_single, challenges, record.phases[p]) by {
        assert(witness.phase_recorded(p));
        steps::lemma_indices_of_phase(meta.challenge_phase@, p);
        let list = steps::indices_of_phase(meta.challenge_phase@, p);
        assert(list == witness.challenge_indices@[p]@);
        assert(steps::indices_of_phase(meta.advice_column_phase@, p)
            == witness.column_indices@[p]@);
        assert forall|j: int| #![trigger list[j]] 0 <= j < list.len() implies
            challenges[list[j] as int] == record.phases[p].challenges[j] by {
            assert(challenges[list[j] as int] == witness.challenges@[list[j]]);
        }
    }
}

/// Drives `Circuit::synthesize` for one circuit, until all phases are over.
fn synthesize_circuit<'a, F, C, S, P, T, R, ConcreteCircuit>(
    params: &'a S,
    pk: &ProvingKey<F>,
    config: &ConcreteCircuit::Config,
    circuit: &ConcreteCircuit,
    instances: &'a [&'a [F]],
    instance_single: &'a InstanceSingle<F>,
    channel: Channel<F, C::AffineRepr, T, R>,
) -> (r: (
    Result<
        (
            AdviceCommitted<F, LagrangeCoeff>,
            Vec<F>,
            Ghost<CircuitRecord<F, C::AffineRepr>>,
        ),
        Error,
    >,
    Channel<F, C::AffineRepr, T, R>,
)) where
    F: Field,
    C: Curve,
    S: Params<F, C>,
    P: Prover<F, T, R>,
    T: TranscriptWrite<F, C::AffineRepr>,
    R: RandomSource<F>,
    ConcreteCircuit: Circuit<F>,

    requires
        pk.wf(params.spec_n()),
        ConcreteCircuit::is_config(config),
        circuit.fits(pk.vk.cs.num_advice_columns as nat, params.spec_n() as nat),
    ensures
        r.0 matches Ok((advice, challenges, record)) ==> {
            &&& circuit_recorded::<F, C, S>(
                params,
                &pk.vk.cs,
                P::QUERY_INSTANCE,
                *instance_single,
                advice,
                challenges@,
                record@,
            )
            &&& is_synthesized(
                pk,
                circuit,
                steps::slices_of(instances@),
                challenges@,
                advice,
            )
            &&& r.1.trace() == channel.trace() + steps::circuit_steps(
                record@,
                P::QUERY_INSTANCE,
                steps::slices_of(instances@),
                pk.unusable_rows_start(),
            )
            &&& channel.goes_on(&r.1, channel::plainly())
        },
        r.0 matches Err(e) ==> {
            ||| {
                &&& e == Error::Synthesis
                &&& !is_total(circuit, pk.vk.cs.spec_num_phases())
                &&& channel.goes_on(&r.1, channel::plainly())
                &&& goes_part_way::<F, C, S, ConcreteCircuit>(
                    params,
                    pk,
                    P::QUERY_INSTANCE,
                    circuit,
                    steps::slices_of(instances@),
                    *instance_single,
                    channel.trace(),
                    r.1.trace(),
                )
            }
            ||| {
                &&& is_cut_short(&channel, &r.1, e)
                &&& stops_in_circuit::<F, C, S, ConcreteCircuit>(
                    params,
                    pk,
                    P::QUERY_INSTANCE,
                    circuit,
                    steps::slices_of(instances@),
                    *instance_single,
                    channel.trace(),
                    r.1.trace(),
                )
            }
        },
{
    let meta = &pk.vk.cs;
    let ghost columns = steps::slices_of(instances@);
    let mut witness = start_witness::<F, C, S, P, T, R>(
        params,
        pk,
        instances,
        instance_single,
        channel,
    );
    match drive(pk, config, circuit, &mut witness) {
        Err(e) => {
            proof {
                if witness.has_failed() {
                    let record = choose|record: CircuitRecord<F, C::AffineRepr>| #[trigger]
                        witness.stops_with(record);
                    lemma_backend_begun(
                        &witness,
                        params,
                        pk,
                        columns,
                        *instance_single,
                        channel,
                        record,
                    );
                    lemma_backend_holds(
                        &witness,
                        params,
                        pk,
                        columns,
                        *instance_single,
                        channel,
                        record.phases,
                    );
                    let rounds = choose|rounds: Seq<Seq<Action<F>>>| #[trigger]
                        is_driven_to(
                            circuit,
                            config,
                            meta.constants@,
                            columns,
                            meta.spec_num_phases(),
                            rounds,
                            witness.history(),
                        );
                    assert(has_run(
                        circuit,
                        config,
                        meta.constants@,
                        columns,
                        meta.spec_num_phases(),
                        rounds,
                        witness.history(),
                    ));
                    assert(is_assigned(pk, circuit, columns, record.phases));
                    let f = choose|f: Error| witness.breaks_off_with(f);
                    if e == Error::Synthesis {
                        assert(channel.breaks_off(&witness.channel, channel::plainly(), f));
                    } else {
                        assert(channel.breaks_off(&witness.channel, channel::plainly(), e));
                    }
                } else {
                    lemma_backend_intact(&witness, params, pk, columns, *instance_single, channel);
                    let phases = witness.record@.phases;
                    lemma_backend_holds(
                        &witness,
                        params,
                        pk,
                        columns,
                        *instance_single,
                        channel,
                        phases,
                    );
                    let rounds = choose|rounds: Seq<Seq<Action<F>>>| #[trigger]
                        is_refused_at(
                            circuit,
                            config,
                            meta.constants@,
                            columns,
                            meta.spec_num_phases(),
                            rounds,
                            witness.history(),
                        );
                    assert(is_refused_at(
                        circuit,
                        config,
                        meta.constants@,
                        columns,
                        meta.spec_num_phases(),
                        rounds,
                        witness.history(),
                    ));
                    assert(is_refused(pk, circuit, columns, phases));
                }
            }
            (Err(e), witness.channel)
        },
        Ok(rounds) => {
            let ghost known = witness.challenges@;
            let ghost end = witness;
            proof {
                assert forall|k: usize| k < meta.num_challenges implies #[trigger] known.contains_key(
                    k,
                ) by {
                    lemma_listed(
                        meta.challenge_phase@,
                        witness.challenge_indices@,
                        witness.current_phase.0 as int,
                        k,
                    );
                }
            }
            let challenges = collect_challenges(witness.challenges, meta.num_challenges);
            let ghost record = CircuitRecord {
                instance_points: end.record@.instance_points,
                phases: end.record@.phases.take(meta.spec_num_phases()),
            };
            proof {
                lemma_recorded(
                    &end,
                    params,
                    pk,
                    columns,
                    *instance_single,
                    channel,
                    challenges@,
                    record,
                );
                lemma_holds_cells(&end, params, pk, columns, *instance_single, channel);
                lemma_knows_challenges(
                    &end,
                    params,
                    pk,
                    columns,
                    *instance_single,
                    channel,
                    challenges@,
                );
                assert(is_driven(
                    circuit,
                    config,
                    meta.constants@,
                    columns,
                    meta.spec_num_phases(),
                    rounds@,
                ));
            }
            (Ok((witness.advice_single, challenges, Ghost(record))), witness.channel)
        },
    }
}

/// The steps that took a channel from `before` to `after` committed to the
/// witnesses of the circuits one after the other, and to nothing else:
/// `advice` and `challenges` are what was committed to and squeezed.
pub open spec fn is_phase1<F: Field, C: Curve, S: Params<F, C>>(
    params: &S,
    pk: &ProvingKey<F>,
    query_instance: bool,
    instances: Seq<Seq<Seq<F>>>,
    instance: Seq<InstanceSingle<F>>,
    advice: Seq<AdviceCommitted<F, LagrangeCoeff>>,
    challenges: Seq<F>,
    before: Seq<Step<F, C::AffineRepr>>,
    after: Seq<Step<F, C::AffineRepr>>,
) -> bool {
    &&& advice.len() == instances.len()
    &&& challenges.len() == pk.vk.cs.num_challenges
    &&& exists|records: Seq<CircuitRecord<F, C::AffineRepr>>|
        {
            &&& #[trigger] all_recorded::<F, C, S>(
                params,
                &pk.vk.cs,
                query_instance,
                instance,
                advice,
                challenges,
                records,
            )
            &&& after == before + steps::circuits_steps(
                records,
                query_instance,
                instances,
                pk.unusable_rows_start(),
            )
        }
}

/// The records are those of the circuits.
pub open spec fn all_recorded<F: Field, C: Curve, S: Params<F, C>>(
    params: &S,
    cs: &ConstraintSystem,
    query_instance: bool,
    instance: Seq<InstanceSingle<F>>,
    advice: Seq<AdviceCommitted<F, LagrangeCoeff>>,
    challenges: Seq<F>,
    records: Seq<CircuitRecord<F, C::AffineRepr>>,
) -> bool {
    &&& records.len() == advice.len()
    &&& forall|i: int|
        0 <= i < records.len() ==> circuit_recorded::<F, C, S>(
            params,
            cs,
            query_instance,
            instance[i],
            advice[i],
            challenges,
            #[trigger] records[i],
        )
}

/// The witnesses of the first circuits were committed to, as `records` says, and
/// the next circuit was stopped.
pub open spec fn phase1_stops<
    F: Field,
    C: Curve,
    S: Params<F, C>,
    ConcreteCircuit: Circuit<F>,
>(
    params: &S,
    pk: &ProvingKey<F>,
    query_instance: bool,
    circuits: Seq<ConcreteCircuit>,
    instances: Seq<Seq<Seq<F>>>,
    instance: Seq<InstanceSingle<F>>,
    advice: Seq<AdviceCommitted<F, LagrangeCoeff>>,
    challenges: Seq<F>,
    records: Seq<CircuitRecord<F, C::AffineRepr>>,
    before: Seq<Step<F, C::AffineRepr>>,
    after: Seq<Step<F, C::AffineRepr>>,
) -> bool {
    let count = records.len() as int;
    &&& all_recorded::<F, C, S>(
        params,
        &pk.vk.cs,
        query_instance,
        instance,
        advice,
        challenges,
        records,
    )
    &&& all_synthesized(pk, circuits, instances, challenges, advice)
    &&& count < instances.len()
    &&& stops_in_circuit::<F, C, S, ConcreteCircuit>(
        params,
        pk,
        query_instance,
        &circuits[count],
        instances[count],
        instance[count],
        before + steps::circuits_steps(
            records,
            query_instance,
            instances,
            pk.unusable_rows_start(),
        ),
        after,
    )
}

/// The steps that took a channel from `before` to `after` are the first ones by
/// which the witnesses of the circuits are committed to, and the next one failed.
pub open spec fn is_stopped_phase1<
    F: Field,
    C: Curve,
    S: Params<F, C>,
    ConcreteCircuit: Circuit<F>,
>(
    params: &S,
    pk: &ProvingKey<F>,
    query_instance: bool,
    circuits: Seq<ConcreteCircuit>,
    instances: Seq<Seq<Seq<F>>>,
    instance: Seq<InstanceSingle<F>>,
    before: Seq<Step<F, C::AffineRepr>>,
    after: Seq<Step<F, C::AffineRepr>>,
) -> bool {
    exists|
        advice: Seq<AdviceCommitted<F, LagrangeCoeff>>,
        challenges: Seq<F>,
        records: Seq<CircuitRecord<F, C::AffineRepr>>,
    | #[trigger]
        phase1_stops::<F, C, S, ConcreteCircuit>(
            params,
            pk,
            query_instance,
            circuits,
            instances,
            instance,
            advice,
            challenges,
            records,
            before,
            after,
        )
}

/// The witnesses of the first circuits were committed to, as `records` says, and
/// the first phases of the next one were gone through, after which it refused.
pub open spec fn phase1_ends<
    F: Field,
    C: Curve,
    S: Params<F, C>,
    ConcreteCircuit: Circuit<F>,
>(
    params: &S,
    pk: &ProvingKey<F>,
    query_instance: bool,
    circuits: Seq<ConcreteCircuit>,
    instances: Seq<Seq<Seq<F>>>,
    instance: Seq<InstanceSingle<F>>,
    advice: Seq<AdviceCommitted<F, LagrangeCoeff>>,
    challenges: Seq<F>,
    records: Seq<CircuitRecord<F, C::AffineRepr>>,
    before: Seq<Step<F, C::AffineRepr>>,
    after: Seq<Step<F, C::AffineRepr>>,
) -> bool {
    let count = records.len() as int;
    &&& all_recorded::<F, C, S>(
        params,
        &pk.vk.cs,
        query_instance,
        instance,
        advice,
        challenges,
        records,
    )
    &&& all_synthesized(pk, circuits, instances, challenges, advice)
    &&& count < instances.len()
    &&& goes_part_way::<F, C, S, ConcreteCircuit>(
        params,
        pk,
        query_instance,
        &circuits[count],
        instances[count],
        instance[count],
        before + steps::circuits_steps(
            records,
            query_instance,
            instances,
            pk.unusable_rows_start(),
        ),
        after,
    )
}

/// The steps that took a channel from `before` to `after` are the first ones by
/// which the witnesses of the circuits are committed to. After them a circuit
/// refused.
pub open spec fn is_unfinished_phase1<
    F: Field,
    C: Curve,
    S: Params<F, C>,
    ConcreteCircuit: Circuit<F>,
>(
    params: &S,
    pk: &ProvingKey<F>,
    query_instance: bool,
    circuits: Seq<ConcreteCircuit>,
    instances: Seq<Seq<Seq<F>>>,
    instance: Seq<InstanceSingle<F>>,
    before: Seq<Step<F, C::AffineRepr>>,
    after: Seq<Step<F, C::AffineRepr>>,
) -> bool {
    exists|
        advice: Seq<AdviceCommitted<F, LagrangeCoeff>>,
        challenges: Seq<F>,
        records: Seq<CircuitRecord<F, C::AffineRepr>>,
    | #[trigger]
        phase1_ends::<F, C, S, ConcreteCircuit>(
            params,
            pk,
            query_instance,
            circuits,
            instances,
            instance,
            advice,
            challenges,
            records,
            before,
            after,
        )
}

/// What was committed to has the shape of the circuits.
pub proof fn lemma_phase1_fits<F: Field, C: Curve, S: Params<F, C>>(
    params: &S,
    pk: &ProvingKey<F>,
    query_instance: bool,
    instances: Seq<Seq<Seq<F>>>,
    instance: Seq<InstanceSingle<F>>,
    advice: Seq<AdviceCommitted<F, LagrangeCoeff>>,
    challenges: Seq<F>,
    before: Seq<Step<F, C::AffineRepr>>,
    after: Seq<Step<F, C::AffineRepr>>,
)
    requires
        is_phase1::<F, C, S>(
            params,
            pk,
            query_instance,
            instances,
            instance,
            advice,
            challenges,
            before,
            after,
        ),
    ensures
        forall|i: int|
            0 <= i < advice.len() ==> advice_fits(
                &pk.vk.cs,
                params.spec_n(),
                #[trigger] advice[i],
            ),
{
    let records = choose|records: Seq<CircuitRecord<F, C::AffineRepr>>| #[trigger]
        all_recorded::<F, C, S>(
            params,
            &pk.vk.cs,
            query_instance,
            instance,
            advice,
            challenges,
            records,
        );
    assert forall|i: int| 0 <= i < advice.len() implies advice_fits(
        &pk.vk.cs,
        params.spec_n(),
        #[trigger] advice[i],
    ) by {
        assert(circuit_recorded::<F, C, S>(
            params,
            &pk.vk.cs,
            query_instance,
            instance[i],
            advice[i],
            challenges,
            records[i],
        ));
    }
}

/// The circuits can be synthesized: each fits on the columns, and there is just
/// one of them if challenges are squeezed or there is more than one phase.
pub open spec fn may_synthesize<F: Field, ConcreteCircuit: Circuit<F>>(
    pk: &ProvingKey<F>,
    circuits: Seq<ConcreteCircuit>,
) -> bool {
    &&& forall|i: int|
        0 <= i < circuits.len() ==> (#[trigger] circuits[i]).fits(
            pk.vk.cs.num_advice_columns as nat,
            pk.vk.domain.n as nat,
        )
    &&& pk.vk.cs.spec_num_phases() > 1 || pk.vk.cs.num_challenges > 0 ==> circuits.len() == 1
}

/// Drives `Circuit::synthesize` for each circuit, running the same
/// commit / challenge-squeeze sequence [`super::create_proof`] performs in
/// phase 1. Returns per-circuit committed advice (Lagrange basis, with blinds)
/// and the flat per-index challenge vector.
///
/// Shared between [`super::create_proof`] and [`synthesize_witness`].
pub fn run_phase1_synthesis<F, C, S, P, T, R, ConcreteCircuit>(
    params: &S,
    pk: &ProvingKey<F>,
    circuits: &[ConcreteCircuit],
    instances: &[&[&[F]]],
    instance: &Vec<InstanceSingle<F>>,
    channel: Channel<F, C::AffineRepr, T, R>,
) -> (r: (
    Result<(Vec<AdviceCommitted<F, LagrangeCoeff>>, Vec<F>), Error>,
    Channel<F, C::AffineRepr, T, R>,
)) where
    F: Field,
    C: Curve,
    S: Params<F, C>,
    P: Prover<F, T, R>,
    T: TranscriptWrite<F, C::AffineRepr>,
    R: RandomSource<F>,
    ConcreteCircuit: Circuit<F>,

    requires
        pk.wf(params.spec_n()),
        circuits@.len() == instances@.len(),
        circuits@.len() == instance@.len(),
        may_synthesize(pk, circuits@),
    ensures
        r.0 matches Ok((advice, challenges)) ==> {
            &&& all_synthesized(
                pk,
                circuits@,
                steps::all_slices_of(instances@),
                challenges@,
                advice@,
            )
            &&& is_phase1::<F, C, S>(
                params,
                pk,
                P::QUERY_INSTANCE,
                steps::all_slices_of(instances@),
                instance@,
                advice@,
                challenges@,
                channel.trace(),
                r.1.trace(),
            )
        },
        r.0 is Ok ==> channel.goes_on(&r.1, channel::plainly()),
        r.0 matches Err(e) ==> {
            ||| {
                &&& e == Error::Synthesis
                &&& !are_total(circuits@, pk.vk.cs.spec_num_phases())
                &&& channel.goes_on(&r.1, channel::plainly())
                &&& is_unfinished_phase1::<F, C, S, ConcreteCircuit>(
                    params,
                    pk,
                    P::QUERY_INSTANCE,
                    circuits@,
                    steps::all_slices_of(instances@),
                    instance@,
                    channel.trace(),
                    r.1.trace(),
                )
            }
            ||| {
                &&& is_cut_short(&channel, &r.1, e)
                &&& is_stopped_phase1::<F, C, S, ConcreteCircuit>(
                    params,
                    pk,
                    P::QUERY_INSTANCE,
                    circuits@,
                    steps::all_slices_of(instances@),
                    instance@,
                    channel.trace(),
                    r.1.trace(),
                )
            }
        },
{
    let ghost before = channel.trace();
    let ghost columns = steps::all_slices_of(instances@);
    let ghost start = pk.unusable_rows_start();
    let mut meta_for_config = ConstraintSystem::empty();
    let config = ConcreteCircuit::configure(&mut meta_for_config);
    let mut current = channel;
    let mut advice: Vec<AdviceCommitted<F, LagrangeCoeff>> = Vec::new();
    let mut challenges: Vec<F> = Vec::new();
    let ghost mut records: Seq<CircuitRecord<F, C::AffineRepr>> = Seq::empty();
    let mut i: usize = 0;
    assert(before + Seq::empty() =~= before);
    while i < circuits.len()
        invariant
            before == channel.trace(),
            channel.goes_on(&current, channel::plainly()),
            pk.wf(params.spec_n()),
            circuits@.len() == instances@.len(),
            circuits@.len() == instance@.len(),
            may_synthesize(pk, circuits@),
            ConcreteCircuit::is_config(&config),
            columns == steps::all_slices_of(instances@),
            start == pk.unusable_rows_start(),
            i <= circuits@.len(),
            advice@.len() == i,
            records.len() == i,
            i > 0 ==> challenges@.len() == pk.vk.cs.num_challenges,
            i == 0 ==> challenges@.len() == 0,
            all_synthesized(pk, circuits@, columns, challenges@, advice@),
            all_recorded::<F, C, S>(
                params,
                &pk.vk.cs,
                P::QUERY_INSTANCE,
                instance@,
                advice@,
                challenges@,
                records,
            ),
            current.trace() == before + steps::circuits_steps(
                records,
                P::QUERY_INSTANCE,
                columns,
                start,
            ),
        decreases circuits@.len() - i,
    {
        let ghost old_records = records;
        let ghost old_challenges = challenges@;
        let ghost reached = current;
        let (result, next) = synthesize_circuit::<F, C, S, P, T, R, ConcreteCircuit>(
            params,
            pk,
            &config,
            &circuits[i],
            instances[i],
            &instance[i],
            current,
        );
        current = next;
        match result {
            Ok((single, squeezed, record)) => {
                advice.push(single);
                challenges = squeezed;
                proof {
                    records = records.push(record@);
                    assert(records.drop_last() =~= old_records);
                    if i > 0 {
                        assert(challenges@ =~= old_challenges);
                    }
                    assert(current.trace() =~= before + steps::circuits_steps(
                        records,
                        P::QUERY_INSTANCE,
                        columns,
                        start,
                    ));
                }
            },
            Err(e) => {
                proof {
                    assert(columns[i as int] == steps::slices_of(instances@[i as int]@));
                    if is_cut_short(&reached, &current, e) {
                        let f = choose|f: Error|
                            f is Transcript && (e == f || e == Error::Synthesis)
                                && #[trigger] reached.breaks_off(&current, channel::plainly(), f);
                        assert(channel.breaks_off(&current, channel::plainly(), f));
                    }
                    if !is_total(&circuits@[i as int], pk.vk.cs.spec_num_phases()) {
                        assert(!are_total(circuits@, pk.vk.cs.spec_num_phases()));
                    }
                    if stops_in_circuit::<F, C, S, ConcreteCircuit>(
                        params,
                        pk,
                        P::QUERY_INSTANCE,
                        &circuits@[i as int],
                        columns[i as int],
                        instance@[i as int],
                        reached.trace(),
                        current.trace(),
                    ) {
                        assert(phase1_stops::<F, C, S, ConcreteCircuit>(
                            params,
                            pk,
                            P::QUERY_INSTANCE,
                            circuits@,
                            columns,
                            instance@,
                            advice@,
                            challenges@,
                            records,
                            before,
                            current.trace(),
                        ));
                    }
                    if goes_part_way::<F, C, S, ConcreteCircuit>(
                        params,
                        pk,
                        P::QUERY_INSTANCE,
                        &circuits@[i as int],
                        columns[i as int],
                        instance@[i as int],
                        reached.trace(),
                        current.trace(),
                    ) {
                        assert(phase1_ends::<F, C, S, ConcreteCircuit>(
                            params,
                            pk,
                            P::QUERY_INSTANCE,
                            circuits@,
                            columns,
                            instance@,
                            advice@,
                            challenges@,
                            records,
                            before,
                            current.trace(),
                        ));
                    }
                }
                return (Err(e), current);
            },
        }
        i += 1;
    }
    (Ok((advice, challenges)), current)
}

/// There is one list of instance columns per circuit, and each has the number
/// of columns that the circuit asks for.
pub open spec fn instances_match<F>(
    pk: &ProvingKey<F>,
    num_circuits: int,
    instances: Seq<Seq<Seq<F>>>,
) -> bool {
    &&& instances.len() == num_circuits
    &&& forall|i: int|
        0 <= i < instances.len() ==> (#[trigger] instances[i]).len()
            == pk.vk.cs.num_instance_columns
}

/// Whether there is one list of instance columns per circuit, and each has the
/// number of columns that the circuit asks for.
pub fn check_instances<F: Field>(
    pk: &ProvingKey<F>,
    num_circuits: usize,
    instances: &[&[&[F]]],
) -> (r: bool)
    ensures
        r == instances_match(pk, num_circuits as int, steps::all_slices_of(instances@)),
{
    let ghost columns = steps::all_slices_of(instances@);
    if num_circuits != instances.len() {
        return false;
    }
    let mut i: usize = 0;
    while i < instances.len()
        invariant
            columns == steps::all_slices_of(instances@),
            i <= instances@.len(),
            forall|k: int|
                0 <= k < i ==> (#[trigger] columns[k]).len() == pk.vk.cs.num_instance_columns,
        decreases instances@.len() - i,
    {
        assert(columns[i as int].len() == instances@[i as int]@.len());
        if instances[i].len() != pk.vk.cs.num_instance_columns {
            return false;
        }
        i += 1;
    }
    true
}

/// The instance columns of each circuit, padded with zeroes, in both bases.
pub open spec fn are_instance_singles<F: Field>(
    domain: &EvaluationDomain<F>,
    instances: Seq<Seq<Seq<F>>>,
    singles: Seq<InstanceSingle<F>>,
) -> bool {
    &&& singles.len() == instances.len()
    &&& forall|i: int|
        0 <= i < singles.len() ==> is_instance_single(
            domain,
            instances[i],
            #[trigger] singles[i],
        )
}

/// No instance column of any circuit reaches into the rows that blind the
/// columns.
pub open spec fn instances_fit<F>(
    instances: Seq<Seq<Seq<F>>>,
    unusable_rows_start: int,
) -> bool {
    forall|i: int|
        0 <= i < instances.len() ==> instance_fits(#[trigger] instances[i], unusable_rows_start)
}

/// Materializes the instance columns of each circuit.
pub fn build_instances<F: Field, C: Curve, S: Params<F, C>>(
    params: &S,
    pk: &ProvingKey<F>,
    instances: &[&[&[F]]],
) -> (r: Vec<InstanceSingle<F>>)
    requires
        pk.wf(params.spec_n()),
        instances_fit(steps::all_slices_of(instances@), pk.unusable_rows_start()),
    ensures
        are_instance_singles(&pk.vk.domain, steps::all_slices_of(instances@), r@),
{
    let ghost columns = steps::all_slices_of(instances@);
    let mut r: Vec<InstanceSingle<F>> = Vec::new();
    let mut i: usize = 0;
    while i < instances.len()
        invariant
            pk.wf(params.spec_n()),
            columns == steps::all_slices_of(instances@),
            instances_fit(columns, pk.unusable_rows_start()),
            i <= instances@.len(),
            r@.len() == i,
            forall|k: int|
                0 <= k < i ==> is_instance_single(&pk.vk.domain, columns[k], #[trigger] r@[k]),
        decreases instances@.len() - i,
    {
        assert(columns[i as int] == steps::slices_of(instances@[i as int]@));
        r.push(
            build_instance_single::<F, C, S>(params, &pk.vk.domain, &pk.vk.cs, instances[i]),
        );
        i += 1;
    }
    r
}

/// `singles` holds the committed columns in both bases.
pub open spec fn are_advice_singles<F: Field>(
    domain: &EvaluationDomain<F>,
    committed: Seq<AdviceCommitted<F, LagrangeCoeff>>,
    singles: Seq<AdviceSingle<F>>,
) -> bool {
    &&& singles.len() == committed.len()
    &&& forall|i: int|
        0 <= i < singles.len() ==> {
            &&& (#[trigger] singles[i]).advice_values == committed[i].advice_polys
            &&& all_interpolate(domain, singles[i].advice_polys@, singles[i].advice_values@)
        }
}

/// Drops the blinds of committed columns and computes their coefficients.
fn into_advice_singles<F: Field>(
    cs: &ConstraintSystem,
    domain: &EvaluationDomain<F>,
    committed: Vec<AdviceCommitted<F, LagrangeCoeff>>,
) -> (r: Vec<AdviceSingle<F>>)
    requires
        domain.wf(),
        forall|i: int|
            0 <= i < committed@.len() ==> advice_fits(cs, domain.n, #[trigger] committed@[i]),
    ensures
        are_advice_singles(domain, committed@, r@),
{
    let ghost given = committed@;
    let mut r: Vec<AdviceSingle<F>> = Vec::new();
    for single in iter: committed.into_iter()
        invariant
            domain.wf(),
            forall|i: int|
                0 <= i < given.len() ==> advice_fits(cs, domain.n, #[trigger] given[i]),
            iter.seq() == given,
            are_advice_singles(domain, given.take(iter.index()), r@),
    {
        assert(single == given[iter.index()]);
        let advice_values = single.advice_polys;
        let advice_polys = all_to_coeff(domain, &advice_values);
        r.push(AdviceSingle { advice_values, advice_polys });
    }
    assert(given.take(given.len() as int) =~= given);
    r
}

/// The result of witness generation: the instance columns and the committed
/// advice columns of each circuit in both bases, and the challenges.
pub open spec fn is_witness<
    F: Field,
    C: Curve,
    S: Params<F, C>,
    ConcreteCircuit: Circuit<F>,
>(
    params: &S,
    pk: &ProvingKey<F>,
    query_instance: bool,
    circuits: Seq<ConcreteCircuit>,
    instances: Seq<Seq<Seq<F>>>,
    instance: Seq<InstanceSingle<F>>,
    advice: Seq<AdviceSingle<F>>,
    challenges: Seq<F>,
    before: Seq<Step<F, C::AffineRepr>>,
    after: Seq<Step<F, C::AffineRepr>>,
) -> bool {
    &&& are_instance_singles(&pk.vk.domain, instances, instance)
    &&& exists|committed: Seq<AdviceCommitted<F, LagrangeCoeff>>|
        {
            &&& #[trigger] are_advice_singles(&pk.vk.domain, committed, advice)
            &&& all_synthesized(pk, circuits, instances, challenges, committed)
            &&& is_phase1::<F, C, S>(
                params,
                pk,
                query_instance,
                instances,
                instance,
                committed,
                challenges,
                before.push(Step::CommonScalar(pk.vk.transcript_repr)),
                after,
            )
        }
}

/// The steps that took a channel from `before` to `after` are the first ones of
/// witness generation, and the next one failed.
pub open spec fn is_stopped_witness<
    F: Field,
    C: Curve,
    S: Params<F, C>,
    ConcreteCircuit: Circuit<F>,
>(
    params: &S,
    pk: &ProvingKey<F>,
    query_instance: bool,
    circuits: Seq<ConcreteCircuit>,
    instances: Seq<Seq<Seq<F>>>,
    before: Seq<Step<F, C::AffineRepr>>,
    after: Seq<Step<F, C::AffineRepr>>,
) -> bool {
    let key = Step::<F, C::AffineRepr>::CommonScalar(pk.vk.transcript_repr);
    ||| channel::stops_in(before, seq![key], after)
    ||| exists|instance: Seq<InstanceSingle<F>>|
        {
            &&& #[trigger] are_instance_singles(&pk.vk.domain, instances, instance)
            &&& is_stopped_phase1::<F, C, S, ConcreteCircuit>(
                params,
                pk,
                query_instance,
                circuits,
                instances,
                instance,
                before.push(key),
                after,
            )
        }
}

/// The steps that took a channel from `before` to `after` are the first ones of
/// witness generation. After them a circuit refused.
pub open spec fn is_unfinished_witness<
    F: Field,
    C: Curve,
    S: Params<F, C>,
    ConcreteCircuit: Circuit<F>,
>(
    params: &S,
    pk: &ProvingKey<F>,
    query_instance: bool,
    circuits: Seq<ConcreteCircuit>,
    instances: Seq<Seq<Seq<F>>>,
    before: Seq<Step<F, C::AffineRepr>>,
    after: Seq<Step<F, C::AffineRepr>>,
) -> bool {
    exists|instance: Seq<InstanceSingle<F>>|
        {
            &&& #[trigger] are_instance_singles(&pk.vk.domain, instances, instance)
            &&& is_unfinished_phase1::<F, C, S, ConcreteCircuit>(
                params,
                pk,
                query_instance,
                circuits,
                instances,
                instance,
                before.push(Step::CommonScalar(pk.vk.transcript_repr)),
                after,
            )
        }
}

/// Being cut short after going on is being cut short.
pub proof fn lemma_cut_short_later<F, P, T: TranscriptWrite<F, P>, R: RandomSource<F>>(
    a: &Channel<F, P, T, R>,
    b: &Channel<F, P, T, R>,
    c: &Channel<F, P, T, R>,
    e: Error,
)
    requires
        a.goes_on(b, channel::plainly()),
    ensures
        is_cut_short(b, c, e) ==> is_cut_short(a, c, e),
        b.goes_on(c, channel::plainly()) ==> a.goes_on(c, channel::plainly()),
{
    if is_cut_short(b, c, e) {
        let f = choose|f: Error|
            f is Transcript && (e == f || e == Error::Synthesis) && #[trigger] b.breaks_off(
                c,
                channel::plainly(),
                f,
            );
        assert(a.breaks_off(c, channel::plainly(), f));
    }
}

/// Runs the phase-1 half of proof generation — the same synthesize / commit /
/// challenge-squeeze steps [`super::create_proof`] performs internally — and
/// returns the resulting instance/advice singles and per-phase challenges
/// without continuing to lookups, permutations, or the multiopen argument.
///
/// The transcript is left in the same state [`super::create_proof`] would
/// produce at the boundary (vk hashed, instances absorbed, per-phase advice
/// commitments written, per-phase challenges squeezed). Intended as a
/// diagnostic entry point — comparing an out-of-band witness generator's
/// advice against `Circuit::synthesize` — not for producing verifiable proofs.
pub fn synthesize_witness<F, C, S, P, T, R, ConcreteCircuit>(
    params: &S,
    pk: &ProvingKey<F>,
    circuits: &[ConcreteCircuit],
    instances: &[&[&[F]]],
    channel: Channel<F, C::AffineRepr, T, R>,
) -> (r: (
    Result<(Vec<InstanceSingle<F>>, Vec<AdviceSingle<F>>, Vec<F>), Error>,
    Channel<F, C::AffineRepr, T, R>,
)) where
    F: Field,
    C: Curve,
    S: Params<F, C>,
    P: Prover<F, T, R>,
    T: TranscriptWrite<F, C::AffineRepr>,
    R: RandomSource<F>,
    ConcreteCircuit: Circuit<F>,

    requires
        instances_match(pk, circuits@.len() as int, steps::all_slices_of(instances@)) ==> {
            &&& pk.wf(params.spec_n())
            &&& may_synthesize(pk, circuits@)
            &&& instances_fit(steps::all_slices_of(instances@), pk.unusable_rows_start())
        },
    ensures
        !instances_match(pk, circuits@.len() as int, steps::all_slices_of(instances@)) <==> (
        r.0 matches Err(e) && e == Error::InvalidInstances),
        r.0 is Ok ==> channel.goes_on(&r.1, channel::plainly()),
        r.0 matches Err(e) ==> {
            ||| e == Error::InvalidInstances && r.1 == channel
            ||| {
                &&& e == Error::Synthesis
                &&& !are_total(circuits@, pk.vk.cs.spec_num_phases())
                &&& channel.goes_on(&r.1, channel::plainly())
                &&& is_unfinished_witness::<F, C, S, ConcreteCircuit>(
                    params,
                    pk,
                    P::QUERY_INSTANCE,
                    circuits@,
                    steps::all_slices_of(instances@),
                    channel.trace(),
                    r.1.trace(),
                )
            }
            ||| {
                &&& is_cut_short(&channel, &r.1, e)
                &&& is_stopped_witness::<F, C, S, ConcreteCircuit>(
                    params,
                    pk,
                    P::QUERY_INSTANCE,
                    circuits@,
                    steps::all_slices_of(instances@),
                    channel.trace(),
                    r.1.trace(),
                )
            }
        },
        r.0 matches Ok((instance, advice, challenges)) ==> is_witness::<F, C, S, ConcreteCircuit>(
            params,
            pk,
            P::QUERY_INSTANCE,
            circuits@,
            steps::all_slices_of(instances@),
            instance@,
            advice@,
            challenges@,
            channel.trace(),
            r.1.trace(),
        ),
        r.0 matches Ok((instance, advice, challenges)) ==> account_synthesis::are_witnesses(
            pk,
            circuits@,
            steps::all_slices_of(instances@),
            instance@,
            advice@,
            challenges@,
        ),
{
    if !check_instances(pk, circuits.len(), instances) {
        return (Err(Error::InvalidInstances), channel);
    }
    let mut current = channel;
    // Hash verification key into transcript
    if let Err(e) = pk.vk.hash_into(&mut current) {
        assert(channel.breaks_off(&current, channel::plainly(), e));
        return (Err(e), current);
    }
    let instance = build_instances::<F, C, S>(params, pk, instances);
    let ghost hashed = current.trace();
    let ghost reached = current;
    let (result, current) = run_phase1_synthesis::<F, C, S, P, T, R, ConcreteCircuit>(
        params,
        pk,
        circuits,
        instances,
        &instance,
        current,
    );
    match result {
        Ok((committed, challenges)) => {
            proof {
                lemma_phase1_fits::<F, C, S>(
                    params,
                    pk,
                    P::QUERY_INSTANCE,
                    steps::all_slices_of(instances@),
                    instance@,
                    committed@,
                    challenges@,
                    hashed,
                    current.trace(),
                );
            }
            let advice = into_advice_singles(&pk.vk.cs, &pk.vk.domain, committed);
            proof {
                account_synthesis::lemma_witness_of_each_circuit::<F, C, S, ConcreteCircuit>(
                    params,
                    pk,
                    P::QUERY_INSTANCE,
                    circuits@,
                    steps::all_slices_of(instances@),
                    instance@,
                    advice@,
                    challenges@,
                    channel.trace(),
                    current.trace(),
                );
            }
            (Ok((instance, advice, challenges)), current)
        },
        Err(e) => {
            proof {
                lemma_cut_short_later(&channel, &reached, &current, e);
                assert(are_instance_singles(
                    &pk.vk.domain,
                    steps::all_slices_of(instances@),
                    instance@,
                ));
            }
            (Err(e), current)
        },
    }
}

} // verus!
