//! Where the columns of a witness come from, said of what the circuits did, and what a
//! proof is as a whole.

use super::account;
use super::account_witness;
use super::channel;
use super::channel::Step;
use super::circuit;
use super::circuit::{Circuit, Column, Fixed, Phase};
use super::commit;
use super::history;
use super::history::Action;
use super::protocol;
use super::prover;
use super::witness;
use super::witness::{AdviceCommitted, AdviceSingle, InstanceSingle};
use super::{Assigned, ProvingKey};
use crate::arithmetic;
use crate::curve::Curve;
use crate::field;
use crate::field::Field;
use crate::poly::commitment::{Blind, Params, Query};
use crate::poly::laws;
use crate::poly::{Coeff, EvaluationDomain, LagrangeCoeff, Polynomial};
use vstd::arithmetic::power;
use vstd::prelude::*;

verus! {

/// The `e`-th action ends the given phase, and before that the cell was assigned last
/// by the `a`-th action, or never if `a` is negative.
pub open spec fn is_last_before<F>(
    actions: Seq<Action<F>>,
    phase: nat,
    column: int,
    row: int,
    e: int,
    a: int,
) -> bool {
    &&& 0 <= e < actions.len()
    &&& actions[e] is NextPhase
    &&& history::phases_in(actions.take(e)) == phase
    &&& -1 <= a < e
    &&& a >= 0 ==> history::assigns_cell(actions[a], column, row)
    &&& forall|l: int| a < l < e ==> !history::assigns_cell(#[trigger] actions[l], column, row)
}

/// The value is what was assigned to the cell last before its phase was ended, and zero
/// if nothing was.
pub open spec fn is_assigned_last<F: Field>(
    actions: Seq<Action<F>>,
    phase: nat,
    column: int,
    row: int,
    value: int,
) -> bool {
    &&& exists|e: int, a: int| #[trigger] is_last_before(actions, phase, column, row, e, a)
    &&& forall|e: int, a: int| #[trigger]
        is_last_before(actions, phase, column, row, e, a) ==> (if a >= 0 {
            actions[a]->value
        } else {
            Assigned::<F>::Zero
        }).evaluates_to(value)
}

/// Where a phase was ended.
proof fn lemma_end_of_phase<F>(actions: Seq<Action<F>>, phase: nat) -> (e: int)
    requires
        phase < history::phases_in(actions),
    ensures
        0 <= e < actions.len(),
        actions[e] is NextPhase,
        history::phases_in(actions.take(e)) == phase,
    decreases actions.len(),
{
    let init = actions.drop_last();
    let last = actions.len() - 1;
    assert(actions.last() == actions[last]);
    assert(actions.take(last) =~= init);
    if phase < history::phases_in(init) {
        let e = lemma_end_of_phase(init, phase);
        assert(init[e] == actions[e]);
        assert(init.take(e) =~= actions.take(e));
        e
    } else {
        last
    }
}

/// Where a cell was assigned last before an action.
proof fn lemma_last_of_cell<F>(actions: Seq<Action<F>>, column: int, row: int, e: int) -> (a: int)
    requires
        0 <= e <= actions.len(),
    ensures
        -1 <= a < e,
        a >= 0 ==> history::assigns_cell(actions[a], column, row),
        forall|l: int| a < l < e ==> !history::assigns_cell(#[trigger] actions[l], column, row),
    decreases e,
{
    if e == 0 {
        -1
    } else if history::assigns_cell(actions[e - 1], column, row) {
        e - 1
    } else {
        lemma_last_of_cell(actions, column, row, e - 1)
    }
}

/// Every row of every column, but for those that blind it, holds what was assigned to
/// it last before the phase of the column was ended.
pub open spec fn hold_assigned<F: Field>(
    pk: &ProvingKey<F>,
    actions: Seq<Action<F>>,
    columns: Seq<Polynomial<F, LagrangeCoeff>>,
) -> bool {
    forall|c: int, row: int|
        0 <= c < pk.vk.cs.num_advice_columns && 0 <= row < pk.vk.domain.n - (
        pk.vk.cs.blinding_factors + 1) ==> is_assigned_last(
            actions,
            pk.vk.cs.advice_column_phase@[c].0 as nat,
            c,
            row,
            (#[trigger] columns[c]@[row]).value(),
        )
}

/// What a round of synthesis leaves, once the phase was ended if one was left.
pub open spec fn is_next_round<F: Field, ConcreteCircuit: Circuit<F>>(
    circuit: &ConcreteCircuit,
    config: &ConcreteCircuit::Config,
    constants: Seq<Column<Fixed>>,
    instances: Seq<Seq<F>>,
    phases: int,
    before: Seq<Action<F>>,
    done: Seq<Action<F>>,
    after: Seq<Action<F>>,
) -> bool {
    &&& circuit.synthesizes(config, constants, instances, before, done)
    &&& before.is_prefix_of(done)
    &&& done.is_prefix_of(after)
    &&& history::phases_in(done) < phases ==> after.len() == done.len() + 1
        && after.last() is NextPhase
    &&& history::phases_in(done) >= phases ==> after.len() == done.len()
}

/// The actions are those of rounds of synthesis of the circuit with the given columns
/// for constants and instance columns. The first starts from nothing, each goes on
/// from what the one before has left, and there are as many as it takes to end all
/// phases.
pub open spec fn is_run<F: Field, ConcreteCircuit: Circuit<F>>(
    circuit: &ConcreteCircuit,
    config: &ConcreteCircuit::Config,
    constants: Seq<Column<Fixed>>,
    instances: Seq<Seq<F>>,
    phases: int,
    rounds: Seq<Seq<Action<F>>>,
) -> bool {
    &&& rounds.len() > 0
    &&& rounds[0].len() == 0
    &&& history::phases_in(rounds.last()) >= phases
    &&& forall|k: int|
        0 <= k < rounds.len() - 1 ==> history::phases_in(#[trigger] rounds[k]) < phases && exists|
            done: Seq<Action<F>>,
        | #[trigger]
            is_next_round(
                circuit,
                config,
                constants,
                instances,
                phases,
                rounds[k],
                done,
                rounds[k + 1],
            )
}

/// When a phase was ended, the circuit learned exactly the challenges of the phases up
/// to it.
pub open spec fn learns<F>(
    phases: Seq<Phase>,
    challenges: Seq<F>,
    actions: Seq<Action<F>>,
) -> bool {
    forall|k: int, index: usize|
        #![trigger actions[k]->known.contains_key(index)]
        0 <= k < actions.len() && actions[k] is NextPhase ==> {
            &&& actions[k]->known.contains_key(index) <==> index < challenges.len()
                && phases[index as int].0 <= history::phases_in(actions.take(k))
            &&& actions[k]->known.contains_key(index) ==> actions[k]->known[index]
                == challenges[index as int]
        }
}

/// The columns hold what the circuit assigned when it was synthesized with the instance
/// columns and the challenges.
pub open spec fn is_witness_of<F: Field, ConcreteCircuit: Circuit<F>>(
    pk: &ProvingKey<F>,
    circuit: &ConcreteCircuit,
    instances: Seq<Seq<F>>,
    challenges: Seq<F>,
    columns: Seq<Polynomial<F, LagrangeCoeff>>,
) -> bool {
    exists|config: ConcreteCircuit::Config, rounds: Seq<Seq<Action<F>>>|
        {
            &&& ConcreteCircuit::is_config(&config)
            &&& #[trigger] is_run(
                circuit,
                &config,
                pk.vk.cs.constants@,
                instances,
                pk.vk.cs.spec_num_phases(),
                rounds,
            )
            &&& learns(pk.vk.cs.challenge_phase@, challenges, rounds.last())
            &&& hold_assigned(pk, rounds.last(), columns)
        }
}

proof fn lemma_run<F: Field, ConcreteCircuit: Circuit<F>>(
    circuit: &ConcreteCircuit,
    config: &ConcreteCircuit::Config,
    constants: Seq<Column<Fixed>>,
    instances: Seq<Seq<F>>,
    phases: int,
    rounds: Seq<Seq<Action<F>>>,
)
    requires
        witness::is_driven(circuit, config, constants, instances, phases, rounds),
    ensures
        is_run(circuit, config, constants, instances, phases, rounds),
{
    assert forall|k: int| 0 <= k < rounds.len() - 1 implies history::phases_in(
        #[trigger] rounds[k],
    ) < phases && exists|done: Seq<Action<F>>| #[trigger]
        is_next_round(
            circuit,
            config,
            constants,
            instances,
            phases,
            rounds[k],
            done,
            rounds[k + 1],
        ) by {
        let (before, after) = (rounds[k], rounds[k + 1]);
        assert(witness::is_round(
            circuit,
            config,
            constants,
            instances,
            phases,
            before,
            after,
        ));
        let done = choose|done: Seq<Action<F>>|
            {
                &&& before.is_prefix_of(done)
                &&& #[trigger] circuit.synthesizes(config, constants, instances, before, done)
                &&& witness::advances(phases, done, after)
            };
        assert(is_next_round(
            circuit,
            config,
            constants,
            instances,
            phases,
            before,
            done,
            after,
        ));
    }
}

proof fn lemma_cell_held<F: Field>(
    columns: nat,
    rows: nat,
    actions: Seq<Action<F>>,
    phase: nat,
    c: int,
    row: int,
    value: int,
)
    requires
        history::all_in_range(columns, rows, actions),
        0 <= c < columns,
        0 <= row < rows,
        phase < history::phases_in(actions),
        history::cells_at(columns, rows, actions, phase)[c][row].evaluates_to(value),
    ensures
        is_assigned_last(actions, phase, c, row, value),
{
    let end = lemma_end_of_phase(actions, phase);
    let last = lemma_last_of_cell(actions, c, row, end);
    assert(is_last_before(actions, phase, c, row, end, last));
    assert forall|e: int, a: int| #[trigger]
        is_last_before(actions, phase, c, row, e, a) implies (if a >= 0 {
        actions[a]->value
    } else {
        Assigned::<F>::Zero
    }).evaluates_to(value) by {
        let done = actions.take(e);
        history::lemma_cells_at_end(columns, rows, actions, e);
        assert(history::all_in_range(columns, rows, done)) by {
            assert forall|k: int| 0 <= k < done.len() implies ((#[trigger] done[k]) matches
                Action::Assign { column, row, .. } ==> column < columns && row < rows) by {
                assert(done[k] == actions[k]);
            }
        }
        assert forall|l: int| a < l < done.len() implies !history::assigns_cell(
            #[trigger] done[l],
            c,
            row,
        ) by {
            assert(done[l] == actions[l]);
        }
        if a >= 0 {
            assert(done[a] == actions[a]);
        }
        history::lemma_last_assignment(columns, rows, done, c, row, a);
    }
}

/// Columns that come of the synthesis of a circuit hold what it assigned: see
/// [`is_witness_of`].
pub proof fn lemma_synthesized<F: Field, ConcreteCircuit: Circuit<F>>(
    pk: &ProvingKey<F>,
    circuit: &ConcreteCircuit,
    instances: Seq<Seq<F>>,
    challenges: Seq<F>,
    advice: AdviceCommitted<F, LagrangeCoeff>,
)
    requires
        pk.vk.cs.wf(),
        witness::is_synthesized(pk, circuit, instances, challenges, advice),
    ensures
        is_witness_of(pk, circuit, instances, challenges, advice.advice_polys@),
{
    let cs = &pk.vk.cs;
    let (config, rounds) = choose|config: ConcreteCircuit::Config, rounds: Seq<Seq<Action<F>>>|
        {
            &&& ConcreteCircuit::is_config(&config)
            &&& #[trigger] witness::is_driven(
                circuit,
                &config,
                cs.constants@,
                instances,
                cs.spec_num_phases(),
                rounds,
            )
            &&& history::all_in_range(
                cs.num_advice_columns as nat,
                pk.vk.domain.n as nat,
                rounds.last(),
            )
            &&& witness::knows_challenges(cs, rounds.last(), challenges)
            &&& witness::holds_cells(pk, rounds.last(), advice)
        };
    lemma_run(circuit, &config, cs.constants@, instances, cs.spec_num_phases(), rounds);
    circuit::lemma_phases_spanned(cs.advice_column_phase@, circuit::MAX_PHASES as int);
    let actions = rounds.last();
    let columns = cs.num_advice_columns as nat;
    let rows = pk.vk.domain.n as nat;
    assert forall|c: int, row: int|
        0 <= c < columns && 0 <= row < pk.vk.domain.n - (cs.blinding_factors
            + 1) implies is_assigned_last(
        actions,
        cs.advice_column_phase@[c].0 as nat,
        c,
        row,
        (#[trigger] advice.advice_polys@[c]@[row]).value(),
    ) by {
        lemma_cell_held(
            columns,
            rows,
            actions,
            cs.advice_column_phase@[c].0 as nat,
            c,
            row,
            advice.advice_polys@[c]@[row].value(),
        );
    }
    assert(hold_assigned(pk, actions, advice.advice_polys@));
    assert forall|k: int, index: usize|
        #![trigger actions[k]->known.contains_key(index)]
        0 <= k < actions.len() && actions[k] is NextPhase implies {
        &&& actions[k]->known.contains_key(index) <==> index < challenges.len()
            && cs.challenge_phase@[index as int].0 <= history::phases_in(actions.take(k))
        &&& actions[k]->known.contains_key(index) ==> actions[k]->known[index]
            == challenges[index as int]
    } by {
        assert(witness::knows_up_to(
            cs,
            challenges,
            history::phases_in(actions.take(k)) as int,
            actions[k]->known,
        ));
    }
    assert(learns(cs.challenge_phase@, challenges, actions));
}

/// The instance columns of `single` are the given ones: row by row as far as they go,
/// and zero below, up to the size of the domain. Its coefficients belong to them.
pub open spec fn pads<F: Field>(
    domain: &EvaluationDomain<F>,
    instances: Seq<Seq<F>>,
    single: InstanceSingle<F>,
) -> bool {
    &&& single.instance_values@.len() == instances.len()
    &&& forall|c: int|
        0 <= c < instances.len() ==> (#[trigger] single.instance_values@[c])@.len() == domain.n
    &&& forall|c: int, row: int|
        0 <= c < instances.len() && 0 <= row < domain.n ==> {
            let cell = #[trigger] single.instance_values@[c]@[row];
            &&& row < instances[c].len() ==> cell == instances[c][row]
            &&& row >= instances[c].len() ==> cell.value() == 0
        }
    &&& have_coefficients(domain, single.instance_polys@, single.instance_values@)
}

/// The polynomials take the values of the columns on the domain.
pub open spec fn have_coefficients<F: Field>(
    domain: &EvaluationDomain<F>,
    polys: Seq<Polynomial<F, Coeff>>,
    columns: Seq<Polynomial<F, LagrangeCoeff>>,
) -> bool {
    account::take_values(domain, polys.map_values(|p: Polynomial<F, Coeff>| p@), columns)
}

/// The coefficients that are computed for columns belong to the polynomials that take
/// their values on the domain.
pub proof fn lemma_have_coefficients<F: Field>(
    domain: &EvaluationDomain<F>,
    polys: Seq<Polynomial<F, Coeff>>,
    columns: Seq<Polynomial<F, LagrangeCoeff>>,
)
    requires
        witness::all_interpolate(domain, polys, columns),
    ensures
        have_coefficients(domain, polys, columns),
{
    let coeffs = polys.map_values(|p: Polynomial<F, Coeff>| p@);
    assert forall|c: int, r: int|
        0 <= c < columns.len() && 0 <= r < columns[c]@.len() implies arithmetic::eval(
        field::values_of(coeffs[c]),
        power::pow(domain.omega.value(), r as nat),
    ) % F::modulus() == (#[trigger] columns[c]@[r]).value() by {
        assert(coeffs[c] == polys[c]@);
        laws::lemma_interpolation_takes_values(*domain, polys[c]@, columns[c]@, r);
    }
    assert forall|c: int| 0 <= c < columns.len() implies (#[trigger] coeffs[c]).len()
        == columns[c]@.len() by {
        assert(coeffs[c] == polys[c]@);
        assert(field::values_of(polys[c]@).len() == polys[c]@.len());
        assert(field::values_of(columns[c]@).len() == columns[c]@.len());
    }
}

/// Instance columns are taken over row by row and filled up with zeroes: see [`pads`].
pub proof fn lemma_pads<F: Field>(
    domain: &EvaluationDomain<F>,
    instances: Seq<Seq<F>>,
    single: InstanceSingle<F>,
)
    requires
        witness::is_instance_single(domain, instances, single),
    ensures
        pads(domain, instances, single),
{
    lemma_have_coefficients(domain, single.instance_polys@, single.instance_values@);
    assert forall|c: int, row: int| 0 <= c < instances.len() && 0 <= row < domain.n implies {
        let cell = #[trigger] single.instance_values@[c]@[row];
        &&& row < instances[c].len() ==> cell == instances[c][row]
        &&& row >= instances[c].len() ==> cell.value() == 0
    } by {
        assert(witness::is_padded(
            single.instance_values@[c]@,
            instances[c],
            domain.n as int,
        ));
    }
}

/// The columns of each circuit hold what that circuit assigned when it was synthesized
/// with its instance columns, in both bases, and its instance columns are the given
/// ones.
pub open spec fn are_witnesses<F: Field, ConcreteCircuit: Circuit<F>>(
    pk: &ProvingKey<F>,
    circuits: Seq<ConcreteCircuit>,
    instances: Seq<Seq<Seq<F>>>,
    instance: Seq<InstanceSingle<F>>,
    advice: Seq<AdviceSingle<F>>,
    challenges: Seq<F>,
) -> bool {
    &&& instance.len() == instances.len()
    &&& advice.len() == instances.len()
    &&& forall|i: int|
        #![trigger advice[i]]
        #![trigger instance[i]]
        0 <= i < instances.len() ==> {
            &&& pads(&pk.vk.domain, instances[i], instance[i])
            &&& is_witness_of(
                pk,
                &circuits[i],
                instances[i],
                challenges,
                advice[i].advice_values@,
            )
            &&& advice[i].advice_values@.len() == pk.vk.cs.num_advice_columns
            &&& have_coefficients(
                &pk.vk.domain,
                advice[i].advice_polys@,
                advice[i].advice_values@,
            )
        }
}

/// The columns as they were committed to under these blinds.
pub open spec fn under_blinds<F: Field>(
    advice: Seq<AdviceSingle<F>>,
    blinds: Seq<Vec<Blind<F>>>,
) -> Seq<AdviceCommitted<F, LagrangeCoeff>> {
    Seq::new(
        advice.len(),
        |i: int|
            AdviceCommitted { advice_polys: advice[i].advice_values, advice_blinds: blinds[i] },
    )
}

/// The witness that is returned for a circuit is the one that this very circuit
/// assigned when it was synthesized with its own instance columns: see
/// [`is_witness_of`]. What is committed to is that witness: see
/// [`account_witness::commits_circuit`].
pub proof fn lemma_witness_of_each_circuit<
    F: Field,
    C: Curve,
    S: Params<F, C>,
    ConcreteCircuit: Circuit<F>,
>(
    params: &S,
    pk: &ProvingKey<F>,
    query_instance: bool,
    circuits: Seq<ConcreteCircuit>,
    instances: Seq<Seq<Seq<F>>>,
    instance: Seq<InstanceSingle<F>>,
    advice: Seq<AdviceSingle<F>>,
    challenges: Seq<F>,
    before: Seq<Step<F, C::AffineRepr>>,
    after: Seq<Step<F, C::AffineRepr>>,
)
    requires
        pk.vk.cs.wf(),
        witness::is_witness::<F, C, S, ConcreteCircuit>(
            params,
            pk,
            query_instance,
            circuits,
            instances,
            instance,
            advice,
            challenges,
            before,
            after,
        ),
    ensures
        are_witnesses(pk, circuits, instances, instance, advice, challenges),
        exists|blinds: Seq<Vec<Blind<F>>>, parts: Seq<Seq<Step<F, C::AffineRepr>>>|
            after == before.push(Step::CommonScalar(pk.vk.transcript_repr)) + account::flattened(
                parts,
            ) && #[trigger] account_witness::are_commitments::<F, C, S>(
                params,
                &pk.vk.cs,
                query_instance,
                instances,
                instance,
                under_blinds(advice, blinds),
                challenges,
                parts,
            ),
{
    let committed = choose|committed: Seq<AdviceCommitted<F, LagrangeCoeff>>|
        {
            &&& #[trigger] witness::are_advice_singles(&pk.vk.domain, committed, advice)
            &&& witness::all_synthesized(pk, circuits, instances, challenges, committed)
            &&& witness::is_phase1::<F, C, S>(
                params,
                pk,
                query_instance,
                instances,
                instance,
                committed,
                challenges,
                before.push(Step::CommonScalar(pk.vk.transcript_repr)),
                after,
            )
        };
    account_witness::lemma_commitments_of_circuits::<F, C, S>(
        params,
        pk,
        query_instance,
        instances,
        instance,
        committed,
        challenges,
        before.push(Step::CommonScalar(pk.vk.transcript_repr)),
        after,
    );
    let parts = choose|parts: Seq<Seq<Step<F, C::AffineRepr>>>|
        after == before.push(Step::CommonScalar(pk.vk.transcript_repr)) + account::flattened(parts)
            && #[trigger] account_witness::are_commitments::<F, C, S>(
            params,
            &pk.vk.cs,
            query_instance,
            instances,
            instance,
            committed,
            challenges,
            parts,
        );
    let blinds = Seq::new(committed.len(), |i: int| committed[i].advice_blinds);
    assert(under_blinds(advice, blinds) =~= committed) by {
        assert forall|i: int| 0 <= i < committed.len() implies #[trigger] under_blinds(
            advice,
            blinds,
        )[i] == committed[i] by {
            assert(advice[i].advice_values == committed[i].advice_polys);
        }
    }
    assert forall|i: int|
        #![trigger advice[i]]
        #![trigger instance[i]]
        0 <= i < instances.len() implies {
        &&& pads(&pk.vk.domain, instances[i], instance[i])
        &&& is_witness_of(pk, &circuits[i], instances[i], challenges, advice[i].advice_values@)
        &&& advice[i].advice_values@.len() == pk.vk.cs.num_advice_columns
        &&& have_coefficients(&pk.vk.domain, advice[i].advice_polys@, advice[i].advice_values@)
    } by {
        assert(witness::is_instance_single(&pk.vk.domain, instances[i], instance[i]));
        lemma_pads(&pk.vk.domain, instances[i], instance[i]);
        assert(advice[i].advice_values == committed[i].advice_polys);
        lemma_synthesized(pk, &circuits[i], instances[i], challenges, committed[i]);
        lemma_have_coefficients(
            &pk.vk.domain,
            advice[i].advice_polys@,
            advice[i].advice_values@,
        );
    }
}

/// The steps run the arguments on these columns and open them, and do nothing else:
/// they stand in order, each takes the challenges that it should, every argument of
/// every circuit is run and is about the columns of that circuit, and what is opened
/// are the columns and what the arguments listed. See [`account`].
pub open spec fn argues<F: Field, P>(
    pk: &ProvingKey<F>,
    query_instance: bool,
    instance: Seq<InstanceSingle<F>>,
    advice: Seq<AdviceCommitted<F, LagrangeCoeff>>,
    challenges: Seq<F>,
    steps: Seq<Step<F, P>>,
) -> bool {
    &&& account::squeezed(steps).len() == 5
    &&& account::all_take(Seq::empty(), steps, challenges, pk.vk.domain.n as nat)
    &&& account::in_order(steps)
    &&& forall|p: (int, int, int)|
        account::is_called_for(p, instance.len() as int, pk.vk.cs.num_lookups as int)
            ==> #[trigger] account::has_place(steps, p)
    &&& exists|h: Seq<F>| #[trigger] account::all(steps, account::about(pk, instance, advice, h))
    &&& exists|
        columns: Seq<Seq<Query<F>>>,
        fixed: Seq<Query<F>>,
        instance_evals: Seq<Seq<F>>,
        advice_evals: Seq<Seq<F>>,
        fixed_evals: Seq<F>,
    | #[trigger]
        account::hangs_together(
            pk,
            query_instance,
            instance,
            advice,
            steps,
            columns,
            fixed,
            instance_evals,
            advice_evals,
            fixed_evals,
        )
}

/// The steps from `before` to `after` absorb the verifying key, commit to the witness
/// of one circuit after the other as `parts` says, and then run the arguments on those
/// very columns and open them, as `rest` says.
pub open spec fn is_whole_proof<F: Field, C: Curve, S: Params<F, C>>(
    params: &S,
    pk: &ProvingKey<F>,
    query_instance: bool,
    instances: Seq<Seq<Seq<F>>>,
    instance: Seq<InstanceSingle<F>>,
    advice: Seq<AdviceCommitted<F, LagrangeCoeff>>,
    challenges: Seq<F>,
    before: Seq<Step<F, C::AffineRepr>>,
    after: Seq<Step<F, C::AffineRepr>>,
    parts: Seq<Seq<Step<F, C::AffineRepr>>>,
    rest: Seq<Step<F, C::AffineRepr>>,
) -> bool {
    &&& after == before.push(Step::CommonScalar(pk.vk.transcript_repr)) + account::flattened(parts)
        + rest
    &&& instance.len() == instances.len()
    &&& forall|i: int|
        0 <= i < instances.len() ==> pads(&pk.vk.domain, instances[i], #[trigger] instance[i])
    &&& account_witness::are_commitments::<F, C, S>(
        params,
        &pk.vk.cs,
        query_instance,
        instances,
        instance,
        advice,
        challenges,
        parts,
    )
    &&& argues(pk, query_instance, instance, advice, challenges, rest)
}

/// Every circuit has the instance columns that the key asks for.
pub open spec fn have_columns<F: Field>(pk: &ProvingKey<F>, instances: Seq<Seq<Seq<F>>>) -> bool {
    forall|i: int|
        0 <= i < instances.len() ==> (#[trigger] instances[i]).len()
            == pk.vk.cs.num_instance_columns
}

/// Instances are refused exactly if there are not as many lists of them as circuits, or
/// one of these does not have as many columns as the key asks for.
pub proof fn lemma_refused_instances<F: Field>(
    pk: &ProvingKey<F>,
    circuits: int,
    instances: Seq<Seq<Seq<F>>>,
)
    ensures
        !witness::instances_match(pk, circuits, instances) <==> circuits != instances.len()
            || exists|i: int|
            0 <= i < instances.len() && (#[trigger] instances[i]).len()
                != pk.vk.cs.num_instance_columns,
{
}

/// What follows the commitments in a proof: see [`argues`].
pub proof fn lemma_argues<F: Field, P>(
    pk: &ProvingKey<F>,
    query_instance: bool,
    instance: Seq<InstanceSingle<F>>,
    advice: Seq<AdviceCommitted<F, LagrangeCoeff>>,
    challenges: Seq<F>,
    before: Seq<Step<F, P>>,
    after: Seq<Step<F, P>>,
)
    requires
        account::is_complete(pk, instance, advice),
        protocol::is_proof(pk, query_instance, instance, advice, challenges, before, after),
    ensures
        before.is_prefix_of(after),
        argues(
            pk,
            query_instance,
            instance,
            advice,
            challenges,
            after.skip(before.len() as int),
        ),
{
    account::lemma_challenges_of_a_proof(
        pk,
        query_instance,
        instance,
        advice,
        challenges,
        before,
        after,
    );
    account::lemma_order_of_a_proof(
        pk,
        query_instance,
        instance,
        advice,
        challenges,
        before,
        after,
    );
    account::lemma_arguments_of_a_proof(
        pk,
        query_instance,
        instance,
        advice,
        challenges,
        before,
        after,
    );
    account::lemma_openings_of_a_proof(
        pk,
        query_instance,
        instance,
        advice,
        challenges,
        before,
        after,
    );
}

/// The columns that are committed to, those that the arguments are run on and those
/// that are opened are the same for every circuit, and so are the challenges: see
/// [`is_whole_proof`].
pub proof fn lemma_whole_proof<F: Field, C: Curve, S: Params<F, C>>(
    params: &S,
    pk: &ProvingKey<F>,
    query_instance: bool,
    instances: Seq<Seq<Seq<F>>>,
    instance: Seq<InstanceSingle<F>>,
    advice: Seq<AdviceCommitted<F, LagrangeCoeff>>,
    challenges: Seq<F>,
    before: Seq<Step<F, C::AffineRepr>>,
    after: Seq<Step<F, C::AffineRepr>>,
)
    requires
        pk.wf(params.spec_n()),
        have_columns(pk, instances),
        prover::is_created::<F, C, S>(
            params,
            pk,
            query_instance,
            instances,
            instance,
            advice,
            challenges,
            before,
            after,
        ),
    ensures
        exists|parts: Seq<Seq<Step<F, C::AffineRepr>>>, rest: Seq<Step<F, C::AffineRepr>>|
            #[trigger]
            is_whole_proof::<F, C, S>(
                params,
                pk,
                query_instance,
                instances,
                instance,
                advice,
                challenges,
                before,
                after,
                parts,
                rest,
            ),
{
    let start = before.push(Step::CommonScalar(pk.vk.transcript_repr));
    let middle = choose|middle: Seq<Step<F, C::AffineRepr>>|
        {
            &&& #[trigger] witness::is_phase1::<F, C, S>(
                params,
                pk,
                query_instance,
                instances,
                instance,
                advice,
                challenges,
                start,
                middle,
            )
            &&& protocol::is_proof(
                pk,
                query_instance,
                instance,
                advice,
                challenges,
                middle,
                after,
            )
        };
    account_witness::lemma_commitments_of_circuits::<F, C, S>(
        params,
        pk,
        query_instance,
        instances,
        instance,
        advice,
        challenges,
        start,
        middle,
    );
    let parts = choose|parts: Seq<Seq<Step<F, C::AffineRepr>>>|
        middle == start + account::flattened(parts)
            && #[trigger] account_witness::are_commitments::<F, C, S>(
            params,
            &pk.vk.cs,
            query_instance,
            instances,
            instance,
            advice,
            challenges,
            parts,
        );
    let rest = after.skip(middle.len() as int);
    assert forall|i: int| 0 <= i < instances.len() implies pads(
        &pk.vk.domain,
        instances[i],
        #[trigger] instance[i],
    ) && instance[i].instance_polys@.len() == pk.vk.cs.num_instance_columns by {
        assert(witness::is_instance_single(&pk.vk.domain, instances[i], instance[i]));
        lemma_pads(&pk.vk.domain, instances[i], instance[i]);
    }
    assert(account::is_complete(pk, instance, advice));
    lemma_argues(pk, query_instance, instance, advice, challenges, middle, after);
    assert(after =~= middle + rest);
    assert(is_whole_proof::<F, C, S>(
        params,
        pk,
        query_instance,
        instances,
        instance,
        advice,
        challenges,
        before,
        after,
        parts,
        rest,
    ));
}

/// A proof for circuits is one on the columns that each of them assigned when it was
/// synthesized with its own instance columns.
pub open spec fn proves_circuits<
    F: Field,
    C: Curve,
    S: Params<F, C>,
    ConcreteCircuit: Circuit<F>,
>(
    params: &S,
    pk: &ProvingKey<F>,
    query_instance: bool,
    circuits: Seq<ConcreteCircuit>,
    instances: Seq<Seq<Seq<F>>>,
    instance: Seq<InstanceSingle<F>>,
    advice: Seq<AdviceCommitted<F, LagrangeCoeff>>,
    challenges: Seq<F>,
    before: Seq<Step<F, C::AffineRepr>>,
    after: Seq<Step<F, C::AffineRepr>>,
) -> bool {
    &&& exists|parts: Seq<Seq<Step<F, C::AffineRepr>>>, rest: Seq<Step<F, C::AffineRepr>>|
        #[trigger]
        is_whole_proof::<F, C, S>(
            params,
            pk,
            query_instance,
            instances,
            instance,
            advice,
            challenges,
            before,
            after,
            parts,
            rest,
        )
    &&& advice.len() == instances.len()
    &&& forall|i: int|
        0 <= i < advice.len() ==> is_witness_of(
            pk,
            &circuits[i],
            instances[i],
            challenges,
            (#[trigger] advice[i]).advice_polys@,
        )
}

/// What is proved for every circuit are the columns that this very circuit assigned:
/// see [`proves_circuits`].
pub proof fn lemma_proof_of_each_circuit<
    F: Field,
    C: Curve,
    S: Params<F, C>,
    ConcreteCircuit: Circuit<F>,
>(
    params: &S,
    pk: &ProvingKey<F>,
    query_instance: bool,
    circuits: Seq<ConcreteCircuit>,
    instances: Seq<Seq<Seq<F>>>,
    before: Seq<Step<F, C::AffineRepr>>,
    after: Seq<Step<F, C::AffineRepr>>,
)
    requires
        pk.wf(params.spec_n()),
        have_columns(pk, instances),
        prover::proof_synthesized::<F, C, S, ConcreteCircuit>(
            params,
            pk,
            query_instance,
            circuits,
            instances,
            before,
            after,
        ),
    ensures
        exists|
            instance: Seq<InstanceSingle<F>>,
            advice: Seq<AdviceCommitted<F, LagrangeCoeff>>,
            challenges: Seq<F>,
        | #[trigger]
            proves_circuits::<F, C, S, ConcreteCircuit>(
                params,
                pk,
                query_instance,
                circuits,
                instances,
                instance,
                advice,
                challenges,
                before,
                after,
            ),
{
    let (instance, advice, challenges) = choose|
        instance: Seq<InstanceSingle<F>>,
        advice: Seq<AdviceCommitted<F, LagrangeCoeff>>,
        challenges: Seq<F>,
    |
        {
            &&& #[trigger] prover::is_created::<F, C, S>(
                params,
                pk,
                query_instance,
                instances,
                instance,
                advice,
                challenges,
                before,
                after,
            )
            &&& witness::all_synthesized(pk, circuits, instances, challenges, advice)
        };
    lemma_whole_proof::<F, C, S>(
        params,
        pk,
        query_instance,
        instances,
        instance,
        advice,
        challenges,
        before,
        after,
    );
    assert forall|i: int| 0 <= i < advice.len() implies is_witness_of(
        pk,
        &circuits[i],
        instances[i],
        challenges,
        (#[trigger] advice[i]).advice_polys@,
    ) by {
        lemma_synthesized(pk, &circuits[i], instances[i], challenges, advice[i]);
    }
    assert(proves_circuits::<F, C, S, ConcreteCircuit>(
        params,
        pk,
        query_instance,
        circuits,
        instances,
        instance,
        advice,
        challenges,
        before,
        after,
    ));
}

/// A proof for given advice columns is one on these columns: they are taken over row by
/// row, in their order, but for the rows that blind them.
pub proof fn lemma_proof_of_columns<F: Field, C: Curve, S: Params<F, C>>(
    params: &S,
    pk: &ProvingKey<F>,
    query_instance: bool,
    instances: Seq<Seq<F>>,
    columns: Seq<Seq<F>>,
    before: Seq<Step<F, C::AffineRepr>>,
    after: Seq<Step<F, C::AffineRepr>>,
)
    requires
        pk.wf(params.spec_n()),
        instances.len() == pk.vk.cs.num_instance_columns,
        forall|c: int| 0 <= c < columns.len() ==> (#[trigger] columns[c]).len() == pk.vk.domain.n,
        prover::proof_created_from::<F, C, S>(
            params,
            pk,
            query_instance,
            instances,
            columns,
            before,
            after,
        ),
    ensures
        exists|
            instance: InstanceSingle<F>,
            advice: AdviceCommitted<F, LagrangeCoeff>,
            challenges: Seq<F>,
            parts: Seq<Seq<Step<F, C::AffineRepr>>>,
            rest: Seq<Step<F, C::AffineRepr>>,
        |
            {
                &&& #[trigger] is_whole_proof::<F, C, S>(
                    params,
                    pk,
                    query_instance,
                    seq![instances],
                    seq![instance],
                    seq![advice],
                    challenges,
                    before,
                    after,
                    parts,
                    rest,
                )
                &&& advice.advice_polys@.len() == columns.len()
                &&& forall|c: int, row: int|
                    0 <= c < columns.len() && 0 <= row < pk.vk.domain.n - (
                    pk.vk.cs.blinding_factors + 1) ==> #[trigger] advice.advice_polys@[c]@[row]
                        == columns[c][row]
            },
{
    let (instance, advice, challenges) = choose|
        instance: InstanceSingle<F>,
        advice: AdviceCommitted<F, LagrangeCoeff>,
        challenges: Seq<F>,
    |
        {
            &&& #[trigger] prover::is_created::<F, C, S>(
                params,
                pk,
                query_instance,
                seq![instances],
                seq![instance],
                seq![advice],
                challenges,
                before,
                after,
            )
            &&& commit::same_above(
                columns,
                channel::values_of(advice.advice_polys@),
                pk.unusable_rows_start(),
            )
        };
    let start = pk.unusable_rows_start();
    let values = channel::values_of(advice.advice_polys@);
    lemma_whole_proof::<F, C, S>(
        params,
        pk,
        query_instance,
        seq![instances],
        seq![instance],
        seq![advice],
        challenges,
        before,
        after,
    );
    let (parts, rest) = choose|
        parts: Seq<Seq<Step<F, C::AffineRepr>>>,
        rest: Seq<Step<F, C::AffineRepr>>,
    | #[trigger]
        is_whole_proof::<F, C, S>(
            params,
            pk,
            query_instance,
            seq![instances],
            seq![instance],
            seq![advice],
            challenges,
            before,
            after,
            parts,
            rest,
        );
    assert(values.len() == advice.advice_polys@.len());
    assert forall|c: int, row: int| 0 <= c < columns.len() && 0 <= row < start implies
        #[trigger] advice.advice_polys@[c]@[row] == columns[c][row] by {
        assert(values[c] == advice.advice_polys@[c]@);
        assert(values[c].take(start)[row] == columns[c].take(start)[row]);
    }
}

} // verus!
