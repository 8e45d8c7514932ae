//! The steps of a proof once the columns of the circuits have been committed
//! to.

use super::channel;
use super::channel::{Slot, Step};
use super::circuit::Column;
use super::steps;
use super::witness::{AdviceCommitted, InstanceSingle};
use super::{ConstraintSystem, ProvingKey};
use crate::arithmetic;
use crate::field;
use crate::field::Field;
use crate::poly::commitment::Query;
use crate::poly::domain;
use crate::poly::{Basis, EvaluationDomain, LagrangeCoeff, Rotation};
use vstd::arithmetic::power;
use vstd::prelude::*;

verus! {

/// The steps for each of `count` circuits in turn.
pub open spec fn for_circuits<F, P>(
    count: nat,
    steps: spec_fn(int) -> Seq<Step<F, P>>,
) -> Seq<Step<F, P>>
    decreases count,
{
    if count == 0 {
        Seq::empty()
    } else {
        for_circuits((count - 1) as nat, steps) + steps(count - 1)
    }
}

/// The steps for the first circuits do not depend on those for the others.
pub proof fn lemma_for_circuits<F, P>(
    count: nat,
    f: spec_fn(int) -> Seq<Step<F, P>>,
    g: spec_fn(int) -> Seq<Step<F, P>>,
)
    requires
        forall|i: int| 0 <= i < count ==> #[trigger] f(i) == g(i),
    ensures
        for_circuits(count, f) == for_circuits(count, g),
    decreases count,
{
    if count > 0 {
        lemma_for_circuits((count - 1) as nat, f, g);
        assert(f(count - 1) == g(count - 1));
    }
}

/// Stopping in the steps of the first circuits is stopping in those of all.
pub proof fn lemma_stops_in_circuits<F, P>(
    before: Seq<Step<F, P>>,
    f: spec_fn(int) -> Seq<Step<F, P>>,
    done: nat,
    count: nat,
    after: Seq<Step<F, P>>,
)
    requires
        done <= count,
        channel::stops_in(before, for_circuits(done, f), after),
    ensures
        channel::stops_in(before, for_circuits(count, f), after),
    decreases count,
{
    if done < count {
        lemma_stops_in_circuits(before, f, done, (count - 1) as nat, after);
        channel::lemma_stops_earlier(
            before,
            for_circuits((count - 1) as nat, f),
            f(count - 1),
            after,
        );
    }
}

/// Stopping in the steps of one circuit, after those of the circuits before it.
pub proof fn lemma_stops_in_circuit<F, P>(
    before: Seq<Step<F, P>>,
    f: spec_fn(int) -> Seq<Step<F, P>>,
    i: int,
    count: nat,
    after: Seq<Step<F, P>>,
)
    requires
        0 <= i < count,
        channel::stops_in(before + for_circuits(i as nat, f), f(i), after),
    ensures
        channel::stops_in(before, for_circuits(count, f), after),
{
    channel::lemma_stops_later(before, for_circuits(i as nat, f), f(i), after);
    lemma_stops_in_circuits(before, f, (i + 1) as nat, count, after);
}

/// The lookup arguments of a circuit.
pub open spec fn lookup_slots(circuit: int, lookups: nat) -> Seq<Slot> {
    Seq::new(lookups, |j: int| Slot { circuit, lookup: j })
}

/// The permutation arguments of the circuits.
pub open spec fn permutation_slots(circuits: nat) -> Seq<Slot> {
    Seq::new(circuits, |i: int| Slot { circuit: i, lookup: 0 })
}

/// The lookup arguments of the circuits.
pub open spec fn all_lookup_slots(circuits: nat, lookups: nat) -> Seq<Seq<Slot>> {
    Seq::new(circuits, |i: int| lookup_slots(i, lookups))
}

/// The commitments to the permuted columns of the lookups of each circuit.
pub open spec fn permuted_steps<F, P>(
    pk: &ProvingKey<F>,
    theta: F,
    instance: Seq<InstanceSingle<F>>,
    advice: Seq<AdviceCommitted<F, LagrangeCoeff>>,
    challenges: Seq<F>,
) -> spec_fn(int) -> Seq<Step<F, P>> {
    |i: int|
        Seq::new(
            pk.vk.cs.num_lookups as nat,
            |j: int|
                Step::LookupPermuted {
                    slot: Slot { circuit: i, lookup: j },
                    theta,
                    advice: channel::values_of(advice[i].advice_polys@),
                    fixed: channel::values_of(pk.fixed_values@),
                    instance: channel::values_of(instance[i].instance_values@),
                    challenges,
                },
        )
}

/// The commitments to the products of the permutation arguments.
pub open spec fn permutation_steps<F, P>(
    pk: &ProvingKey<F>,
    instance: Seq<InstanceSingle<F>>,
    advice: Seq<AdviceCommitted<F, LagrangeCoeff>>,
    beta: F,
    gamma: F,
) -> Seq<Step<F, P>> {
    Seq::new(
        instance.len(),
        |i: int|
            Step::PermutationCommitted {
                slot: Slot { circuit: i, lookup: 0 },
                advice: channel::values_of(advice[i].advice_polys@),
                fixed: channel::values_of(pk.fixed_values@),
                instance: channel::values_of(instance[i].instance_values@),
                beta,
                gamma,
            },
    )
}

/// The commitments to the products of the lookups of each circuit.
pub open spec fn product_steps<F, P>(
    cs: &ConstraintSystem,
    beta: F,
    gamma: F,
) -> spec_fn(int) -> Seq<Step<F, P>> {
    |i: int|
        Seq::new(
            cs.num_lookups as nat,
            |j: int| Step::LookupCommitted { slot: Slot { circuit: i, lookup: j }, beta, gamma },
        )
}

/// The evaluations of the permutation arguments.
pub open spec fn permutation_eval_steps<F, P>(circuits: nat, x: F) -> Seq<Step<F, P>> {
    Seq::new(
        circuits,
        |i: int| Step::PermutationEvaluated { slot: Slot { circuit: i, lookup: 0 }, x },
    )
}

/// The evaluations of the lookups of each circuit.
pub open spec fn lookup_eval_steps<F, P>(cs: &ConstraintSystem, x: F) -> spec_fn(int) -> Seq<
    Step<F, P>,
> {
    |i: int|
        Seq::new(
            cs.num_lookups as nat,
            |j: int| Step::LookupEvaluated { slot: Slot { circuit: i, lookup: j }, x },
        )
}

/// The writing of these scalars.
pub open spec fn write_scalar_steps<F, P>(scalars: Seq<F>) -> Seq<Step<F, P>> {
    scalars.map_values(|s: F| Step::WriteScalar(s))
}

/// The writing of the evaluations of each circuit.
pub open spec fn eval_steps<F, P>(evals: Seq<Seq<F>>) -> spec_fn(int) -> Seq<Step<F, P>> {
    |i: int| write_scalar_steps(evals[i])
}

/// `point` is `x`, rotated on the domain.
pub open spec fn is_rotated<F: Field>(
    domain: &EvaluationDomain<F>,
    x: F,
    at: Rotation,
    point: F,
) -> bool {
    point.value() == (x.value() * domain::rotation_factor(
        domain.omega.value(),
        domain.omega_inv.value(),
        at.0 as int,
    )) % F::modulus()
}

/// `evals` holds the values of the queried columns at `x`, rotated as each
/// query asks for.
pub open spec fn are_evaluations<F: Field, K>(
    domain: &EvaluationDomain<F>,
    queries: Seq<(Column<K>, Rotation)>,
    polys: Seq<Seq<F>>,
    x: F,
    evals: Seq<F>,
) -> bool {
    &&& evals.len() == queries.len()
    &&& forall|q: int|
        0 <= q < evals.len() ==> {
            let (column, at) = queries[q];
            let point = (x.value() * domain::rotation_factor(
                domain.omega.value(),
                domain.omega_inv.value(),
                at.0 as int,
            )) % F::modulus();
            (#[trigger] evals[q]).value() == arithmetic::eval(
                field::values_of(polys[column.index as int]),
                point,
            ) % F::modulus()
        }
}

/// `opened` holds the queried columns with the points at which they are
/// queried, under the given blinds, or under the default one if none are
/// given.
pub open spec fn are_queries<F: Field, K>(
    domain: &EvaluationDomain<F>,
    queries: Seq<(Column<K>, Rotation)>,
    polys: Seq<Seq<F>>,
    blinds: Option<Seq<F>>,
    x: F,
    opened: Seq<Query<F>>,
) -> bool {
    &&& opened.len() == queries.len()
    &&& forall|q: int|
        0 <= q < opened.len() ==> {
            let (column, at) = queries[q];
            &&& is_rotated(domain, x, at, (#[trigger] opened[q]).point)
            &&& opened[q].poly == polys[column.index as int]
            &&& match blinds {
                Some(blinds) => opened[q].blind == blinds[column.index as int],
                None => opened[q].blind.value() == 1,
            }
        }
}

/// What comes up in a proof up to the quotient polynomial.
pub struct QuotientRecord<F> {
    /// The challenge that compresses the columns of a lookup.
    pub theta: F,
    /// The first challenge of the products.
    pub beta: F,
    /// The second challenge of the products.
    pub gamma: F,
    /// The challenge that combines the gates.
    pub y: F,
    /// The coefficients of the advice columns of each circuit.
    pub advice_polys: Seq<Seq<Seq<F>>>,
    /// The quotient polynomial.
    pub h: Seq<F>,
}

/// What comes up in the evaluation of polynomials.
pub struct EvaluationRecord<F> {
    /// The point at which polynomials are evaluated.
    pub x: F,
    /// The power of that point by the size of the domain.
    pub xn: F,
    /// The values of the queried instance columns of each circuit.
    pub instance_evals: Seq<Seq<F>>,
    /// The values of the queried advice columns of each circuit.
    pub advice_evals: Seq<Seq<F>>,
    /// The values of the queried fixed columns.
    pub fixed_evals: Seq<F>,
}

/// What comes up in the opening of polynomials.
pub struct OpeningRecord<F> {
    /// The openings of each circuit.
    pub circuits: Seq<CircuitOpenings<F>>,
    /// The openings of the fixed columns.
    pub fixed: Seq<Query<F>>,
    /// The openings that all permutation arguments share.
    pub common: Seq<Query<F>>,
    /// The openings of the vanishing argument.
    pub vanishing: Seq<Query<F>>,
}

/// What comes up in a proof after the columns have been committed to.
pub struct ProofRecord<F> {
    /// Up to the quotient polynomial.
    pub quotient: QuotientRecord<F>,
    /// In the evaluation of polynomials.
    pub evaluation: EvaluationRecord<F>,
    /// In the opening of polynomials.
    pub opening: OpeningRecord<F>,
}

/// The openings of a circuit.
pub struct CircuitOpenings<F> {
    /// Those of the instance columns.
    pub instance: Seq<Query<F>>,
    /// Those of the advice columns.
    pub advice: Seq<Query<F>>,
    /// Those of the permutation argument.
    pub permutation: Seq<Query<F>>,
    /// Those of each lookup.
    pub lookups: Seq<Seq<Query<F>>>,
}

/// The parts one after the other.
pub open spec fn concat<A>(parts: Seq<Seq<A>>) -> Seq<A>
    decreases parts.len(),
{
    if parts.len() == 0 {
        Seq::empty()
    } else {
        concat(parts.drop_last()) + parts.last()
    }
}

/// All openings of a circuit, in order.
pub open spec fn circuit_queries<F>(openings: CircuitOpenings<F>) -> Seq<Query<F>> {
    openings.instance + openings.advice + openings.permutation + concat(openings.lookups)
}

/// All openings of the circuits, in order.
pub open spec fn circuits_queries<F>(openings: Seq<CircuitOpenings<F>>) -> Seq<Query<F>>
    decreases openings.len(),
{
    if openings.len() == 0 {
        Seq::empty()
    } else {
        circuits_queries(openings.drop_last()) + circuit_queries(openings.last())
    }
}

/// All openings of a proof, in order.
pub open spec fn proof_queries<F>(record: OpeningRecord<F>) -> Seq<Query<F>> {
    circuits_queries(record.circuits) + record.fixed + record.common + record.vanishing
}

/// The listing of the queries of the lookups of a circuit.
pub open spec fn lookup_open_steps<F, P>(
    circuit: int,
    lookups: Seq<Seq<Query<F>>>,
    x: F,
) -> Seq<Step<F, P>> {
    Seq::new(
        lookups.len(),
        |j: int|
            Step::LookupOpened { slot: Slot { circuit, lookup: j }, x, queries: lookups[j] },
    )
}

/// The listing of the queries of the arguments of a circuit.
pub open spec fn circuit_open_steps<F, P>(
    circuit: int,
    openings: CircuitOpenings<F>,
    x: F,
) -> Seq<Step<F, P>> {
    seq![
        Step::PermutationOpened {
            slot: Slot { circuit, lookup: 0 },
            x,
            queries: openings.permutation,
        },
    ] + lookup_open_steps(circuit, openings.lookups, x)
}

/// The listing of the queries of the arguments of each circuit.
pub open spec fn open_steps<F, P>(openings: Seq<CircuitOpenings<F>>, x: F) -> spec_fn(int) -> Seq<
    Step<F, P>,
> {
    |i: int| circuit_open_steps(i, openings[i], x)
}

/// The coefficients of the instance columns of each circuit.
pub open spec fn instance_polys_of<F>(instance: Seq<InstanceSingle<F>>) -> Seq<Seq<Seq<F>>> {
    instance.map_values(|single: InstanceSingle<F>| channel::values_of(single.instance_polys@))
}

/// The steps from the first challenge to the products of the lookups.
pub open spec fn product_commit_steps<F, P>(
    pk: &ProvingKey<F>,
    instance: Seq<InstanceSingle<F>>,
    advice: Seq<AdviceCommitted<F, LagrangeCoeff>>,
    challenges: Seq<F>,
    theta: F,
    beta: F,
    gamma: F,
) -> Seq<Step<F, P>> {
    seq![Step::Squeeze(theta)] + for_circuits(
        instance.len(),
        permuted_steps(pk, theta, instance, advice, challenges),
    ) + seq![Step::Squeeze(beta), Step::Squeeze(gamma)] + permutation_steps(
        pk,
        instance,
        advice,
        beta,
        gamma,
    ) + for_circuits(instance.len(), product_steps(&pk.vk.cs, beta, gamma))
}

/// The steps that commit to the quotient polynomial.
pub open spec fn vanishing_steps<F, P>(
    pk: &ProvingKey<F>,
    instance: Seq<InstanceSingle<F>>,
    challenges: Seq<F>,
    record: QuotientRecord<F>,
) -> Seq<Step<F, P>> {
    seq![
        Step::VanishingCommitted,
        Step::Squeeze(record.y),
        Step::Quotient {
            advice_polys: record.advice_polys,
            instance_polys: instance_polys_of(instance),
            challenges,
            y: record.y,
            beta: record.beta,
            gamma: record.gamma,
            theta: record.theta,
            lookups: all_lookup_slots(instance.len(), pk.vk.cs.num_lookups as nat),
            permutations: permutation_slots(instance.len()),
            h: record.h,
        },
        Step::VanishingConstructed { h: record.h },
    ]
}

/// The steps from the first challenge to the quotient polynomial.
pub open spec fn quotient_steps<F, P>(
    pk: &ProvingKey<F>,
    instance: Seq<InstanceSingle<F>>,
    advice: Seq<AdviceCommitted<F, LagrangeCoeff>>,
    challenges: Seq<F>,
    record: QuotientRecord<F>,
) -> Seq<Step<F, P>> {
    product_commit_steps(
        pk,
        instance,
        advice,
        challenges,
        record.theta,
        record.beta,
        record.gamma,
    ) + vanishing_steps(pk, instance, challenges, record)
}

/// The run was stopped between the first challenge and the products of the
/// lookups.
pub open spec fn stops_in_products<F, P>(
    pk: &ProvingKey<F>,
    instance: Seq<InstanceSingle<F>>,
    advice: Seq<AdviceCommitted<F, LagrangeCoeff>>,
    challenges: Seq<F>,
    before: Seq<Step<F, P>>,
    after: Seq<Step<F, P>>,
) -> bool {
    exists|theta: F, beta: F, gamma: F|
        channel::stops_in(
            before,
            #[trigger] product_commit_steps(
                pk,
                instance,
                advice,
                challenges,
                theta,
                beta,
                gamma,
            ),
            after,
        )
}

/// The run was stopped between the first challenge and the commitment to the
/// polynomial that blinds the quotient.
pub open spec fn stops_before_quotient<F, P>(
    pk: &ProvingKey<F>,
    instance: Seq<InstanceSingle<F>>,
    advice: Seq<AdviceCommitted<F, LagrangeCoeff>>,
    challenges: Seq<F>,
    before: Seq<Step<F, P>>,
    after: Seq<Step<F, P>>,
) -> bool {
    exists|theta: F, beta: F, gamma: F|
        channel::stops_in(
            before,
            #[trigger] product_commit_steps(
                pk,
                instance,
                advice,
                challenges,
                theta,
                beta,
                gamma,
            ) + seq![Step::VanishingCommitted],
            after,
        )
}

/// Stopping at the products is stopping before the quotient.
pub proof fn lemma_stops_in_products<F, P>(
    pk: &ProvingKey<F>,
    instance: Seq<InstanceSingle<F>>,
    advice: Seq<AdviceCommitted<F, LagrangeCoeff>>,
    challenges: Seq<F>,
    before: Seq<Step<F, P>>,
    after: Seq<Step<F, P>>,
)
    requires
        stops_in_products(pk, instance, advice, challenges, before, after),
    ensures
        stops_before_quotient(pk, instance, advice, challenges, before, after),
{
    let (theta, beta, gamma) = choose|theta: F, beta: F, gamma: F|
        channel::stops_in(
            before,
            #[trigger] product_commit_steps(
                pk,
                instance,
                advice,
                challenges,
                theta,
                beta,
                gamma,
            ),
            after,
        );
    channel::lemma_stops_earlier(
        before,
        product_commit_steps(pk, instance, advice, challenges, theta, beta, gamma),
        seq![Step::VanishingCommitted],
        after,
    );
}

/// The run was stopped between the first challenge and the quotient
/// polynomial.
pub open spec fn stops_in_quotient<F: Field, P>(
    pk: &ProvingKey<F>,
    instance: Seq<InstanceSingle<F>>,
    advice: Seq<AdviceCommitted<F, LagrangeCoeff>>,
    challenges: Seq<F>,
    before: Seq<Step<F, P>>,
    after: Seq<Step<F, P>>,
) -> bool {
    ||| stops_before_quotient(pk, instance, advice, challenges, before, after)
    ||| exists|record: QuotientRecord<F>|
        {
            &&& #[trigger] advice_interpolated(&pk.vk.domain, advice, record.advice_polys)
            &&& channel::stops_in(
                before,
                quotient_steps(pk, instance, advice, challenges, record),
                after,
            )
        }
}

/// The steps that choose a challenge and evaluate instance columns at it.
pub open spec fn instance_eval_steps<F, P>(
    query_instance: bool,
    circuits: nat,
    x: F,
    evals: Seq<Seq<F>>,
) -> Seq<Step<F, P>> {
    seq![Step::Squeeze(x)] + (if query_instance {
        for_circuits(circuits, eval_steps(evals))
    } else {
        Seq::empty()
    })
}

/// The steps that evaluate columns at a challenge.
pub open spec fn column_eval_steps<F, P>(
    query_instance: bool,
    circuits: nat,
    record: EvaluationRecord<F>,
) -> Seq<Step<F, P>> {
    instance_eval_steps(query_instance, circuits, record.x, record.instance_evals) + for_circuits(
        circuits,
        eval_steps(record.advice_evals),
    ) + write_scalar_steps(record.fixed_evals)
}

/// The steps that evaluate the arguments at a challenge.
pub open spec fn argument_eval_steps<F, P>(
    cs: &ConstraintSystem,
    circuits: nat,
    x: F,
    xn: F,
) -> Seq<Step<F, P>> {
    seq![
        Step::VanishingEvaluated { x, xn },
        Step::CommonPermutationEvaluated { x },
    ] + permutation_eval_steps(circuits, x) + for_circuits(circuits, lookup_eval_steps(cs, x))
}

/// The steps that evaluate polynomials at a challenge.
pub open spec fn evaluation_steps<F, P>(
    cs: &ConstraintSystem,
    query_instance: bool,
    circuits: nat,
    record: EvaluationRecord<F>,
) -> Seq<Step<F, P>> {
    column_eval_steps(query_instance, circuits, record) + argument_eval_steps(
        cs,
        circuits,
        record.x,
        record.xn,
    )
}

/// The steps that open polynomials.
pub open spec fn opening_steps<F, P>(
    circuits: nat,
    x: F,
    record: OpeningRecord<F>,
) -> Seq<Step<F, P>> {
    for_circuits(circuits, open_steps(record.circuits, x)) + seq![
        Step::CommonPermutationOpened { x, queries: record.common },
        Step::VanishingOpened { x, queries: record.vanishing },
        Step::MultiOpen { queries: proof_queries(record) },
    ]
}

/// The steps of a proof once the columns of the circuits have been committed
/// to.
pub open spec fn proof_steps<F, P>(
    pk: &ProvingKey<F>,
    query_instance: bool,
    instance: Seq<InstanceSingle<F>>,
    advice: Seq<AdviceCommitted<F, LagrangeCoeff>>,
    challenges: Seq<F>,
    record: ProofRecord<F>,
) -> Seq<Step<F, P>> {
    quotient_steps(pk, instance, advice, challenges, record.quotient) + evaluation_steps(
        &pk.vk.cs,
        query_instance,
        instance.len(),
        record.evaluation,
    ) + opening_steps(instance.len(), record.evaluation.x, record.opening)
}

/// The coefficients of the columns take the values that were committed to.
pub open spec fn advice_interpolated<F: Field>(
    domain: &EvaluationDomain<F>,
    advice: Seq<AdviceCommitted<F, LagrangeCoeff>>,
    polys: Seq<Seq<Seq<F>>>,
) -> bool {
    &&& polys.len() == advice.len()
    &&& forall|i: int|
        0 <= i < polys.len() ==> column_polys_interpolate(
            domain,
            channel::values_of(advice[i].advice_polys@),
            #[trigger] polys[i],
        )
}

/// The coefficients of each column take its values on the domain.
pub open spec fn column_polys_interpolate<F: Field>(
    domain: &EvaluationDomain<F>,
    values: Seq<Seq<F>>,
    polys: Seq<Seq<F>>,
) -> bool {
    &&& polys.len() == values.len()
    &&& forall|c: int|
        0 <= c < polys.len() ==> domain::interpolates(
            field::values_of(#[trigger] polys[c]),
            field::values_of(values[c]),
            domain.omega.value(),
            F::modulus(),
        )
}

/// The openings of a circuit are those that its queries ask for.
pub open spec fn circuit_opened<F: Field>(
    pk: &ProvingKey<F>,
    query_instance: bool,
    instance_polys: Seq<Seq<F>>,
    advice_polys: Seq<Seq<F>>,
    advice_blinds: Seq<F>,
    x: F,
    openings: CircuitOpenings<F>,
) -> bool {
    &&& if query_instance {
        are_queries(
            &pk.vk.domain,
            pk.vk.cs.instance_queries@,
            instance_polys,
            None,
            x,
            openings.instance,
        )
    } else {
        openings.instance.len() == 0
    }
    &&& are_queries(
        &pk.vk.domain,
        pk.vk.cs.advice_queries@,
        advice_polys,
        Some(advice_blinds),
        x,
        openings.advice,
    )
    &&& openings.lookups.len() == pk.vk.cs.num_lookups
}

/// Each list of evaluations is that of a circuit.
pub open spec fn all_evaluated<F: Field, K>(
    domain: &EvaluationDomain<F>,
    queries: Seq<(Column<K>, Rotation)>,
    polys: Seq<Seq<Seq<F>>>,
    x: F,
    evals: Seq<Seq<F>>,
) -> bool {
    &&& evals.len() == polys.len()
    &&& forall|i: int|
        0 <= i < evals.len() ==> are_evaluations(domain, queries, polys[i], x, #[trigger] evals[i])
}

/// The evaluations are those that the queries ask for.
pub open spec fn evaluation_recorded<F: Field>(
    pk: &ProvingKey<F>,
    query_instance: bool,
    instance_polys: Seq<Seq<Seq<F>>>,
    advice_polys: Seq<Seq<Seq<F>>>,
    record: EvaluationRecord<F>,
) -> bool {
    let domain = &pk.vk.domain;
    let x = record.x;
    &&& record.xn.value() == power::pow(x.value(), domain.n as nat) % F::modulus()
    &&& query_instance ==> all_evaluated(
        domain,
        pk.vk.cs.instance_queries@,
        instance_polys,
        x,
        record.instance_evals,
    )
    &&& all_evaluated(domain, pk.vk.cs.advice_queries@, advice_polys, x, record.advice_evals)
    &&& are_evaluations(
        domain,
        pk.vk.cs.fixed_queries@,
        channel::values_of(pk.fixed_polys@),
        x,
        record.fixed_evals,
    )
}

/// The openings are those that the queries ask for.
pub open spec fn opening_recorded<F: Field>(
    pk: &ProvingKey<F>,
    query_instance: bool,
    instance_polys: Seq<Seq<Seq<F>>>,
    advice_polys: Seq<Seq<Seq<F>>>,
    advice_blinds: Seq<Seq<F>>,
    x: F,
    record: OpeningRecord<F>,
) -> bool {
    &&& record.circuits.len() == instance_polys.len()
    &&& forall|i: int|
        0 <= i < record.circuits.len() ==> circuit_opened(
            pk,
            query_instance,
            instance_polys[i],
            advice_polys[i],
            advice_blinds[i],
            x,
            #[trigger] record.circuits[i],
        )
    &&& are_queries(
        &pk.vk.domain,
        pk.vk.cs.fixed_queries@,
        channel::values_of(pk.fixed_polys@),
        None,
        x,
        record.fixed,
    )
}

/// The blinds of the columns of each circuit.
pub open spec fn all_blinds_of<F, B: Basis>(advice: Seq<AdviceCommitted<F, B>>) -> Seq<Seq<F>> {
    advice.map_values(|a: AdviceCommitted<F, B>| steps::blinds_of(a.advice_blinds@))
}

/// The run was stopped in the writing of evaluations: those of the first
/// circuits, as far as it got, are the ones that the queries ask for.
pub open spec fn stops_in_evals<F: Field, P, K>(
    domain: &EvaluationDomain<F>,
    queries: Seq<(Column<K>, Rotation)>,
    polys: Seq<Seq<Seq<F>>>,
    x: F,
    before: Seq<Step<F, P>>,
    after: Seq<Step<F, P>>,
) -> bool {
    exists|evals: Seq<Seq<F>>|
        {
            &&& evals.len() <= polys.len()
            &&& #[trigger] all_evaluated(
                domain,
                queries,
                polys.take(evals.len() as int),
                x,
                evals,
            )
            &&& channel::stops_in(before, for_circuits(evals.len(), eval_steps(evals)), after)
        }
}

/// The run was stopped in the writing of the values of instance columns.
pub open spec fn stops_in_instance_evals<F: Field, P>(
    pk: &ProvingKey<F>,
    instance_polys: Seq<Seq<Seq<F>>>,
    before: Seq<Step<F, P>>,
    after: Seq<Step<F, P>>,
) -> bool {
    exists|x: F| #[trigger]
        stops_in_evals(
            &pk.vk.domain,
            pk.vk.cs.instance_queries@,
            instance_polys,
            x,
            before + seq![Step::Squeeze(x)],
            after,
        )
}

/// The run was stopped in the writing of the values of advice columns.
pub open spec fn stops_in_advice_evals<F: Field, P>(
    pk: &ProvingKey<F>,
    query_instance: bool,
    instance_polys: Seq<Seq<Seq<F>>>,
    advice_polys: Seq<Seq<Seq<F>>>,
    before: Seq<Step<F, P>>,
    after: Seq<Step<F, P>>,
) -> bool {
    exists|x: F, instance_evals: Seq<Seq<F>>|
        {
            &&& query_instance ==> all_evaluated(
                &pk.vk.domain,
                pk.vk.cs.instance_queries@,
                instance_polys,
                x,
                instance_evals,
            )
            &&& stops_in_evals(
                &pk.vk.domain,
                pk.vk.cs.advice_queries@,
                advice_polys,
                x,
                before + #[trigger] instance_eval_steps(
                    query_instance,
                    instance_polys.len(),
                    x,
                    instance_evals,
                ),
                after,
            )
        }
}

/// The run was stopped in the evaluation of columns.
pub open spec fn stops_in_column_evals<F: Field, P>(
    pk: &ProvingKey<F>,
    query_instance: bool,
    instance_polys: Seq<Seq<Seq<F>>>,
    advice_polys: Seq<Seq<Seq<F>>>,
    before: Seq<Step<F, P>>,
    after: Seq<Step<F, P>>,
) -> bool {
    ||| query_instance && stops_in_instance_evals(pk, instance_polys, before, after)
    ||| stops_in_advice_evals(pk, query_instance, instance_polys, advice_polys, before, after)
    ||| exists|record: EvaluationRecord<F>|
        {
            &&& #[trigger] evaluation_recorded(
                pk,
                query_instance,
                instance_polys,
                advice_polys,
                record,
            )
            &&& channel::stops_in(
                before,
                column_eval_steps(query_instance, instance_polys.len(), record),
                after,
            )
        }
}

/// The run was stopped in the opening of polynomials.
pub open spec fn stops_in_opening<F: Field, P>(
    pk: &ProvingKey<F>,
    query_instance: bool,
    instance_polys: Seq<Seq<Seq<F>>>,
    advice_polys: Seq<Seq<Seq<F>>>,
    advice_blinds: Seq<Seq<F>>,
    x: F,
    before: Seq<Step<F, P>>,
    after: Seq<Step<F, P>>,
) -> bool {
    exists|record: OpeningRecord<F>|
        {
            &&& #[trigger] opening_recorded(
                pk,
                query_instance,
                instance_polys,
                advice_polys,
                advice_blinds,
                x,
                record,
            )
            &&& channel::fails_last(
                before,
                opening_steps(instance_polys.len(), x, record),
                after,
            )
        }
}

/// What came up in a proof is what the protocol asks for.
pub open spec fn proof_recorded<F: Field>(
    pk: &ProvingKey<F>,
    query_instance: bool,
    instance: Seq<InstanceSingle<F>>,
    advice: Seq<AdviceCommitted<F, LagrangeCoeff>>,
    record: ProofRecord<F>,
) -> bool {
    &&& advice_interpolated(&pk.vk.domain, advice, record.quotient.advice_polys)
    &&& evaluation_recorded(
        pk,
        query_instance,
        instance_polys_of(instance),
        record.quotient.advice_polys,
        record.evaluation,
    )
    &&& opening_recorded(
        pk,
        query_instance,
        instance_polys_of(instance),
        record.quotient.advice_polys,
        all_blinds_of(advice),
        record.evaluation.x,
        record.opening,
    )
}

/// The steps that took a channel from `before` to `after` are those of a proof
/// for committed columns, and no others.
pub open spec fn is_proof<F: Field, P>(
    pk: &ProvingKey<F>,
    query_instance: bool,
    instance: Seq<InstanceSingle<F>>,
    advice: Seq<AdviceCommitted<F, LagrangeCoeff>>,
    challenges: Seq<F>,
    before: Seq<Step<F, P>>,
    after: Seq<Step<F, P>>,
) -> bool {
    exists|record: ProofRecord<F>|
        {
            &&& #[trigger] proof_recorded(pk, query_instance, instance, advice, record)
            &&& after == before + proof_steps(
                pk,
                query_instance,
                instance,
                advice,
                challenges,
                record,
            )
        }
}

/// The run was stopped in the evaluation of polynomials.
pub open spec fn stops_in_evaluation<F: Field, P>(
    pk: &ProvingKey<F>,
    query_instance: bool,
    instance_polys: Seq<Seq<Seq<F>>>,
    advice_polys: Seq<Seq<Seq<F>>>,
    before: Seq<Step<F, P>>,
    after: Seq<Step<F, P>>,
) -> bool {
    ||| stops_in_column_evals(pk, query_instance, instance_polys, advice_polys, before, after)
    ||| exists|record: EvaluationRecord<F>|
        {
            &&& #[trigger] evaluation_recorded(
                pk,
                query_instance,
                instance_polys,
                advice_polys,
                record,
            )
            &&& channel::stops_in(
                before + column_eval_steps(query_instance, instance_polys.len(), record),
                argument_eval_steps(&pk.vk.cs, instance_polys.len(), record.x, record.xn),
                after,
            )
        }
}

/// The steps that took a channel from `before` to `after` are the first ones of
/// a proof for committed columns, and the next one failed.
pub open spec fn is_stopped_proof<F: Field, P>(
    pk: &ProvingKey<F>,
    query_instance: bool,
    instance: Seq<InstanceSingle<F>>,
    advice: Seq<AdviceCommitted<F, LagrangeCoeff>>,
    challenges: Seq<F>,
    before: Seq<Step<F, P>>,
    after: Seq<Step<F, P>>,
) -> bool {
    ||| stops_in_quotient(pk, instance, advice, challenges, before, after)
    ||| exists|record: QuotientRecord<F>|
        {
            &&& #[trigger] advice_interpolated(&pk.vk.domain, advice, record.advice_polys)
            &&& stops_in_evaluation(
                pk,
                query_instance,
                instance_polys_of(instance),
                record.advice_polys,
                before + quotient_steps(pk, instance, advice, challenges, record),
                after,
            )
        }
    ||| exists|record: ProofRecord<F>|
        {
            &&& #[trigger] proof_recorded(pk, query_instance, instance, advice, record)
            &&& channel::fails_last(
                before,
                proof_steps(pk, query_instance, instance, advice, challenges, record),
                after,
            )
        }
}

/// Stopping in the evaluation of columns is stopping in a proof.
pub proof fn lemma_stopped_in_columns<F: Field, P>(
    pk: &ProvingKey<F>,
    query_instance: bool,
    instance: Seq<InstanceSingle<F>>,
    advice: Seq<AdviceCommitted<F, LagrangeCoeff>>,
    challenges: Seq<F>,
    record: QuotientRecord<F>,
    before: Seq<Step<F, P>>,
    after: Seq<Step<F, P>>,
)
    requires
        advice_interpolated(&pk.vk.domain, advice, record.advice_polys),
        stops_in_column_evals(
            pk,
            query_instance,
            instance_polys_of(instance),
            record.advice_polys,
            before + quotient_steps(pk, instance, advice, challenges, record),
            after,
        ),
    ensures
        is_stopped_proof(pk, query_instance, instance, advice, challenges, before, after),
{
}

/// Stopping in the evaluation of the arguments is stopping in a proof.
pub proof fn lemma_stopped_in_arguments<F: Field, P>(
    pk: &ProvingKey<F>,
    query_instance: bool,
    instance: Seq<InstanceSingle<F>>,
    advice: Seq<AdviceCommitted<F, LagrangeCoeff>>,
    challenges: Seq<F>,
    record: QuotientRecord<F>,
    evaluation: EvaluationRecord<F>,
    before: Seq<Step<F, P>>,
    after: Seq<Step<F, P>>,
)
    requires
        advice_interpolated(&pk.vk.domain, advice, record.advice_polys),
        evaluation_recorded(
            pk,
            query_instance,
            instance_polys_of(instance),
            record.advice_polys,
            evaluation,
        ),
        channel::stops_in(
            before + quotient_steps(pk, instance, advice, challenges, record) + column_eval_steps(
                query_instance,
                instance.len(),
                evaluation,
            ),
            argument_eval_steps(&pk.vk.cs, instance.len(), evaluation.x, evaluation.xn),
            after,
        ),
    ensures
        is_stopped_proof(pk, query_instance, instance, advice, challenges, before, after),
{
    assert(instance_polys_of(instance).len() == instance.len());
    assert(stops_in_evaluation(
        pk,
        query_instance,
        instance_polys_of(instance),
        record.advice_polys,
        before + quotient_steps(pk, instance, advice, challenges, record),
        after,
    ));
}

/// Stopping in the opening of polynomials is stopping in a proof.
pub proof fn lemma_stopped_in_opening<F: Field, P>(
    pk: &ProvingKey<F>,
    query_instance: bool,
    instance: Seq<InstanceSingle<F>>,
    advice: Seq<AdviceCommitted<F, LagrangeCoeff>>,
    challenges: Seq<F>,
    record: QuotientRecord<F>,
    evaluation: EvaluationRecord<F>,
    before: Seq<Step<F, P>>,
    after: Seq<Step<F, P>>,
)
    requires
        advice_interpolated(&pk.vk.domain, advice, record.advice_polys),
        evaluation_recorded(
            pk,
            query_instance,
            instance_polys_of(instance),
            record.advice_polys,
            evaluation,
        ),
        stops_in_opening(
            pk,
            query_instance,
            instance_polys_of(instance),
            record.advice_polys,
            all_blinds_of(advice),
            evaluation.x,
            before + quotient_steps(pk, instance, advice, challenges, record) + evaluation_steps(
                &pk.vk.cs,
                query_instance,
                instance.len(),
                evaluation,
            ),
            after,
        ),
    ensures
        is_stopped_proof(pk, query_instance, instance, advice, challenges, before, after),
{
    let instance_polys = instance_polys_of(instance);
    assert(instance_polys.len() == instance.len());
    let quotient = quotient_steps::<F, P>(pk, instance, advice, challenges, record);
    let evaluated = evaluation_steps::<F, P>(
        &pk.vk.cs,
        query_instance,
        instance.len(),
        evaluation,
    );
    let opening = choose|opening: OpeningRecord<F>|
        {
            &&& #[trigger] opening_recorded(
                pk,
                query_instance,
                instance_polys,
                record.advice_polys,
                all_blinds_of(advice),
                evaluation.x,
                opening,
            )
            &&& channel::fails_last(
                before + quotient + evaluated,
                opening_steps(instance_polys.len(), evaluation.x, opening),
                after,
            )
        };
    let all = ProofRecord { quotient: record, evaluation, opening };
    let opened = opening_steps::<F, P>(instance.len(), evaluation.x, opening);
    assert(before + (quotient + evaluated) =~= before + quotient + evaluated);
    channel::lemma_stops_later(before, quotient + evaluated, opened, after);
    assert(proof_recorded(pk, query_instance, instance, advice, all));
    assert(channel::fails_last(
        before,
        proof_steps(pk, query_instance, instance, advice, challenges, all),
        after,
    ));
}

} // verus!
