//! Evaluation and opening of the queried columns.

use super::channel;
use super::channel::{Arguments, Channel, Stage, Step};
use super::circuit;
use super::circuit::Column;
use super::protocol;
use super::protocol::{CircuitOpenings, EvaluationRecord, OpeningRecord};
use super::stages;
use super::stages::Stages;
use super::steps;
use super::witness;
use super::witness::{all_to_coeff, AdviceCommitted, InstanceSingle};
use super::{Error, ProvingKey};
use crate::arithmetic::eval_polynomial;
use crate::field;
use crate::field::Field;
use crate::poly::commitment;
use crate::poly::commitment::{Blind, Prover, ProverQuery, Query};
use crate::poly::domain;
use crate::poly::{Coeff, EvaluationDomain, LagrangeCoeff, Polynomial, Rotation};
use crate::rng::RandomSource;
use crate::transcript::TranscriptWrite;
use vstd::prelude::*;

verus! {

broadcast use {
    channel::group_channel,
    channel::group_ways,
    channel::lemma_stops_at,
    stages::group_stages,
};

/// The coefficients of the committed columns of each circuit.
pub open spec fn coeffs_of<F>(advice: Seq<AdviceCommitted<F, Coeff>>) -> Seq<Seq<Seq<F>>> {
    advice.map_values(|a: AdviceCommitted<F, Coeff>| channel::values_of(a.advice_polys@))
}

/// Calculates the coefficients of committed columns, which keep their blinds.
pub(crate) fn into_coeffs<F: Field>(
    pk: &ProvingKey<F>,
    advice: Vec<AdviceCommitted<F, LagrangeCoeff>>,
) -> (r: Vec<AdviceCommitted<F, Coeff>>)
    requires
        pk.vk.domain.wf(),
        forall|i: int|
            0 <= i < advice@.len() ==> witness::advice_fits(
                &pk.vk.cs,
                pk.vk.domain.n,
                #[trigger] advice@[i],
            ),
    ensures
        protocol::advice_interpolated(&pk.vk.domain, advice@, coeffs_of(r@)),
        r@.len() == advice@.len(),
        forall|i: int|
            0 <= i < r@.len() ==> (#[trigger] r@[i]).advice_blinds == advice@[i].advice_blinds
                && witness::same_shape(&pk.vk.cs, r@[i]),
{
    let ghost given = advice@;
    let mut r: Vec<AdviceCommitted<F, Coeff>> = Vec::new();
    for single in iter: advice.into_iter()
        invariant
            pk.vk.domain.wf(),
            forall|i: int|
                0 <= i < given.len() ==> witness::advice_fits(
                    &pk.vk.cs,
                    pk.vk.domain.n,
                    #[trigger] given[i],
                ),
            iter.seq() == given,
            r@.len() == iter.index(),
            forall|i: int|
                0 <= i < r@.len() ==> (#[trigger] r@[i]).advice_blinds == given[i].advice_blinds
                    && witness::same_shape(&pk.vk.cs, r@[i])
                    && protocol::column_polys_interpolate(
                    &pk.vk.domain,
                    channel::values_of(given[i].advice_polys@),
                    channel::values_of(r@[i].advice_polys@),
                ),
    {
        let ghost i = iter.index();
        assert(single == given[i]);
        let advice_polys = all_to_coeff(&pk.vk.domain, &single.advice_polys);
        proof {
            let polys = channel::values_of(advice_polys@);
            let values = channel::values_of(given[i].advice_polys@);
            assert forall|c: int| 0 <= c < polys.len() implies domain::interpolates(
                field::values_of(#[trigger] polys[c]),
                field::values_of(values[c]),
                pk.vk.domain.omega.value(),
                F::modulus(),
            ) by {
                assert(advice_polys@[c]@ == polys[c]);
            }
        }
        r.push(AdviceCommitted { advice_polys, advice_blinds: single.advice_blinds });
    }
    assert forall|i: int| 0 <= i < r@.len() implies protocol::column_polys_interpolate(
        &pk.vk.domain,
        channel::values_of(given[i].advice_polys@),
        #[trigger] coeffs_of(r@)[i],
    ) by {
        assert(r@[i].advice_blinds == given[i].advice_blinds);
    }
    r
}

/// The coefficients of the advice columns of each circuit, as slices.
pub(crate) fn advice_slices<F: Field>(advice: &Vec<AdviceCommitted<F, Coeff>>) -> (r: Vec<
    &[Polynomial<F, Coeff>],
>)
    ensures
        r@.len() == advice@.len(),
        forall|k: int| 0 <= k < r@.len() ==> (#[trigger] r@[k])@ == advice@[k].advice_polys@,
        channel::all_values_of(r@) == coeffs_of(advice@),
{
    let mut r: Vec<&[Polynomial<F, Coeff>]> = Vec::new();
    let mut i: usize = 0;
    while i < advice.len()
        invariant
            i <= advice@.len(),
            r@.len() == i,
            forall|k: int| 0 <= k < i ==> (#[trigger] r@[k])@ == advice@[k].advice_polys@,
        decreases advice@.len() - i,
    {
        r.push(advice[i].advice_polys.as_slice());
        i += 1;
    }
    assert(channel::all_values_of(r@) =~= coeffs_of(advice@));
    r
}

/// The coefficients of the instance columns of each circuit, as slices.
pub(crate) fn instance_slices<F: Field>(instance: &Vec<InstanceSingle<F>>) -> (r: Vec<
    &[Polynomial<F, Coeff>],
>)
    ensures
        r@.len() == instance@.len(),
        forall|k: int| 0 <= k < r@.len() ==> (#[trigger] r@[k])@ == instance@[k].instance_polys@,
        channel::all_values_of(r@) == protocol::instance_polys_of(instance@),
{
    let mut r: Vec<&[Polynomial<F, Coeff>]> = Vec::new();
    let mut i: usize = 0;
    while i < instance.len()
        invariant
            i <= instance@.len(),
            r@.len() == i,
            forall|k: int| 0 <= k < i ==> (#[trigger] r@[k])@ == instance@[k].instance_polys@,
        decreases instance@.len() - i,
    {
        r.push(instance[i].instance_polys.as_slice());
        i += 1;
    }
    assert(channel::all_values_of(r@) =~= protocol::instance_polys_of(instance@));
    r
}

/// The values of the queried columns at `x`, rotated as each query asks for.
fn column_evals<F: Field, K: Copy>(
    domain: &EvaluationDomain<F>,
    queries: &Vec<(Column<K>, Rotation)>,
    polys: &[Polynomial<F, Coeff>],
    x: F,
) -> (r: Vec<F>)
    requires
        circuit::queries_in_range(queries@, polys@.len() as int),
    ensures
        protocol::are_evaluations(domain, queries@, channel::values_of(polys@), x, r@),
{
    let mut r: Vec<F> = Vec::new();
    let mut i: usize = 0;
    while i < queries.len()
        invariant
            circuit::queries_in_range(queries@, polys@.len() as int),
            i <= queries@.len(),
            protocol::are_evaluations(
                domain,
                queries@.take(i as int),
                channel::values_of(polys@),
                x,
                r@,
            ),
        decreases queries@.len() - i,
    {
        let (column, at) = queries[i];
        assert(queries@[i as int].0.index < polys@.len());
        r.push(eval_polynomial(polys[column.index()].values(), domain.rotate_omega(x, at)));
        i += 1;
    }
    assert(queries@.take(i as int) =~= queries@);
    r
}

/// Writes each of the scalars.
fn write_evals<F, P, T, R>(evals: &Vec<F>, channel: &mut Channel<F, P, T, R>) -> (r: Result<
    (),
    Error,
>) where F: Field, T: TranscriptWrite<F, P>, R: RandomSource<F>
    ensures
        r is Ok ==> final(channel).trace() == old(channel).trace()
            + protocol::write_scalar_steps(evals@),
        r is Ok ==> old(channel).goes_on(final(channel), channel::plainly()),
        r matches Err(e) ==> {
            &&& old(channel).breaks_off(final(channel), channel::plainly(), e)
            &&& channel::stops_in(
                old(channel).trace(),
                protocol::write_scalar_steps(evals@),
                final(channel).trace(),
            )
        },
{
    let ghost before = channel.trace();
    let ghost part = protocol::write_scalar_steps::<F, P>(evals@);
    let mut i: usize = 0;
    assert(before + part.take(0) =~= before);
    while i < evals.len()
        invariant
            before == old(channel).trace(),
            old(channel).goes_on(channel, channel::plainly()),
            part == protocol::write_scalar_steps::<F, P>(evals@),
            i <= evals@.len(),
            channel.trace() == before + part.take(i as int),
        decreases evals@.len() - i,
    {
        channel.write_scalar(evals[i])?;
        assert(before + part.take(i + 1) =~= (before + part.take(i as int)).push(part[i as int]));
        i += 1;
    }
    assert(part.take(i as int) =~= part);
    Ok(())
}

/// The openings of the queried columns, under the given blinds, or under the
/// default one if none are given.
fn column_queries<'a, F: Field, K: Copy>(
    domain: &EvaluationDomain<F>,
    queries: &Vec<(Column<K>, Rotation)>,
    polys: &'a Vec<Polynomial<F, Coeff>>,
    blinds: Option<&Vec<Blind<F>>>,
    x: F,
) -> (r: Vec<ProverQuery<'a, F>>)
    requires
        circuit::queries_in_range(queries@, polys@.len() as int),
        blinds matches Some(b) ==> b@.len() == polys@.len(),
    ensures
        protocol::are_queries(
            domain,
            queries@,
            channel::values_of(polys@),
            match blinds {
                Some(b) => Some(steps::blinds_of(b@)),
                None => None,
            },
            x,
            commitment::queries_of(r@),
        ),
{
    let ghost spec_blinds = match blinds {
        Some(b) => Some(steps::blinds_of(b@)),
        None => None,
    };
    let mut r: Vec<ProverQuery<'a, F>> = Vec::new();
    let mut i: usize = 0;
    while i < queries.len()
        invariant
            circuit::queries_in_range(queries@, polys@.len() as int),
            blinds matches Some(b) ==> b@.len() == polys@.len(),
            spec_blinds == (match blinds {
                Some(b) => Some(steps::blinds_of(b@)),
                None => None,
            }),
            i <= queries@.len(),
            protocol::are_queries(
                domain,
                queries@.take(i as int),
                channel::values_of(polys@),
                spec_blinds,
                x,
                commitment::queries_of(r@),
            ),
        decreases queries@.len() - i,
    {
        let ghost old_opened = commitment::queries_of(r@);
        let (column, at) = queries[i];
        assert(queries@[i as int].0.index < polys@.len());
        let blind = match blinds {
            Some(b) => b[column.index()],
            None => Blind::default(),
        };
        let query = ProverQuery {
            point: domain.rotate_omega(x, at),
            poly: &polys[column.index()],
            blind,
        };
        r.push(query);
        assert(commitment::queries_of(r@) =~= old_opened.push(query@));
        i += 1;
    }
    assert(queries@.take(i as int) =~= queries@);
    r
}

/// Writes the values of the queried columns of each circuit.
fn write_column_evals<F, P, T, R, K>(
    domain: &EvaluationDomain<F>,
    queries: &Vec<(Column<K>, Rotation)>,
    polys: &Vec<&[Polynomial<F, Coeff>]>,
    x: F,
    channel: &mut Channel<F, P, T, R>,
) -> (r: Result<Ghost<Seq<Seq<F>>>, Error>) where
    F: Field,
    T: TranscriptWrite<F, P>,
    R: RandomSource<F>,
    K: Copy,

    requires
        forall|i: int|
            0 <= i < polys@.len() ==> circuit::queries_in_range(
                queries@,
                (#[trigger] polys@[i])@.len() as int,
            ),
    ensures
        r matches Ok(evals) ==> {
            &&& protocol::all_evaluated(
                domain,
                queries@,
                channel::all_values_of(polys@),
                x,
                evals@,
            )
            &&& final(channel).trace() == old(channel).trace() + protocol::for_circuits(
                polys@.len(),
                protocol::eval_steps(evals@),
            )
        },
        r is Ok ==> old(channel).goes_on(final(channel), channel::plainly()),
        r matches Err(e) ==> {
            &&& old(channel).breaks_off(final(channel), channel::plainly(), e)
            &&& protocol::stops_in_evals(
                domain,
                queries@,
                channel::all_values_of(polys@),
                x,
                old(channel).trace(),
                final(channel).trace(),
            )
        },
{
    let ghost before = channel.trace();
    let ghost all = channel::all_values_of(polys@);
    let ghost mut evals: Seq<Seq<F>> = Seq::empty();
    let mut i: usize = 0;
    assert(before + Seq::empty() =~= before);
    while i < polys.len()
        invariant
            forall|i: int|
                0 <= i < polys@.len() ==> circuit::queries_in_range(
                    queries@,
                    (#[trigger] polys@[i])@.len() as int,
                ),
            before == old(channel).trace(),
            old(channel).goes_on(channel, channel::plainly()),
            all == channel::all_values_of(polys@),
            i <= polys@.len(),
            evals.len() == i,
            forall|k: int|
                0 <= k < i ==> protocol::are_evaluations(
                    domain,
                    queries@,
                    all[k],
                    x,
                    #[trigger] evals[k],
                ),
            channel.trace() == before + protocol::for_circuits(
                i as nat,
                protocol::eval_steps(evals),
            ),
        decreases polys@.len() - i,
    {
        let ghost old_evals = evals;
        let ghost start = channel.trace();
        assert(all[i as int] == channel::values_of(polys@[i as int]@));
        let circuit_evals = column_evals(domain, queries, polys[i], x);
        let written = write_evals(&circuit_evals, channel);
        proof {
            evals = evals.push(circuit_evals@);
            let f = protocol::eval_steps::<F, P>(old_evals);
            let g = protocol::eval_steps::<F, P>(evals);
            protocol::lemma_for_circuits(i as nat, f, g);
            assert(g(i as int) == protocol::write_scalar_steps::<F, P>(circuit_evals@));
            if written is Err {
                protocol::lemma_stops_in_circuit(
                    before,
                    g,
                    i as int,
                    (i + 1) as nat,
                    channel.trace(),
                );
                assert(protocol::all_evaluated(
                    domain,
                    queries@,
                    all.take(evals.len() as int),
                    x,
                    evals,
                ));
            }
        }
        written?;
        proof {
            let g = protocol::eval_steps::<F, P>(evals);
            assert(channel.trace() =~= before + protocol::for_circuits((i + 1) as nat, g));
        }
        i += 1;
    }
    Ok(Ghost(evals))
}

/// Lists the openings of a circuit: those of the instance columns if they are
/// queried, then those of the advice columns, of the permutation argument and
/// of each lookup.
fn open_circuit<'a, F, P, T, R, A>(
    pk: &ProvingKey<F>,
    arguments: &'a A,
    query_instance: bool,
    instance: &'a InstanceSingle<F>,
    advice: &'a AdviceCommitted<F, Coeff>,
    permutation: &'a Stage<A::PermutationEvaluated>,
    lookups: &'a Vec<Stage<A::LookupEvaluated>>,
    x: F,
    circuit: Ghost<int>,
    channel: &mut Channel<F, P, T, R>,
) -> (r: (Vec<ProverQuery<'a, F>>, Ghost<CircuitOpenings<F>>)) where
    F: Field,
    T: TranscriptWrite<F, P>,
    R: RandomSource<F>,
    A: Arguments<F, T, R>,

    requires
        circuit::queries_in_range(
            pk.vk.cs.instance_queries@,
            instance.instance_polys@.len() as int,
        ),
        circuit::queries_in_range(pk.vk.cs.advice_queries@, advice.advice_polys@.len() as int),
        advice.advice_blinds@.len() == advice.advice_polys@.len(),
        permutation.slot() == (channel::Slot { circuit: circuit@, lookup: 0 }),
        channel::slots_of(lookups@) == protocol::lookup_slots(
            circuit@,
            pk.vk.cs.num_lookups as nat,
        ),
    ensures
        protocol::circuit_opened(
            pk,
            query_instance,
            channel::values_of(instance.instance_polys@),
            channel::values_of(advice.advice_polys@),
            steps::blinds_of(advice.advice_blinds@),
            x,
            r.1@,
        ),
        commitment::queries_of(r.0@) == protocol::circuit_queries(r.1@),
        forall|v: Stages<F, T, R, A>|
            stages::holds(v.permutation_evaluated, *permutation) && stages::hold(
                v.lookup_evaluated,
                lookups@,
            ) ==> old(channel).goes_on(
                final(channel),
                #[trigger] stages::with_stages(arguments, v),
            ),
        old(channel).goes_on(final(channel), channel::with_arguments(arguments)),
        final(channel).trace() == old(channel).trace() + protocol::circuit_open_steps(
            circuit@,
            r.1@,
            x,
        ),
{
    let domain = &pk.vk.domain;
    let ghost before = channel.trace();
    let mut queries: Vec<ProverQuery<'a, F>> = Vec::new();
    if query_instance {
        queries = column_queries(
            domain,
            &pk.vk.cs.instance_queries,
            &instance.instance_polys,
            None,
            x,
        );
    }
    let ghost instance_part = commitment::queries_of(queries@);
    let mut advice_queries = column_queries(
        domain,
        &pk.vk.cs.advice_queries,
        &advice.advice_polys,
        Some(&advice.advice_blinds),
        x,
    );
    let ghost advice_part = commitment::queries_of(advice_queries@);
    queries.append(&mut advice_queries);
    let mut permutation_queries = channel.permutation_open(arguments, permutation, x);
    let ghost permutation_part = commitment::queries_of(permutation_queries@);
    proof {
        assert forall|v: Stages<F, T, R, A>|
            stages::holds(v.permutation_evaluated, *permutation) implies old(channel).goes_on(
            channel,
            #[trigger] stages::with_stages(arguments, v),
        ) by {
            stages::lemma_staged(old(channel), channel, arguments, v, channel.trace().last());
        }
    }
    queries.append(&mut permutation_queries);
    let ghost mut parts: Seq<Seq<Query<F>>> = Seq::empty();
    let ghost head = instance_part + advice_part + permutation_part;
    let ghost opened = channel.trace();
    let mut j: usize = 0;
    proof {
        assert(commitment::queries_of(queries@) =~= head + protocol::concat(parts));
        assert(lookups@.len() == channel::slots_of(lookups@).len());
    }
    assert(opened + protocol::lookup_open_steps(circuit@, parts, x) =~= opened);
    while j < lookups.len()
        invariant
            old(channel).goes_on(channel, channel::with_arguments(arguments)),
            forall|v: Stages<F, T, R, A>|
                stages::holds(v.permutation_evaluated, *permutation) && stages::hold(
                    v.lookup_evaluated,
                    lookups@,
                ) ==> old(channel).goes_on(
                    channel,
                    #[trigger] stages::with_stages(arguments, v),
                ),
            j <= lookups@.len(),
            lookups@.len() == pk.vk.cs.num_lookups,
            channel::slots_of(lookups@) == protocol::lookup_slots(
                circuit@,
                pk.vk.cs.num_lookups as nat,
            ),
            parts.len() == j,
            commitment::queries_of(queries@) == head + protocol::concat(parts),
            channel.trace() == opened + protocol::lookup_open_steps(circuit@, parts, x),
        decreases lookups@.len() - j,
    {
        let ghost old_queries = commitment::queries_of(queries@);
        let ghost old_parts = parts;
        assert(lookups@[j as int].slot() == channel::slots_of(lookups@)[j as int]);
        let ghost pre = *channel;
        let mut lookup_queries = channel.lookup_open(arguments, &lookups[j], x);
        proof {
            assert forall|v: Stages<F, T, R, A>|
                stages::holds(v.permutation_evaluated, *permutation) && stages::hold(
                    v.lookup_evaluated,
                    lookups@,
                ) implies old(channel).goes_on(
                channel,
                #[trigger] stages::with_stages(arguments, v),
            ) by {
                assert(stages::holds(v.lookup_evaluated, lookups@[j as int]));
                stages::lemma_staged(&pre, channel, arguments, v, channel.trace().last());
            }
        }
        let ghost part = commitment::queries_of(lookup_queries@);
        queries.append(&mut lookup_queries);
        proof {
            parts = parts.push(part);
            assert(parts.drop_last() =~= old_parts);
            assert(commitment::queries_of(queries@) =~= old_queries + part);
            assert(commitment::queries_of(queries@) =~= head + protocol::concat(parts));
            assert(channel.trace() =~= opened + protocol::lookup_open_steps(circuit@, parts, x));
        }
        j += 1;
    }
    let ghost openings = CircuitOpenings {
        instance: instance_part,
        advice: advice_part,
        permutation: permutation_part,
        lookups: parts,
    };
    proof {
        assert(channel.trace() =~= before + protocol::circuit_open_steps(circuit@, openings, x));
    }
    (queries, Ghost(openings))
}

/// The circuits have the columns and blinds that the queries refer to.
pub open spec fn may_query<F: Field>(
    pk: &ProvingKey<F>,
    instance: Seq<InstanceSingle<F>>,
    advice: Seq<AdviceCommitted<F, Coeff>>,
) -> bool {
    &&& pk.vk.cs.wf()
    &&& pk.fixed_polys@.len() == pk.vk.cs.num_fixed_columns
    &&& instance.len() == advice.len()
    &&& forall|i: int|
        0 <= i < instance.len() ==> (#[trigger] instance[i]).instance_polys@.len()
            == pk.vk.cs.num_instance_columns
    &&& forall|i: int|
        0 <= i < advice.len() ==> witness::same_shape(&pk.vk.cs, #[trigger] advice[i])
}

/// Evaluates columns at a challenge, and writes their values.
pub(crate) fn evaluate_columns<F, P, T, R>(
    pk: &ProvingKey<F>,
    query_instance: bool,
    instance: &Vec<InstanceSingle<F>>,
    advice: &Vec<AdviceCommitted<F, Coeff>>,
    channel: &mut Channel<F, P, T, R>,
) -> (r: Result<(F, F, Ghost<EvaluationRecord<F>>), Error>) where
    F: Field,
    T: TranscriptWrite<F, P>,
    R: RandomSource<F>,

    requires
        may_query(pk, instance@, advice@),
    ensures
        r matches Ok((x, xn, record)) ==> {
            &&& record@.x == x
            &&& record@.xn == xn
            &&& protocol::evaluation_recorded(
                pk,
                query_instance,
                protocol::instance_polys_of(instance@),
                coeffs_of(advice@),
                record@,
            )
            &&& final(channel).trace() == old(channel).trace() + protocol::column_eval_steps(
                query_instance,
                instance@.len(),
                record@,
            )
        },
        r is Ok ==> old(channel).goes_on(final(channel), channel::plainly()),
        r matches Err(e) ==> {
            &&& old(channel).breaks_off(final(channel), channel::plainly(), e)
            &&& protocol::stops_in_column_evals(
                pk,
                query_instance,
                protocol::instance_polys_of(instance@),
                coeffs_of(advice@),
                old(channel).trace(),
                final(channel).trace(),
            )
        },
{
    let meta = &pk.vk.cs;
    let domain = &pk.vk.domain;
    let ghost before = channel.trace();
    let advice_polys = advice_slices(advice);
    let instance_polys = instance_slices(instance);

    let x = channel.squeeze_challenge_scalar();
    let xn = x.pow(domain.n as u64);

    let ghost squeezed = seq![Step::<F, P>::Squeeze(x)];
    assert(before + squeezed =~= channel.trace());

    let ghost mut instance_evals: Seq<Seq<F>> = Seq::empty();
    if query_instance {
        // Compute and hash instance evals for each circuit instance
        let evals = write_column_evals(
            domain,
            &meta.instance_queries,
            &instance_polys,
            x,
            channel,
        )?;
        proof {
            instance_evals = evals@;
        }
    }
    let ghost instance_part = if query_instance {
        protocol::for_circuits(instance@.len(), protocol::eval_steps::<F, P>(instance_evals))
    } else {
        Seq::empty()
    };
    assert(protocol::instance_polys_of(instance@).len() == instance@.len());
    assert(before + protocol::instance_eval_steps::<F, P>(
        query_instance,
        instance@.len(),
        x,
        instance_evals,
    ) =~= channel.trace());
    // Compute and hash advice evals for each circuit instance
    let advice_evals = write_column_evals(
        domain,
        &meta.advice_queries,
        &advice_polys,
        x,
        channel,
    )?;
    // Compute and hash fixed evals (shared across all circuit instances)
    let fixed_evals = column_evals(domain, &meta.fixed_queries, pk.fixed_polys.as_slice(), x);
    let ghost start = channel.trace();
    let written = write_evals(&fixed_evals, channel);
    let ghost record = EvaluationRecord {
        x,
        xn,
        instance_evals,
        advice_evals: advice_evals@,
        fixed_evals: fixed_evals@,
    };
    proof {
        let part = squeezed + instance_part + protocol::for_circuits(
            instance@.len(),
            protocol::eval_steps::<F, P>(advice_evals@),
        );
        assert(before + part =~= start);
        assert(protocol::evaluation_recorded(
            pk,
            query_instance,
            protocol::instance_polys_of(instance@),
            coeffs_of(advice@),
            record,
        ));
        if written is Err {
            channel::lemma_stops_later(
                before,
                part,
                protocol::write_scalar_steps(fixed_evals@),
                channel.trace(),
            );
        } else {
            assert(channel.trace() =~= before + protocol::column_eval_steps(
                query_instance,
                instance@.len(),
                record,
            ));
        }
    }
    written?;
    Ok((x, xn, Ghost(record)))
}

/// Opens the queried polynomials of all circuits.
pub(crate) fn open_arguments<F, P, T, R, A, O>(
    pk: &ProvingKey<F>,
    arguments: &A,
    prover: &O,
    instance: &Vec<InstanceSingle<F>>,
    advice: &Vec<AdviceCommitted<F, Coeff>>,
    lookups: &Vec<Vec<Stage<A::LookupEvaluated>>>,
    permutations: &Vec<Stage<A::PermutationEvaluated>>,
    vanishing: &Stage<A::VanishingEvaluated>,
    x: F,
    channel: &mut Channel<F, P, T, R>,
) -> (r: Result<Ghost<OpeningRecord<F>>, Error>) where
    F: Field,
    T: TranscriptWrite<F, P>,
    R: RandomSource<F>,
    A: Arguments<F, T, R>,
    O: Prover<F, T, R>,

    requires
        may_query(pk, instance@, advice@),
        channel::all_slots_of(lookups@) == protocol::all_lookup_slots(
            instance@.len(),
            pk.vk.cs.num_lookups as nat,
        ),
        channel::slots_of(permutations@) == protocol::permutation_slots(instance@.len()),
    ensures
        r matches Ok(record) ==> {
            &&& protocol::opening_recorded(
                pk,
                O::QUERY_INSTANCE,
                protocol::instance_polys_of(instance@),
                coeffs_of(advice@),
                protocol::all_blinds_of(advice@),
                x,
                record@,
            )
            &&& final(channel).trace() == old(channel).trace() + protocol::opening_steps(
                instance@.len(),
                x,
                record@,
            )
        },
        r is Ok ==> forall|v: Stages<F, T, R, A>|
            {
                &&& stages::all_hold(v.lookup_evaluated, lookups@)
                &&& stages::hold(v.permutation_evaluated, permutations@)
                &&& v.vanishing_evaluated == vanishing.spec_value()
            } ==> old(channel).goes_on(
                final(channel),
                #[trigger] stages::proving(arguments, v, prover),
            ),
        r is Ok ==> old(channel).goes_on(final(channel), channel::with_prover(arguments, prover)),
        r matches Err(e) ==> {
            &&& e == Error::ConstraintSystemFailure
            &&& old(channel).breaks_off(final(channel), channel::with_prover(arguments, prover), e)
            &&& forall|v: Stages<F, T, R, A>|
                {
                    &&& stages::all_hold(v.lookup_evaluated, lookups@)
                    &&& stages::hold(v.permutation_evaluated, permutations@)
                    &&& v.vanishing_evaluated == vanishing.spec_value()
                } ==> old(channel).breaks_off(
                    final(channel),
                    #[trigger] stages::proving(arguments, v, prover),
                    e,
                )
            &&& protocol::stops_in_opening(
                pk,
                O::QUERY_INSTANCE,
                protocol::instance_polys_of(instance@),
                coeffs_of(advice@),
                protocol::all_blinds_of(advice@),
                x,
                old(channel).trace(),
                final(channel).trace(),
            )
        },
{
    let ghost before = channel.trace();
    let ghost instance_polys = protocol::instance_polys_of(instance@);
    let ghost advice_polys = coeffs_of(advice@);
    let ghost advice_blinds = protocol::all_blinds_of(advice@);
    let ghost mut openings: Seq<CircuitOpenings<F>> = Seq::empty();
    let mut queries: Vec<ProverQuery<F>> = Vec::new();
    let mut i: usize = 0;
    proof {
        assert(before + Seq::empty() =~= before);
        assert(commitment::queries_of(queries@) =~= Seq::empty());
        assert(channel::slots_of(permutations@).len() == permutations@.len());
        assert(channel::all_slots_of(lookups@).len() == lookups@.len());
    }
    while i < instance.len()
        invariant
            may_query(pk, instance@, advice@),
            before == old(channel).trace(),
            old(channel).goes_on(channel, channel::with_arguments(arguments)),
            forall|v: Stages<F, T, R, A>|
                stages::all_hold(v.lookup_evaluated, lookups@) && stages::hold(
                    v.permutation_evaluated,
                    permutations@,
                ) ==> old(channel).goes_on(
                    channel,
                    #[trigger] stages::with_stages(arguments, v),
                ),
            instance_polys == protocol::instance_polys_of(instance@),
            advice_polys == coeffs_of(advice@),
            advice_blinds == protocol::all_blinds_of(advice@),
            permutations@.len() == instance@.len(),
            lookups@.len() == instance@.len(),
            channel::all_slots_of(lookups@) == protocol::all_lookup_slots(
                instance@.len(),
                pk.vk.cs.num_lookups as nat,
            ),
            channel::slots_of(permutations@) == protocol::permutation_slots(instance@.len()),
            i <= instance@.len(),
            openings.len() == i,
            forall|k: int|
                0 <= k < i ==> protocol::circuit_opened(
                    pk,
                    O::QUERY_INSTANCE,
                    instance_polys[k],
                    advice_polys[k],
                    advice_blinds[k],
                    x,
                    #[trigger] openings[k],
                ),
            commitment::queries_of(queries@) == protocol::circuits_queries(openings),
            channel.trace() == before + protocol::for_circuits(
                i as nat,
                protocol::open_steps(openings, x),
            ),
        decreases instance@.len() - i,
    {
        let ghost old_openings = openings;
        let ghost old_queries = commitment::queries_of(queries@);
        proof {
            assert(permutations@[i as int].slot() == channel::slots_of(permutations@)[i as int]);
            assert(channel::slots_of(lookups@[i as int]@) == channel::all_slots_of(
                lookups@,
            )[i as int]);
            assert(instance@[i as int].instance_polys@.len() == pk.vk.cs.num_instance_columns);
            assert(witness::same_shape(&pk.vk.cs, advice@[i as int]));
        }
        let ghost pre = *channel;
        let (mut circuit_queries, circuit_openings) = open_circuit(
            pk,
            arguments,
            O::QUERY_INSTANCE,
            &instance[i],
            &advice[i],
            &permutations[i],
            &lookups[i],
            x,
            Ghost(i as int),
            channel,
        );
        let ghost part = commitment::queries_of(circuit_queries@);
        proof {
            assert forall|v: Stages<F, T, R, A>|
                stages::all_hold(v.lookup_evaluated, lookups@) && stages::hold(
                    v.permutation_evaluated,
                    permutations@,
                ) implies old(channel).goes_on(
                channel,
                #[trigger] stages::with_stages(arguments, v),
            ) by {
                assert(stages::holds(v.permutation_evaluated, permutations@[i as int]));
                assert(stages::hold(v.lookup_evaluated, lookups@[i as int]@));
                assert(pre.goes_on(channel, stages::with_stages(arguments, v)));
            }
        }
        queries.append(&mut circuit_queries);
        proof {
            openings = openings.push(circuit_openings@);
            assert(openings.drop_last() =~= old_openings);
            assert(commitment::queries_of(queries@) =~= old_queries + part);
            let f = protocol::open_steps::<F, P>(old_openings, x);
            let g = protocol::open_steps::<F, P>(openings, x);
            protocol::lemma_for_circuits(i as nat, f, g);
            assert(g(i as int) == protocol::circuit_open_steps::<F, P>(
                i as int,
                circuit_openings@,
                x,
            ));
            assert(channel.trace() =~= before + protocol::for_circuits((i + 1) as nat, g));
        }
        i += 1;
    }
    let ghost circuits_part = commitment::queries_of(queries@);
    let mut fixed_queries = column_queries(
        &pk.vk.domain,
        &pk.vk.cs.fixed_queries,
        &pk.fixed_polys,
        None,
        x,
    );
    let ghost fixed = commitment::queries_of(fixed_queries@);
    queries.append(&mut fixed_queries);
    let ghost at_circuits = *channel;
    let mut common_queries = channel.permutation_open_common(arguments, x);
    let ghost at_common = *channel;
    let ghost common = commitment::queries_of(common_queries@);
    queries.append(&mut common_queries);
    // We query the h(X) polynomial at x
    let mut vanishing_queries = channel.vanishing_open(arguments, vanishing, x);
    let ghost at_vanishing = *channel;
    let ghost vanishing_part = commitment::queries_of(vanishing_queries@);
    queries.append(&mut vanishing_queries);
    let ghost record = OpeningRecord {
        circuits: openings,
        fixed,
        common,
        vanishing: vanishing_part,
    };
    assert(commitment::queries_of(queries@) =~= protocol::proof_queries(record));
    proof {
        let steps = protocol::opening_steps::<F, P>(instance@.len(), x, record);
        assert(before + steps.take(steps.len() - 1) =~= channel.trace());
        assert(protocol::opening_recorded(
            pk,
            O::QUERY_INSTANCE,
            instance_polys,
            advice_polys,
            advice_blinds,
            x,
            record,
        ));
    }
    let opened = channel.multi_open(arguments, prover, queries);
    proof {
        let steps = protocol::opening_steps::<F, P>(instance@.len(), x, record);
        let last = steps.len() - 1;
        assert forall|v: Stages<F, T, R, A>|
            {
                &&& stages::all_hold(v.lookup_evaluated, lookups@)
                &&& stages::hold(v.permutation_evaluated, permutations@)
                &&& v.vanishing_evaluated == vanishing.spec_value()
            } && opened is Err implies old(channel).breaks_off(
            channel,
            #[trigger] stages::proving(arguments, v, prover),
            opened->Err_0,
        ) by {
            let how = stages::with_stages::<F, P, T, R, A>(arguments, v);
            assert(old(channel).goes_on(&at_circuits, how));
            stages::lemma_staged(&at_circuits, &at_common, arguments, v, steps[last - 2]);
            stages::lemma_staged(&at_common, &at_vanishing, arguments, v, steps[last - 1]);
            assert(old(channel).goes_on(&at_vanishing, how));
            stages::lemma_opening_stop(
                &at_vanishing,
                channel,
                arguments,
                v,
                prover,
                steps[last],
                opened->Err_0,
            );
        }
    }
    opened?;
    proof {
        let steps = protocol::opening_steps::<F, P>(instance@.len(), x, record);
        let last = steps.len() - 1;
        assert(channel.trace() =~= before + steps);
        assert forall|v: Stages<F, T, R, A>|
            {
                &&& stages::all_hold(v.lookup_evaluated, lookups@)
                &&& stages::hold(v.permutation_evaluated, permutations@)
                &&& v.vanishing_evaluated == vanishing.spec_value()
            } implies old(channel).goes_on(
            channel,
            #[trigger] stages::proving(arguments, v, prover),
        ) by {
            let how = stages::with_stages::<F, P, T, R, A>(arguments, v);
            assert(old(channel).goes_on(&at_circuits, how));
            stages::lemma_staged(&at_circuits, &at_common, arguments, v, steps[last - 2]);
            stages::lemma_staged(&at_common, &at_vanishing, arguments, v, steps[last - 1]);
            assert(old(channel).goes_on(&at_vanishing, how));
            stages::lemma_opened(&at_vanishing, channel, arguments, v, prover, steps[last]);
        }
    }
    Ok(Ghost(record))
}

} // verus!
