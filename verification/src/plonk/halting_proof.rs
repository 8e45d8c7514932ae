//! Two runs of the arguments that are answered alike take the same steps,
//! whether they fail or not.

use super::channel;
use super::channel::Step;
use super::circuit;
use super::halting;
use super::protocol;
use super::protocol::{EvaluationRecord, OpeningRecord, ProofRecord, QuotientRecord};
use super::replay;
use super::replay::World;
use super::replay_proof;
use super::witness::{AdviceCommitted, InstanceSingle};
use super::ProvingKey;
use crate::field::Field;
use crate::poly::LagrangeCoeff;
use vstd::prelude::*;

verus! {

/// Steps for each circuit that do not fail do not fail.
proof fn lemma_circuits_hold<F, P>(count: nat, f: spec_fn(int) -> Seq<Step<F, P>>)
    requires
        forall|i: int| 0 <= i < count ==> halting::none_failed(#[trigger] f(i)),
    ensures
        halting::none_failed(protocol::for_circuits(count, f)),
    decreases count,
{
    if count > 0 {
        lemma_circuits_hold((count - 1) as nat, f);
        assert(halting::none_failed(f(count - 1)));
        lemma_parts_hold(protocol::for_circuits((count - 1) as nat, f), f(count - 1));
    }
}

proof fn lemma_parts_hold<F, P>(a: Seq<Step<F, P>>, b: Seq<Step<F, P>>)
    requires
        halting::none_failed(a),
        halting::none_failed(b),
    ensures
        halting::none_failed(a + b),
{
    assert forall|k: int| 0 <= k < (a + b).len() implies !((#[trigger] (a + b)[k]) is Failed) by {
        if k < a.len() {
            assert(!(a[k] is Failed));
        } else {
            assert(!(b[k - a.len()] is Failed));
        }
    }
}

proof fn lemma_products_hold<F, P>(
    pk: &ProvingKey<F>,
    singles: Seq<InstanceSingle<F>>,
    advice: Seq<AdviceCommitted<F, LagrangeCoeff>>,
    challenges: Seq<F>,
    theta: F,
    beta: F,
    gamma: F,
)
    ensures
        halting::none_failed(
            protocol::product_commit_steps::<F, P>(
                pk,
                singles,
                advice,
                challenges,
                theta,
                beta,
                gamma,
            ),
        ),
{
    let count = singles.len();
    let first = seq![Step::<F, P>::Squeeze(theta)];
    let f = protocol::permuted_steps::<F, P>(pk, theta, singles, advice, challenges);
    let squeezed = seq![Step::<F, P>::Squeeze(beta), Step::<F, P>::Squeeze(gamma)];
    let committed = protocol::permutation_steps::<F, P>(pk, singles, advice, beta, gamma);
    let g = protocol::product_steps::<F, P>(&pk.vk.cs, beta, gamma);
    lemma_circuits_hold(count, f);
    lemma_circuits_hold(count, g);
    lemma_parts_hold(first, protocol::for_circuits(count, f));
    lemma_parts_hold(first + protocol::for_circuits(count, f), squeezed);
    lemma_parts_hold(first + protocol::for_circuits(count, f) + squeezed, committed);
    lemma_parts_hold(
        first + protocol::for_circuits(count, f) + squeezed + committed,
        protocol::for_circuits(count, g),
    );
}

proof fn lemma_evals_hold<F, P>(count: nat, evals: Seq<Seq<F>>)
    ensures
        halting::none_failed(
            protocol::for_circuits(count, protocol::eval_steps::<F, P>(evals)),
        ),
{
    lemma_circuits_hold(count, protocol::eval_steps::<F, P>(evals));
}

proof fn lemma_instance_evals_hold<F, P>(
    query_instance: bool,
    count: nat,
    x: F,
    evals: Seq<Seq<F>>,
)
    ensures
        halting::none_failed(
            protocol::instance_eval_steps::<F, P>(query_instance, count, x, evals),
        ),
{
    lemma_evals_hold::<F, P>(count, evals);
    lemma_parts_hold(
        seq![Step::<F, P>::Squeeze(x)],
        protocol::for_circuits(count, protocol::eval_steps::<F, P>(evals)),
    );
}

proof fn lemma_evaluation_holds<F: Field, P>(
    pk: &ProvingKey<F>,
    query_instance: bool,
    count: nat,
    record: EvaluationRecord<F>,
)
    ensures
        halting::none_failed(
            protocol::evaluation_steps::<F, P>(&pk.vk.cs, query_instance, count, record),
        ),
{
    let instance = protocol::instance_eval_steps::<F, P>(
        query_instance,
        count,
        record.x,
        record.instance_evals,
    );
    let advice = protocol::for_circuits(
        count,
        protocol::eval_steps::<F, P>(record.advice_evals),
    );
    let fixed = protocol::write_scalar_steps::<F, P>(record.fixed_evals);
    lemma_instance_evals_hold::<F, P>(query_instance, count, record.x, record.instance_evals);
    lemma_evals_hold::<F, P>(count, record.advice_evals);
    lemma_parts_hold(instance, advice);
    lemma_parts_hold(instance + advice, fixed);
    let common = seq![
        Step::<F, P>::VanishingEvaluated { x: record.x, xn: record.xn },
        Step::<F, P>::CommonPermutationEvaluated { x: record.x },
    ];
    let permuted = protocol::permutation_eval_steps::<F, P>(count, record.x);
    let f = protocol::lookup_eval_steps::<F, P>(&pk.vk.cs, record.x);
    lemma_circuits_hold(count, f);
    lemma_parts_hold(common, permuted);
    lemma_parts_hold(common + permuted, protocol::for_circuits(count, f));
    lemma_parts_hold(
        protocol::column_eval_steps::<F, P>(query_instance, count, record),
        protocol::argument_eval_steps::<F, P>(&pk.vk.cs, count, record.x, record.xn),
    );
}

proof fn lemma_opening_holds<F, P>(count: nat, x: F, record: OpeningRecord<F>)
    ensures
        halting::none_failed(protocol::opening_steps::<F, P>(count, x, record)),
{
    let f = protocol::open_steps::<F, P>(record.circuits, x);
    assert forall|i: int| 0 <= i < count implies halting::none_failed(#[trigger] f(i)) by {
        let opened = seq![
            Step::<F, P>::PermutationOpened {
                slot: channel::Slot { circuit: i, lookup: 0 },
                x,
                queries: record.circuits[i].permutation,
            },
        ];
        lemma_parts_hold(
            opened,
            protocol::lookup_open_steps::<F, P>(i, record.circuits[i].lookups, x),
        );
    }
    lemma_circuits_hold(count, f);
    lemma_parts_hold(
        protocol::for_circuits(count, f),
        seq![
            Step::<F, P>::CommonPermutationOpened { x, queries: record.common },
            Step::<F, P>::VanishingOpened { x, queries: record.vanishing },
            Step::<F, P>::MultiOpen { queries: protocol::proof_queries(record) },
        ],
    );
}

/// The steps up to the commitment to the polynomial that blinds the quotient.
pub open spec fn first_steps<F, P>(
    pk: &ProvingKey<F>,
    singles: Seq<InstanceSingle<F>>,
    advice: Seq<AdviceCommitted<F, LagrangeCoeff>>,
    challenges: Seq<F>,
    theta: F,
    beta: F,
    gamma: F,
) -> Seq<Step<F, P>> {
    protocol::product_commit_steps(pk, singles, advice, challenges, theta, beta, gamma) + seq![
        Step::VanishingCommitted,
    ]
}

/// What two runs have in common at a stage: they are the same and stopped in it,
/// or both went through steps that are the same.
pub open spec fn alike<F: Field, P>(
    before_a: Seq<Step<F, P>>,
    before_b: Seq<Step<F, P>>,
    a: Seq<Step<F, P>>,
    b: Seq<Step<F, P>>,
    after_a: Seq<Step<F, P>>,
    after_b: Seq<Step<F, P>>,
) -> bool {
    ||| {
        &&& replay::shapes(after_a) == replay::shapes(after_b)
        &&& channel::stops_in(before_a, a, after_a)
        &&& channel::stops_in(before_b, b, after_b)
    }
    ||| {
        &&& replay::shapes(a) == replay::shapes(b)
        &&& replay::shapes(before_a + a) == replay::shapes(before_b + b)
        &&& (before_a + a).is_prefix_of(after_a)
        &&& (before_b + b).is_prefix_of(after_b)
    }
}

/// Two runs that are answered alike.
pub open spec fn are_answered<F: Field, P>(
    world: World<P>,
    before_a: Seq<Step<F, P>>,
    before_b: Seq<Step<F, P>>,
    after_a: Seq<Step<F, P>>,
    after_b: Seq<Step<F, P>>,
) -> bool {
    &&& replay::shapes(before_a) == replay::shapes(before_b)
    &&& replay::is_answered(world, replay::shapes(after_a))
    &&& replay::is_answered(world, replay::shapes(after_b))
}

proof fn lemma_first_steps_alike<F: Field, P>(
    pk: &ProvingKey<F>,
    world: World<P>,
    singles_a: Seq<InstanceSingle<F>>,
    singles_b: Seq<InstanceSingle<F>>,
    advice_a: Seq<AdviceCommitted<F, LagrangeCoeff>>,
    advice_b: Seq<AdviceCommitted<F, LagrangeCoeff>>,
    challenges_a: Seq<F>,
    challenges_b: Seq<F>,
    a: QuotientRecord<F>,
    b: QuotientRecord<F>,
    before_a: Seq<Step<F, P>>,
    before_b: Seq<Step<F, P>>,
    after_a: Seq<Step<F, P>>,
    after_b: Seq<Step<F, P>>,
)
    requires
        replay_proof::same_inputs(
            pk,
            singles_a,
            singles_b,
            advice_a,
            advice_b,
            challenges_a,
            challenges_b,
        ),
        are_answered(world, before_a, before_b, after_a, after_b),
        halting::reaches(
            before_a,
            first_steps(pk, singles_a, advice_a, challenges_a, a.theta, a.beta, a.gamma),
            after_a,
        ),
        halting::reaches(
            before_b,
            first_steps(pk, singles_b, advice_b, challenges_b, b.theta, b.beta, b.gamma),
            after_b,
        ),
    ensures
        alike(
            before_a,
            before_b,
            first_steps(pk, singles_a, advice_a, challenges_a, a.theta, a.beta, a.gamma),
            first_steps(pk, singles_b, advice_b, challenges_b, b.theta, b.beta, b.gamma),
            after_a,
            after_b,
        ),
{
    let pa = protocol::product_commit_steps::<F, P>(
        pk,
        singles_a,
        advice_a,
        challenges_a,
        a.theta,
        a.beta,
        a.gamma,
    );
    let pb = protocol::product_commit_steps::<F, P>(
        pk,
        singles_b,
        advice_b,
        challenges_b,
        b.theta,
        b.beta,
        b.gamma,
    );
    let v = seq![Step::<F, P>::VanishingCommitted];
    lemma_products_hold::<F, P>(
        pk,
        singles_a,
        advice_a,
        challenges_a,
        a.theta,
        a.beta,
        a.gamma,
    );
    lemma_products_hold::<F, P>(
        pk,
        singles_b,
        advice_b,
        challenges_b,
        b.theta,
        b.beta,
        b.gamma,
    );
    lemma_parts_hold(pa, v);
    lemma_parts_hold(pb, v);
    replay::lemma_shapes_concat(pa, v);
    replay::lemma_shapes_concat(pb, v);
    let before = replay::shapes(before_a);
    let (sa, sb) = (replay::shapes(pa + v), replay::shapes(pb + v));
    let either = halting::either(before + sa, before + sb);
    if replay::is_answered(either, before + sa) && replay::is_answered(either, before + sb) {
        assert(before + sa =~= (before + replay::shapes(pa)) + replay::shapes(v));
        assert(before + sb =~= (before + replay::shapes(pb)) + replay::shapes(v));
        replay::lemma_answered_prefix(either, before + replay::shapes(pa), replay::shapes(v));
        replay::lemma_answered_prefix(either, before + replay::shapes(pb), replay::shapes(v));
        replay_proof::lemma_products_repeat::<F, P>(
            pk,
            either,
            before,
            singles_a,
            singles_b,
            advice_a,
            advice_b,
            challenges_a,
            challenges_b,
            a,
            b,
        );
    }
    halting::lemma_runs_alike(
        world,
        before_a,
        before_b,
        pa + v,
        pb + v,
        after_a,
        after_b,
    );
}

proof fn lemma_quotient_alike<F: Field, P>(
    pk: &ProvingKey<F>,
    world: World<P>,
    singles_a: Seq<InstanceSingle<F>>,
    singles_b: Seq<InstanceSingle<F>>,
    advice_a: Seq<AdviceCommitted<F, LagrangeCoeff>>,
    advice_b: Seq<AdviceCommitted<F, LagrangeCoeff>>,
    challenges_a: Seq<F>,
    challenges_b: Seq<F>,
    a: QuotientRecord<F>,
    b: QuotientRecord<F>,
    before_a: Seq<Step<F, P>>,
    before_b: Seq<Step<F, P>>,
    after_a: Seq<Step<F, P>>,
    after_b: Seq<Step<F, P>>,
)
    requires
        replay_proof::same_inputs(
            pk,
            singles_a,
            singles_b,
            advice_a,
            advice_b,
            challenges_a,
            challenges_b,
        ),
        replay::tables(a.advice_polys) == replay::tables(b.advice_polys),
        are_answered(world, before_a, before_b, after_a, after_b),
        halting::reaches(
            before_a,
            protocol::quotient_steps(pk, singles_a, advice_a, challenges_a, a),
            after_a,
        ),
        halting::reaches(
            before_b,
            protocol::quotient_steps(pk, singles_b, advice_b, challenges_b, b),
            after_b,
        ),
    ensures
        alike(
            before_a,
            before_b,
            protocol::quotient_steps(pk, singles_a, advice_a, challenges_a, a),
            protocol::quotient_steps(pk, singles_b, advice_b, challenges_b, b),
            after_a,
            after_b,
        ),
{
    let pa = protocol::product_commit_steps::<F, P>(
        pk,
        singles_a,
        advice_a,
        challenges_a,
        a.theta,
        a.beta,
        a.gamma,
    );
    let pb = protocol::product_commit_steps::<F, P>(
        pk,
        singles_b,
        advice_b,
        challenges_b,
        b.theta,
        b.beta,
        b.gamma,
    );
    let va = protocol::vanishing_steps::<F, P>(pk, singles_a, challenges_a, a);
    let vb = protocol::vanishing_steps::<F, P>(pk, singles_b, challenges_b, b);
    lemma_products_hold::<F, P>(
        pk,
        singles_a,
        advice_a,
        challenges_a,
        a.theta,
        a.beta,
        a.gamma,
    );
    lemma_products_hold::<F, P>(
        pk,
        singles_b,
        advice_b,
        challenges_b,
        b.theta,
        b.beta,
        b.gamma,
    );
    lemma_parts_hold(pa, va);
    lemma_parts_hold(pb, vb);
    replay::lemma_shapes_concat(pa, va);
    replay::lemma_shapes_concat(pb, vb);
    let before = replay::shapes(before_a);
    let (sa, sb) = (replay::shapes(pa + va), replay::shapes(pb + vb));
    let either = halting::either(before + sa, before + sb);
    if replay::is_answered(either, before + sa) && replay::is_answered(either, before + sb) {
        assert(before + sa =~= (before + replay::shapes(pa)) + replay::shapes(va));
        assert(before + sb =~= (before + replay::shapes(pb)) + replay::shapes(vb));
        replay::lemma_answered_prefix(either, before + replay::shapes(pa), replay::shapes(va));
        replay::lemma_answered_prefix(either, before + replay::shapes(pb), replay::shapes(vb));
        replay_proof::lemma_products_repeat::<F, P>(
            pk,
            either,
            before,
            singles_a,
            singles_b,
            advice_a,
            advice_b,
            challenges_a,
            challenges_b,
            a,
            b,
        );
        replay_proof::lemma_vanishing_repeats::<F, P>(
            pk,
            either,
            before + replay::shapes(pa),
            singles_a,
            singles_b,
            challenges_a,
            challenges_b,
            a,
            b,
        );
    }
    halting::lemma_runs_alike(
        world,
        before_a,
        before_b,
        pa + va,
        pb + vb,
        after_a,
        after_b,
    );
}

/// The steps that evaluate the instance columns of the first circuits, and the
/// advice columns of the first circuits.
pub open spec fn partial_eval_steps<F, P>(
    query_instance: bool,
    x: F,
    instance_evals: Seq<Seq<F>>,
    advice_evals: Seq<Seq<F>>,
) -> Seq<Step<F, P>> {
    protocol::instance_eval_steps(query_instance, instance_evals.len(), x, instance_evals)
        + protocol::for_circuits(advice_evals.len(), protocol::eval_steps(advice_evals))
}

/// The evaluations are those of the first circuits.
pub open spec fn partially_evaluated<F: Field>(
    pk: &ProvingKey<F>,
    query_instance: bool,
    instance_polys: Seq<Seq<Seq<F>>>,
    advice_polys: Seq<Seq<Seq<F>>>,
    x: F,
    instance_evals: Seq<Seq<F>>,
    advice_evals: Seq<Seq<F>>,
) -> bool {
    &&& instance_evals.len() <= instance_polys.len()
    &&& advice_evals.len() <= advice_polys.len()
    &&& query_instance ==> protocol::all_evaluated(
        &pk.vk.domain,
        pk.vk.cs.instance_queries@,
        instance_polys.take(instance_evals.len() as int),
        x,
        instance_evals,
    )
    &&& protocol::all_evaluated(
        &pk.vk.domain,
        pk.vk.cs.advice_queries@,
        advice_polys.take(advice_evals.len() as int),
        x,
        advice_evals,
    )
}

proof fn lemma_tables_start<F: Field>(a: Seq<Seq<Seq<F>>>, b: Seq<Seq<Seq<F>>>, n: int)
    requires
        replay::tables(a) == replay::tables(b),
        0 <= n <= a.len(),
    ensures
        replay::tables(a.take(n)) == replay::tables(b.take(n)),
        a.len() == b.len(),
{
    assert(replay::tables(a).len() == a.len() && replay::tables(b).len() == b.len());
    assert(replay::tables(a.take(n)) =~= replay::tables(a).take(n));
    assert(replay::tables(b.take(n)) =~= replay::tables(b).take(n));
}

proof fn lemma_partial_evals_alike<F: Field, P>(
    pk: &ProvingKey<F>,
    world: World<P>,
    query_instance: bool,
    instance_a: Seq<Seq<Seq<F>>>,
    instance_b: Seq<Seq<Seq<F>>>,
    polys_a: Seq<Seq<Seq<F>>>,
    polys_b: Seq<Seq<Seq<F>>>,
    x_a: F,
    x_b: F,
    instance_evals_a: Seq<Seq<F>>,
    instance_evals_b: Seq<Seq<F>>,
    advice_evals_a: Seq<Seq<F>>,
    advice_evals_b: Seq<Seq<F>>,
    before_a: Seq<Step<F, P>>,
    before_b: Seq<Step<F, P>>,
    after_a: Seq<Step<F, P>>,
    after_b: Seq<Step<F, P>>,
)
    requires
        pk.wf(pk.vk.domain.n),
        replay_proof::has_columns(
            instance_a,
            instance_a.len() as int,
            pk.vk.cs.num_instance_columns as int,
        ),
        replay_proof::has_columns(
            polys_a,
            instance_a.len() as int,
            pk.vk.cs.num_advice_columns as int,
        ),
        replay::tables(instance_a) == replay::tables(instance_b),
        replay::tables(polys_a) == replay::tables(polys_b),
        instance_evals_a.len() == instance_evals_b.len(),
        advice_evals_a.len() == advice_evals_b.len(),
        partially_evaluated(
            pk,
            query_instance,
            instance_a,
            polys_a,
            x_a,
            instance_evals_a,
            advice_evals_a,
        ),
        partially_evaluated(
            pk,
            query_instance,
            instance_b,
            polys_b,
            x_b,
            instance_evals_b,
            advice_evals_b,
        ),
        are_answered(world, before_a, before_b, after_a, after_b),
        halting::reaches(
            before_a,
            partial_eval_steps(query_instance, x_a, instance_evals_a, advice_evals_a),
            after_a,
        ),
        halting::reaches(
            before_b,
            partial_eval_steps(query_instance, x_b, instance_evals_b, advice_evals_b),
            after_b,
        ),
    ensures
        alike(
            before_a,
            before_b,
            partial_eval_steps(query_instance, x_a, instance_evals_a, advice_evals_a),
            partial_eval_steps(query_instance, x_b, instance_evals_b, advice_evals_b),
            after_a,
            after_b,
        ),
{
    let (ni, na) = (instance_evals_a.len(), advice_evals_a.len());
    let a = partial_eval_steps::<F, P>(query_instance, x_a, instance_evals_a, advice_evals_a);
    let b = partial_eval_steps::<F, P>(query_instance, x_b, instance_evals_b, advice_evals_b);
    let (fa, fb) = (seq![Step::<F, P>::Squeeze(x_a)], seq![Step::<F, P>::Squeeze(x_b)]);
    let (ia, ib) = if query_instance {
        (
            protocol::for_circuits(ni, protocol::eval_steps::<F, P>(instance_evals_a)),
            protocol::for_circuits(ni, protocol::eval_steps::<F, P>(instance_evals_b)),
        )
    } else {
        (Seq::empty(), Seq::empty())
    };
    let da = protocol::for_circuits(na, protocol::eval_steps::<F, P>(advice_evals_a));
    let db = protocol::for_circuits(na, protocol::eval_steps::<F, P>(advice_evals_b));
    lemma_instance_evals_hold::<F, P>(query_instance, ni, x_a, instance_evals_a);
    lemma_instance_evals_hold::<F, P>(query_instance, ni, x_b, instance_evals_b);
    lemma_evals_hold::<F, P>(na, advice_evals_a);
    lemma_evals_hold::<F, P>(na, advice_evals_b);
    lemma_parts_hold(fa + ia, da);
    lemma_parts_hold(fb + ib, db);
    replay::lemma_shapes_concat(fa + ia, da);
    replay::lemma_shapes_concat(fb + ib, db);
    replay::lemma_shapes_concat(fa, ia);
    replay::lemma_shapes_concat(fb, ib);
    let before = replay::shapes(before_a);
    let (sa, sb) = (replay::shapes(a), replay::shapes(b));
    let either = halting::either(before + sa, before + sb);
    if replay::is_answered(either, before + sa) && replay::is_answered(either, before + sb) {
        let (ha, hb) = (replay::shapes(fa), replay::shapes(fb));
        let (ra, rb) = (
            replay::shapes(ia) + replay::shapes(da),
            replay::shapes(ib) + replay::shapes(db),
        );
        assert(before + sa =~= (before + ha) + ra);
        assert(before + sb =~= (before + hb) + rb);
        replay::lemma_answered_prefix(either, before + ha, ra);
        replay::lemma_answered_prefix(either, before + hb, rb);
        replay::lemma_same_answers(either, before, ha, hb);
        assert(ha[0] == Step::<int, P>::Squeeze(x_a.value()));
        assert(hb[0] == Step::<int, P>::Squeeze(x_b.value()));
        lemma_tables_start(instance_a, instance_b, ni as int);
        lemma_tables_start(polys_a, polys_b, na as int);
        if query_instance {
            replay_proof::lemma_all_evals::<F, P, circuit::Instance>(
                &pk.vk.domain,
                pk.vk.cs.instance_queries@,
                instance_a.take(ni as int),
                instance_b.take(ni as int),
                pk.vk.cs.num_instance_columns as int,
                x_a,
                x_b,
                instance_evals_a,
                instance_evals_b,
            );
        }
        replay_proof::lemma_all_evals::<F, P, circuit::Advice>(
            &pk.vk.domain,
            pk.vk.cs.advice_queries@,
            polys_a.take(na as int),
            polys_b.take(na as int),
            pk.vk.cs.num_advice_columns as int,
            x_a,
            x_b,
            advice_evals_a,
            advice_evals_b,
        );
    }
    halting::lemma_runs_alike(world, before_a, before_b, a, b, after_a, after_b);
}

proof fn lemma_evaluation_alike<F: Field, P>(
    pk: &ProvingKey<F>,
    world: World<P>,
    query_instance: bool,
    instance_a: Seq<Seq<Seq<F>>>,
    instance_b: Seq<Seq<Seq<F>>>,
    polys_a: Seq<Seq<Seq<F>>>,
    polys_b: Seq<Seq<Seq<F>>>,
    a: EvaluationRecord<F>,
    b: EvaluationRecord<F>,
    before_a: Seq<Step<F, P>>,
    before_b: Seq<Step<F, P>>,
    after_a: Seq<Step<F, P>>,
    after_b: Seq<Step<F, P>>,
)
    requires
        pk.wf(pk.vk.domain.n),
        replay_proof::has_columns(
            instance_a,
            instance_a.len() as int,
            pk.vk.cs.num_instance_columns as int,
        ),
        replay_proof::has_columns(
            polys_a,
            instance_a.len() as int,
            pk.vk.cs.num_advice_columns as int,
        ),
        replay::tables(instance_a) == replay::tables(instance_b),
        replay::tables(polys_a) == replay::tables(polys_b),
        protocol::evaluation_recorded(pk, query_instance, instance_a, polys_a, a),
        protocol::evaluation_recorded(pk, query_instance, instance_b, polys_b, b),
        are_answered(world, before_a, before_b, after_a, after_b),
        halting::reaches(
            before_a,
            protocol::evaluation_steps(&pk.vk.cs, query_instance, instance_a.len(), a),
            after_a,
        ),
        halting::reaches(
            before_b,
            protocol::evaluation_steps(&pk.vk.cs, query_instance, instance_a.len(), b),
            after_b,
        ),
    ensures
        alike(
            before_a,
            before_b,
            protocol::evaluation_steps(&pk.vk.cs, query_instance, instance_a.len(), a),
            protocol::evaluation_steps(&pk.vk.cs, query_instance, instance_a.len(), b),
            after_a,
            after_b,
        ),
        replay::shapes(after_a) == replay::shapes(after_b) || a.x.value() == b.x.value(),
{
    let count = instance_a.len();
    let ea = protocol::evaluation_steps::<F, P>(&pk.vk.cs, query_instance, count, a);
    let eb = protocol::evaluation_steps::<F, P>(&pk.vk.cs, query_instance, count, b);
    lemma_evaluation_holds::<F, P>(pk, query_instance, count, a);
    lemma_evaluation_holds::<F, P>(pk, query_instance, count, b);
    let before = replay::shapes(before_a);
    let (sa, sb) = (replay::shapes(ea), replay::shapes(eb));
    let either = halting::either(before + sa, before + sb);
    if replay::is_answered(either, before + sa) && replay::is_answered(either, before + sb) {
        replay_proof::lemma_evaluation_repeats::<F, P>(
            pk,
            either,
            before,
            query_instance,
            count,
            instance_a,
            instance_b,
            polys_a,
            polys_b,
            a,
            b,
        );
    }
    halting::lemma_runs_alike(world, before_a, before_b, ea, eb, after_a, after_b);
    if sa == sb {
        assert(ea[0] == Step::<F, P>::Squeeze(a.x) && eb[0] == Step::<F, P>::Squeeze(b.x));
        assert(sa[0] == Step::<int, P>::Squeeze(a.x.value()));
        assert(sb[0] == Step::<int, P>::Squeeze(b.x.value()));
    }
}

proof fn lemma_opening_alike<F: Field, P>(
    pk: &ProvingKey<F>,
    world: World<P>,
    query_instance: bool,
    instance_a: Seq<Seq<Seq<F>>>,
    instance_b: Seq<Seq<Seq<F>>>,
    polys_a: Seq<Seq<Seq<F>>>,
    polys_b: Seq<Seq<Seq<F>>>,
    blinds_a: Seq<Seq<F>>,
    blinds_b: Seq<Seq<F>>,
    x_a: F,
    x_b: F,
    a: OpeningRecord<F>,
    b: OpeningRecord<F>,
    before_a: Seq<Step<F, P>>,
    before_b: Seq<Step<F, P>>,
    after_a: Seq<Step<F, P>>,
    after_b: Seq<Step<F, P>>,
)
    requires
        pk.wf(pk.vk.domain.n),
        x_a.value() == x_b.value(),
        replay_proof::has_columns(
            instance_a,
            instance_a.len() as int,
            pk.vk.cs.num_instance_columns as int,
        ),
        replay_proof::has_columns(
            polys_a,
            instance_a.len() as int,
            pk.vk.cs.num_advice_columns as int,
        ),
        blinds_a.len() == instance_a.len(),
        forall|i: int|
            0 <= i < blinds_a.len() ==> (#[trigger] blinds_a[i]).len()
                == pk.vk.cs.num_advice_columns,
        replay::tables(instance_a) == replay::tables(instance_b),
        replay::tables(polys_a) == replay::tables(polys_b),
        replay::lists(blinds_a) == replay::lists(blinds_b),
        protocol::opening_recorded(
            pk,
            query_instance,
            instance_a,
            polys_a,
            blinds_a,
            x_a,
            a,
        ),
        protocol::opening_recorded(
            pk,
            query_instance,
            instance_b,
            polys_b,
            blinds_b,
            x_b,
            b,
        ),
        are_answered(world, before_a, before_b, after_a, after_b),
        halting::reaches(
            before_a,
            protocol::opening_steps(instance_a.len(), x_a, a),
            after_a,
        ),
        halting::reaches(
            before_b,
            protocol::opening_steps(instance_a.len(), x_b, b),
            after_b,
        ),
    ensures
        alike(
            before_a,
            before_b,
            protocol::opening_steps(instance_a.len(), x_a, a),
            protocol::opening_steps(instance_a.len(), x_b, b),
            after_a,
            after_b,
        ),
{
    let count = instance_a.len();
    let oa = protocol::opening_steps::<F, P>(count, x_a, a);
    let ob = protocol::opening_steps::<F, P>(count, x_b, b);
    lemma_opening_holds::<F, P>(count, x_a, a);
    lemma_opening_holds::<F, P>(count, x_b, b);
    let before = replay::shapes(before_a);
    let (sa, sb) = (replay::shapes(oa), replay::shapes(ob));
    let either = halting::either(before + sa, before + sb);
    if replay::is_answered(either, before + sa) && replay::is_answered(either, before + sb) {
        replay_proof::lemma_opening_repeats::<F, P>(
            pk,
            either,
            before,
            query_instance,
            instance_a,
            instance_b,
            polys_a,
            polys_b,
            blinds_a,
            blinds_b,
            x_a,
            x_b,
            a,
            b,
        );
    }
    halting::lemma_runs_alike(world, before_a, before_b, oa, ob, after_a, after_b);
}

/// The steps for the first circuits come first.
proof fn lemma_for_start<F, P>(
    n: nat,
    count: nat,
    f: spec_fn(int) -> Seq<Step<F, P>>,
) -> (rest: Seq<Step<F, P>>)
    requires
        n <= count,
    ensures
        protocol::for_circuits(count, f) == protocol::for_circuits(n, f) + rest,
    decreases count,
{
    if n == count {
        assert(protocol::for_circuits(n, f) + Seq::empty() =~= protocol::for_circuits(count, f));
        Seq::empty()
    } else {
        let rest = lemma_for_start(n, (count - 1) as nat, f);
        assert(protocol::for_circuits(n, f) + (rest + f(count - 1)) =~= protocol::for_circuits(
            count,
            f,
        ));
        rest + f(count - 1)
    }
}

/// The evaluations of fewer circuits come first.
proof fn lemma_fewer_evals<F: Field, P>(
    pk: &ProvingKey<F>,
    query_instance: bool,
    instance_polys: Seq<Seq<Seq<F>>>,
    advice_polys: Seq<Seq<Seq<F>>>,
    x: F,
    instance_evals: Seq<Seq<F>>,
    advice_evals: Seq<Seq<F>>,
    ni: int,
    na: int,
    before: Seq<Step<F, P>>,
    after: Seq<Step<F, P>>,
)
    requires
        0 <= ni <= instance_evals.len(),
        0 <= na <= advice_evals.len(),
        na > 0 ==> ni == instance_evals.len(),
        partially_evaluated(
            pk,
            query_instance,
            instance_polys,
            advice_polys,
            x,
            instance_evals,
            advice_evals,
        ),
        halting::reaches(
            before,
            partial_eval_steps(query_instance, x, instance_evals, advice_evals),
            after,
        ),
    ensures
        partially_evaluated(
            pk,
            query_instance,
            instance_polys,
            advice_polys,
            x,
            instance_evals.take(ni),
            advice_evals.take(na),
        ),
        halting::reaches(
            before,
            partial_eval_steps(query_instance, x, instance_evals.take(ni), advice_evals.take(na)),
            after,
        ),
{
    let (ie, ae) = (instance_evals.take(ni), advice_evals.take(na));
    let all_i = instance_polys.take(instance_evals.len() as int);
    let all_a = advice_polys.take(advice_evals.len() as int);
    if query_instance {
        let polys = instance_polys.take(ni);
        assert forall|i: int| 0 <= i < ni implies protocol::are_evaluations(
            &pk.vk.domain,
            pk.vk.cs.instance_queries@,
            polys[i],
            x,
            #[trigger] ie[i],
        ) by {
            assert(ie[i] == instance_evals[i] && polys[i] == all_i[i]);
        }
    }
    let polys = advice_polys.take(na);
    assert forall|i: int| 0 <= i < na implies protocol::are_evaluations(
        &pk.vk.domain,
        pk.vk.cs.advice_queries@,
        polys[i],
        x,
        #[trigger] ae[i],
    ) by {
        assert(ae[i] == advice_evals[i] && polys[i] == all_a[i]);
    }
    let first = seq![Step::<F, P>::Squeeze(x)];
    let f = protocol::eval_steps::<F, P>(instance_evals);
    let g = protocol::eval_steps::<F, P>(advice_evals);
    protocol::lemma_for_circuits(ni as nat, f, protocol::eval_steps::<F, P>(ie));
    protocol::lemma_for_circuits(na as nat, g, protocol::eval_steps::<F, P>(ae));
    let steps = partial_eval_steps::<F, P>(query_instance, x, instance_evals, advice_evals);
    let start = partial_eval_steps::<F, P>(query_instance, x, ie, ae);
    let rest_a = lemma_for_start(na as nat, advice_evals.len(), g);
    if na > 0 || !query_instance {
        assert(ie =~= instance_evals || !query_instance);
        assert(steps =~= start + rest_a);
        halting::lemma_reaches_parts(before, start, rest_a, after);
    } else {
        let rest_i = lemma_for_start(ni as nat, instance_evals.len(), f);
        let rest = rest_i + protocol::for_circuits(advice_evals.len(), g);
        assert(start =~= first + protocol::for_circuits(ni as nat, f));
        assert(steps =~= start + rest);
        halting::lemma_reaches_parts(before, start, rest, after);
    }
}

/// After the evaluations, a run opened polynomials, or failed to.
pub open spec fn opens<F: Field, P>(
    pk: &ProvingKey<F>,
    query_instance: bool,
    instance_polys: Seq<Seq<Seq<F>>>,
    advice_polys: Seq<Seq<Seq<F>>>,
    blinds: Seq<Seq<F>>,
    x: F,
    before: Seq<Step<F, P>>,
    after: Seq<Step<F, P>>,
) -> bool {
    exists|record: OpeningRecord<F>|
        {
            &&& #[trigger] protocol::opening_recorded(
                pk,
                query_instance,
                instance_polys,
                advice_polys,
                blinds,
                x,
                record,
            )
            &&& {
                let steps = protocol::opening_steps(instance_polys.len(), x, record);
                ||| channel::stops_in(before, steps, after)
                ||| after == before + steps
            }
        }
}

/// A run evaluated polynomials as recorded and went on, or was stopped in the
/// course of it.
pub open spec fn evaluates_as<F: Field, P>(
    pk: &ProvingKey<F>,
    query_instance: bool,
    instance_polys: Seq<Seq<Seq<F>>>,
    advice_polys: Seq<Seq<Seq<F>>>,
    blinds: Seq<Seq<F>>,
    record: EvaluationRecord<F>,
    before: Seq<Step<F, P>>,
    after: Seq<Step<F, P>>,
) -> bool {
    let steps = protocol::evaluation_steps(
        &pk.vk.cs,
        query_instance,
        instance_polys.len(),
        record,
    );
    &&& protocol::evaluation_recorded(pk, query_instance, instance_polys, advice_polys, record)
    &&& {
        ||| channel::stops_in(before, steps, after)
        ||| opens(
            pk,
            query_instance,
            instance_polys,
            advice_polys,
            blinds,
            record.x,
            before + steps,
            after,
        )
    }
}

/// After the quotient, a run evaluated polynomials and went on, or was stopped.
pub open spec fn evaluates<F: Field, P>(
    pk: &ProvingKey<F>,
    query_instance: bool,
    instance_polys: Seq<Seq<Seq<F>>>,
    advice_polys: Seq<Seq<Seq<F>>>,
    blinds: Seq<Seq<F>>,
    before: Seq<Step<F, P>>,
    after: Seq<Step<F, P>>,
) -> bool {
    ||| query_instance && protocol::stops_in_instance_evals(pk, instance_polys, before, after)
    ||| protocol::stops_in_advice_evals(
        pk,
        query_instance,
        instance_polys,
        advice_polys,
        before,
        after,
    )
    ||| exists|record: EvaluationRecord<F>| #[trigger]
        evaluates_as(
            pk,
            query_instance,
            instance_polys,
            advice_polys,
            blinds,
            record,
            before,
            after,
        )
}

/// The evaluations that a run got to, and whether it was stopped in the course of
/// them.
pub struct Evals<F> {
    /// The point.
    pub x: F,
    /// The values of instance columns.
    pub instance: Seq<Seq<F>>,
    /// The values of advice columns.
    pub advice: Seq<Seq<F>>,
    /// Whether it was stopped.
    pub stopped: bool,
}

/// The evaluations that a run got to are the first ones.
pub open spec fn gets_to<F: Field, P>(
    pk: &ProvingKey<F>,
    query_instance: bool,
    instance_polys: Seq<Seq<Seq<F>>>,
    advice_polys: Seq<Seq<Seq<F>>>,
    evals: Evals<F>,
    before: Seq<Step<F, P>>,
    after: Seq<Step<F, P>>,
) -> bool {
    let steps = partial_eval_steps(query_instance, evals.x, evals.instance, evals.advice);
    let queried = if query_instance {
        instance_polys.len()
    } else {
        0
    };
    &&& partially_evaluated(
        pk,
        query_instance,
        instance_polys,
        advice_polys,
        evals.x,
        evals.instance,
        evals.advice,
    )
    &&& halting::reaches(before, steps, after)
    &&& evals.stopped ==> channel::stops_in(before, steps, after)
    &&& evals.instance.len() <= queried
    &&& evals.instance.len() < queried ==> evals.stopped && evals.advice.len() == 0
    &&& evals.advice.len() < advice_polys.len() ==> evals.stopped
}

proof fn lemma_gets_to<F: Field, P>(
    pk: &ProvingKey<F>,
    query_instance: bool,
    instance_polys: Seq<Seq<Seq<F>>>,
    advice_polys: Seq<Seq<Seq<F>>>,
    blinds: Seq<Seq<F>>,
    before: Seq<Step<F, P>>,
    after: Seq<Step<F, P>>,
) -> (evals: Evals<F>)
    requires
        instance_polys.len() == advice_polys.len(),
        evaluates(
            pk,
            query_instance,
            instance_polys,
            advice_polys,
            blinds,
            before,
            after,
        ),
    ensures
        gets_to(pk, query_instance, instance_polys, advice_polys, evals, before, after),
        !evals.stopped ==> exists|record: EvaluationRecord<F>| #[trigger]
            evaluates_as(
                pk,
                query_instance,
                instance_polys,
                advice_polys,
                blinds,
                record,
                before,
                after,
            ),
{
    let domain = &pk.vk.domain;
    let cs = &pk.vk.cs;
    let none = Seq::<Seq<F>>::empty();
    let all = instance_polys.len() as int;
    assert(instance_polys.take(all) =~= instance_polys);
    assert(advice_polys.take(all) =~= advice_polys);
    if query_instance && protocol::stops_in_instance_evals(pk, instance_polys, before, after) {
        let x = choose|x: F| #[trigger]
            protocol::stops_in_evals(
                domain,
                cs.instance_queries@,
                instance_polys,
                x,
                before + seq![Step::Squeeze(x)],
                after,
            );
        let first = seq![Step::<F, P>::Squeeze(x)];
        let instance = choose|evals: Seq<Seq<F>>|
            {
                &&& evals.len() <= instance_polys.len()
                &&& #[trigger] protocol::all_evaluated(
                    domain,
                    cs.instance_queries@,
                    instance_polys.take(evals.len() as int),
                    x,
                    evals,
                )
                &&& channel::stops_in(
                    before + first,
                    protocol::for_circuits(evals.len(), protocol::eval_steps(evals)),
                    after,
                )
            };
        let evals = Evals { x, instance, advice: none, stopped: true };
        let part = protocol::for_circuits(
            instance.len(),
            protocol::eval_steps::<F, P>(instance),
        );
        channel::lemma_stops_later(before, first, part, after);
        assert(partial_eval_steps::<F, P>(query_instance, x, instance, none) =~= first + part);
        evals
    } else if protocol::stops_in_advice_evals(
        pk,
        query_instance,
        instance_polys,
        advice_polys,
        before,
        after,
    ) {
        let (x, found) = choose|x: F, instance_evals: Seq<Seq<F>>|
            {
                &&& query_instance ==> protocol::all_evaluated(
                    domain,
                    cs.instance_queries@,
                    instance_polys,
                    x,
                    instance_evals,
                )
                &&& protocol::stops_in_evals(
                    domain,
                    cs.advice_queries@,
                    advice_polys,
                    x,
                    before + #[trigger] protocol::instance_eval_steps(
                        query_instance,
                        instance_polys.len(),
                        x,
                        instance_evals,
                    ),
                    after,
                )
            };
        let instance = if query_instance {
            found
        } else {
            none
        };
        let first = protocol::instance_eval_steps::<F, P>(
            query_instance,
            instance_polys.len(),
            x,
            found,
        );
        let advice = choose|evals: Seq<Seq<F>>|
            {
                &&& evals.len() <= advice_polys.len()
                &&& #[trigger] protocol::all_evaluated(
                    domain,
                    cs.advice_queries@,
                    advice_polys.take(evals.len() as int),
                    x,
                    evals,
                )
                &&& channel::stops_in(
                    before + first,
                    protocol::for_circuits(evals.len(), protocol::eval_steps(evals)),
                    after,
                )
            };
        let evals = Evals { x, instance, advice, stopped: true };
        let part = protocol::for_circuits(advice.len(), protocol::eval_steps::<F, P>(advice));
        channel::lemma_stops_later(before, first, part, after);
        assert(partial_eval_steps::<F, P>(query_instance, x, instance, advice) =~= first + part);
        evals
    } else {
        let record = choose|record: EvaluationRecord<F>| #[trigger]
            evaluates_as(
                pk,
                query_instance,
                instance_polys,
                advice_polys,
                blinds,
                record,
                before,
                after,
            );
        let instance = if query_instance {
            record.instance_evals
        } else {
            none
        };
        let x = record.x;
        let evals = Evals { x, instance, advice: record.advice_evals, stopped: false };
        let start = partial_eval_steps::<F, P>(query_instance, x, instance, record.advice_evals);
        let rest = protocol::write_scalar_steps::<F, P>(record.fixed_evals)
            + protocol::argument_eval_steps::<F, P>(cs, instance_polys.len(), x, record.xn);
        let steps = protocol::evaluation_steps::<F, P>(
            cs,
            query_instance,
            instance_polys.len(),
            record,
        );
        assert(steps =~= start + rest);
        lemma_evaluates_on(
            pk,
            query_instance,
            instance_polys,
            advice_polys,
            blinds,
            record,
            before,
            after,
        );
        halting::lemma_reaches_parts(before, start, rest, after);
        evals
    }
}

proof fn lemma_evaluates_on<F: Field, P>(
    pk: &ProvingKey<F>,
    query_instance: bool,
    instance_polys: Seq<Seq<Seq<F>>>,
    advice_polys: Seq<Seq<Seq<F>>>,
    blinds: Seq<Seq<F>>,
    record: EvaluationRecord<F>,
    before: Seq<Step<F, P>>,
    after: Seq<Step<F, P>>,
)
    requires
        evaluates_as(
            pk,
            query_instance,
            instance_polys,
            advice_polys,
            blinds,
            record,
            before,
            after,
        ),
    ensures
        halting::reaches(
            before,
            protocol::evaluation_steps(
                &pk.vk.cs,
                query_instance,
                instance_polys.len(),
                record,
            ),
            after,
        ),
{
    let steps = protocol::evaluation_steps::<F, P>(
        &pk.vk.cs,
        query_instance,
        instance_polys.len(),
        record,
    );
    if !channel::stops_in(before, steps, after) {
        let opening = choose|opening: OpeningRecord<F>|
            {
                &&& #[trigger] protocol::opening_recorded(
                    pk,
                    query_instance,
                    instance_polys,
                    advice_polys,
                    blinds,
                    record.x,
                    opening,
                )
                &&& {
                    let opened = protocol::opening_steps(instance_polys.len(), record.x, opening);
                    ||| channel::stops_in(before + steps, opened, after)
                    ||| after == before + steps + opened
                }
            };
        let opened = protocol::opening_steps::<F, P>(instance_polys.len(), record.x, opening);
        lemma_goes_through(before + steps, opened, after);
    }
}

/// A run that was stopped in steps, or went through them, went through all that
/// came before.
pub proof fn lemma_goes_through<F, P>(
    before: Seq<Step<F, P>>,
    steps: Seq<Step<F, P>>,
    after: Seq<Step<F, P>>,
)
    requires
        halting::reaches(before, steps, after),
    ensures
        before.is_prefix_of(after),
{
    let len = before.len() as int;
    if channel::stops_in(before, steps, after) {
        assert(after.take(len) =~= after.drop_last().take(len));
    } else {
        assert(after.take(len) =~= after.take((before + steps).len() as int).take(len));
    }
    assert(after.take(len) =~= before);
}

/// Two runs that open polynomials after the same steps are the same.
proof fn lemma_openings_alike<F: Field, P>(
    pk: &ProvingKey<F>,
    world: World<P>,
    query_instance: bool,
    instance_a: Seq<Seq<Seq<F>>>,
    instance_b: Seq<Seq<Seq<F>>>,
    polys_a: Seq<Seq<Seq<F>>>,
    polys_b: Seq<Seq<Seq<F>>>,
    blinds_a: Seq<Seq<F>>,
    blinds_b: Seq<Seq<F>>,
    x_a: F,
    x_b: F,
    before_a: Seq<Step<F, P>>,
    before_b: Seq<Step<F, P>>,
    after_a: Seq<Step<F, P>>,
    after_b: Seq<Step<F, P>>,
)
    requires
        pk.wf(pk.vk.domain.n),
        x_a.value() == x_b.value(),
        instance_b.len() == instance_a.len(),
        replay_proof::has_columns(
            instance_a,
            instance_a.len() as int,
            pk.vk.cs.num_instance_columns as int,
        ),
        replay_proof::has_columns(
            polys_a,
            instance_a.len() as int,
            pk.vk.cs.num_advice_columns as int,
        ),
        blinds_a.len() == instance_a.len(),
        forall|i: int|
            0 <= i < blinds_a.len() ==> (#[trigger] blinds_a[i]).len()
                == pk.vk.cs.num_advice_columns,
        replay::tables(instance_a) == replay::tables(instance_b),
        replay::tables(polys_a) == replay::tables(polys_b),
        replay::lists(blinds_a) == replay::lists(blinds_b),
        are_answered(world, before_a, before_b, after_a, after_b),
        opens(
            pk,
            query_instance,
            instance_a,
            polys_a,
            blinds_a,
            x_a,
            before_a,
            after_a,
        ),
        opens(
            pk,
            query_instance,
            instance_b,
            polys_b,
            blinds_b,
            x_b,
            before_b,
            after_b,
        ),
    ensures
        replay::shapes(after_a) == replay::shapes(after_b),
{
    let count = instance_a.len();
    let a = choose|record: OpeningRecord<F>|
        {
            &&& #[trigger] protocol::opening_recorded(
                pk,
                query_instance,
                instance_a,
                polys_a,
                blinds_a,
                x_a,
                record,
            )
            &&& {
                let steps = protocol::opening_steps(instance_a.len(), x_a, record);
                ||| channel::stops_in(before_a, steps, after_a)
                ||| after_a == before_a + steps
            }
        };
    let b = choose|record: OpeningRecord<F>|
        {
            &&& #[trigger] protocol::opening_recorded(
                pk,
                query_instance,
                instance_b,
                polys_b,
                blinds_b,
                x_b,
                record,
            )
            &&& {
                let steps = protocol::opening_steps(instance_b.len(), x_b, record);
                ||| channel::stops_in(before_b, steps, after_b)
                ||| after_b == before_b + steps
            }
        };
    let oa = protocol::opening_steps::<F, P>(count, x_a, a);
    let ob = protocol::opening_steps::<F, P>(count, x_b, b);
    if after_a == before_a + oa {
        assert(after_a.take(after_a.len() as int) =~= after_a);
    }
    if after_b == before_b + ob {
        assert(after_b.take(after_b.len() as int) =~= after_b);
    }
    lemma_opening_alike::<F, P>(
        pk,
        world,
        query_instance,
        instance_a,
        instance_b,
        polys_a,
        polys_b,
        blinds_a,
        blinds_b,
        x_a,
        x_b,
        a,
        b,
        before_a,
        before_b,
        after_a,
        after_b,
    );
    lemma_opening_holds::<F, P>(count, x_a, a);
    lemma_opening_holds::<F, P>(count, x_b, b);
    if channel::stops_in(before_a, oa, after_a) {
        halting::lemma_stopped_short(before_a, oa, after_a);
    }
    if channel::stops_in(before_b, ob, after_b) {
        halting::lemma_stopped_short(before_b, ob, after_b);
    }
}

/// Two runs that evaluate polynomials after the same steps are the same.
proof fn lemma_evaluations_alike<F: Field, P>(
    pk: &ProvingKey<F>,
    world: World<P>,
    query_instance: bool,
    instance_a: Seq<Seq<Seq<F>>>,
    instance_b: Seq<Seq<Seq<F>>>,
    polys_a: Seq<Seq<Seq<F>>>,
    polys_b: Seq<Seq<Seq<F>>>,
    blinds_a: Seq<Seq<F>>,
    blinds_b: Seq<Seq<F>>,
    before_a: Seq<Step<F, P>>,
    before_b: Seq<Step<F, P>>,
    after_a: Seq<Step<F, P>>,
    after_b: Seq<Step<F, P>>,
)
    requires
        pk.wf(pk.vk.domain.n),
        instance_b.len() == instance_a.len(),
        polys_b.len() == instance_a.len(),
        replay_proof::has_columns(
            instance_a,
            instance_a.len() as int,
            pk.vk.cs.num_instance_columns as int,
        ),
        replay_proof::has_columns(
            polys_a,
            instance_a.len() as int,
            pk.vk.cs.num_advice_columns as int,
        ),
        blinds_a.len() == instance_a.len(),
        forall|i: int|
            0 <= i < blinds_a.len() ==> (#[trigger] blinds_a[i]).len()
                == pk.vk.cs.num_advice_columns,
        replay::tables(instance_a) == replay::tables(instance_b),
        replay::tables(polys_a) == replay::tables(polys_b),
        replay::lists(blinds_a) == replay::lists(blinds_b),
        are_answered(world, before_a, before_b, after_a, after_b),
        evaluates(
            pk,
            query_instance,
            instance_a,
            polys_a,
            blinds_a,
            before_a,
            after_a,
        ),
        evaluates(
            pk,
            query_instance,
            instance_b,
            polys_b,
            blinds_b,
            before_b,
            after_b,
        ),
    ensures
        replay::shapes(after_a) == replay::shapes(after_b),
{
    let a = lemma_gets_to(
        pk,
        query_instance,
        instance_a,
        polys_a,
        blinds_a,
        before_a,
        after_a,
    );
    let b = lemma_gets_to(
        pk,
        query_instance,
        instance_b,
        polys_b,
        blinds_b,
        before_b,
        after_b,
    );
    let ni = if a.instance.len() <= b.instance.len() {
        a.instance.len() as int
    } else {
        b.instance.len() as int
    };
    let na = if a.instance.len() != b.instance.len() {
        0
    } else if a.advice.len() <= b.advice.len() {
        a.advice.len() as int
    } else {
        b.advice.len() as int
    };
    lemma_fewer_evals(
        pk,
        query_instance,
        instance_a,
        polys_a,
        a.x,
        a.instance,
        a.advice,
        ni,
        na,
        before_a,
        after_a,
    );
    lemma_fewer_evals(
        pk,
        query_instance,
        instance_b,
        polys_b,
        b.x,
        b.instance,
        b.advice,
        ni,
        na,
        before_b,
        after_b,
    );
    let (ia, ib) = (a.instance.take(ni), b.instance.take(ni));
    let (aa, ab) = (a.advice.take(na), b.advice.take(na));
    lemma_partial_evals_alike(
        pk,
        world,
        query_instance,
        instance_a,
        instance_b,
        polys_a,
        polys_b,
        a.x,
        b.x,
        ia,
        ib,
        aa,
        ab,
        before_a,
        before_b,
        after_a,
        after_b,
    );
    lemma_partial_evals_hold::<F, P>(query_instance, a.x, ia, aa);
    lemma_partial_evals_hold::<F, P>(query_instance, b.x, ib, ab);
    if a.stopped && a.instance.len() == ni && a.advice.len() == na {
        assert(ia =~= a.instance && aa =~= a.advice);
        halting::lemma_stopped_short(
            before_a,
            partial_eval_steps(query_instance, a.x, ia, aa),
            after_a,
        );
    } else if b.stopped && b.instance.len() == ni && b.advice.len() == na {
        assert(ib =~= b.instance && ab =~= b.advice);
        halting::lemma_stopped_short(
            before_b,
            partial_eval_steps(query_instance, b.x, ib, ab),
            after_b,
        );
    } else {
        let ra = choose|record: EvaluationRecord<F>| #[trigger]
            evaluates_as(
                pk,
                query_instance,
                instance_a,
                polys_a,
                blinds_a,
                record,
                before_a,
                after_a,
            );
        let rb = choose|record: EvaluationRecord<F>| #[trigger]
            evaluates_as(
                pk,
                query_instance,
                instance_b,
                polys_b,
                blinds_b,
                record,
                before_b,
                after_b,
            );
        lemma_recorded_alike(
            pk,
            world,
            query_instance,
            instance_a,
            instance_b,
            polys_a,
            polys_b,
            blinds_a,
            blinds_b,
            ra,
            rb,
            before_a,
            before_b,
            after_a,
            after_b,
        );
    }
}

proof fn lemma_partial_evals_hold<F, P>(
    query_instance: bool,
    x: F,
    instance_evals: Seq<Seq<F>>,
    advice_evals: Seq<Seq<F>>,
)
    ensures
        halting::none_failed(
            partial_eval_steps::<F, P>(query_instance, x, instance_evals, advice_evals),
        ),
{
    lemma_instance_evals_hold::<F, P>(query_instance, instance_evals.len(), x, instance_evals);
    lemma_evals_hold::<F, P>(advice_evals.len(), advice_evals);
    lemma_parts_hold(
        protocol::instance_eval_steps::<F, P>(
            query_instance,
            instance_evals.len(),
            x,
            instance_evals,
        ),
        protocol::for_circuits(advice_evals.len(), protocol::eval_steps::<F, P>(advice_evals)),
    );
}

/// Two runs that evaluate all columns after the same steps are the same.
proof fn lemma_recorded_alike<F: Field, P>(
    pk: &ProvingKey<F>,
    world: World<P>,
    query_instance: bool,
    instance_a: Seq<Seq<Seq<F>>>,
    instance_b: Seq<Seq<Seq<F>>>,
    polys_a: Seq<Seq<Seq<F>>>,
    polys_b: Seq<Seq<Seq<F>>>,
    blinds_a: Seq<Seq<F>>,
    blinds_b: Seq<Seq<F>>,
    a: EvaluationRecord<F>,
    b: EvaluationRecord<F>,
    before_a: Seq<Step<F, P>>,
    before_b: Seq<Step<F, P>>,
    after_a: Seq<Step<F, P>>,
    after_b: Seq<Step<F, P>>,
)
    requires
        pk.wf(pk.vk.domain.n),
        instance_b.len() == instance_a.len(),
        replay_proof::has_columns(
            instance_a,
            instance_a.len() as int,
            pk.vk.cs.num_instance_columns as int,
        ),
        replay_proof::has_columns(
            polys_a,
            instance_a.len() as int,
            pk.vk.cs.num_advice_columns as int,
        ),
        blinds_a.len() == instance_a.len(),
        forall|i: int|
            0 <= i < blinds_a.len() ==> (#[trigger] blinds_a[i]).len()
                == pk.vk.cs.num_advice_columns,
        replay::tables(instance_a) == replay::tables(instance_b),
        replay::tables(polys_a) == replay::tables(polys_b),
        replay::lists(blinds_a) == replay::lists(blinds_b),
        are_answered(world, before_a, before_b, after_a, after_b),
        evaluates_as(
            pk,
            query_instance,
            instance_a,
            polys_a,
            blinds_a,
            a,
            before_a,
            after_a,
        ),
        evaluates_as(
            pk,
            query_instance,
            instance_b,
            polys_b,
            blinds_b,
            b,
            before_b,
            after_b,
        ),
    ensures
        replay::shapes(after_a) == replay::shapes(after_b),
{
    let count = instance_a.len();
    let ea = protocol::evaluation_steps::<F, P>(&pk.vk.cs, query_instance, count, a);
    let eb = protocol::evaluation_steps::<F, P>(&pk.vk.cs, query_instance, count, b);
    lemma_evaluates_on(
        pk,
        query_instance,
        instance_a,
        polys_a,
        blinds_a,
        a,
        before_a,
        after_a,
    );
    lemma_evaluates_on(
        pk,
        query_instance,
        instance_b,
        polys_b,
        blinds_b,
        b,
        before_b,
        after_b,
    );
    lemma_evaluation_alike(
        pk,
        world,
        query_instance,
        instance_a,
        instance_b,
        polys_a,
        polys_b,
        a,
        b,
        before_a,
        before_b,
        after_a,
        after_b,
    );
    lemma_evaluation_holds::<F, P>(pk, query_instance, count, a);
    lemma_evaluation_holds::<F, P>(pk, query_instance, count, b);
    if channel::stops_in(before_a, ea, after_a) {
        halting::lemma_stopped_short(before_a, ea, after_a);
    } else if channel::stops_in(before_b, eb, after_b) {
        halting::lemma_stopped_short(before_b, eb, after_b);
    } else if replay::shapes(after_a) != replay::shapes(after_b) {
        lemma_openings_alike(
            pk,
            world,
            query_instance,
            instance_a,
            instance_b,
            polys_a,
            polys_b,
            blinds_a,
            blinds_b,
            a.x,
            b.x,
            before_a + ea,
            before_b + eb,
            after_a,
            after_b,
        );
    }
}

/// A run committed to the quotient as recorded and went on, or was stopped in the
/// course of it.
pub open spec fn divides_as<F: Field, P>(
    pk: &ProvingKey<F>,
    query_instance: bool,
    singles: Seq<InstanceSingle<F>>,
    advice: Seq<AdviceCommitted<F, LagrangeCoeff>>,
    challenges: Seq<F>,
    record: QuotientRecord<F>,
    before: Seq<Step<F, P>>,
    after: Seq<Step<F, P>>,
) -> bool {
    let steps = protocol::quotient_steps(pk, singles, advice, challenges, record);
    &&& protocol::advice_interpolated(&pk.vk.domain, advice, record.advice_polys)
    &&& halting::reaches(before, steps, after)
    &&& {
        ||| channel::stops_in(before, steps, after)
        ||| evaluates(
            pk,
            query_instance,
            protocol::instance_polys_of(singles),
            record.advice_polys,
            protocol::all_blinds_of(advice),
            before + steps,
            after,
        )
    }
}

/// A run for committed columns, which created a proof or was stopped.
pub open spec fn is_run<F: Field, P>(
    pk: &ProvingKey<F>,
    query_instance: bool,
    singles: Seq<InstanceSingle<F>>,
    advice: Seq<AdviceCommitted<F, LagrangeCoeff>>,
    challenges: Seq<F>,
    before: Seq<Step<F, P>>,
    after: Seq<Step<F, P>>,
) -> bool {
    ||| protocol::is_proof(pk, query_instance, singles, advice, challenges, before, after)
    ||| protocol::is_stopped_proof(
        pk,
        query_instance,
        singles,
        advice,
        challenges,
        before,
        after,
    )
}

/// The stages of a run.
#[verifier::rlimit(30)]
proof fn lemma_stages<F: Field, P>(
    pk: &ProvingKey<F>,
    query_instance: bool,
    singles: Seq<InstanceSingle<F>>,
    advice: Seq<AdviceCommitted<F, LagrangeCoeff>>,
    challenges: Seq<F>,
    before: Seq<Step<F, P>>,
    after: Seq<Step<F, P>>,
)
    requires
        is_run(pk, query_instance, singles, advice, challenges, before, after),
    ensures
        protocol::stops_before_quotient(pk, singles, advice, challenges, before, after) || exists|
            record: QuotientRecord<F>,
        | #[trigger]
            divides_as(
                pk,
                query_instance,
                singles,
                advice,
                challenges,
                record,
                before,
                after,
            ),
{
    let instance_polys = protocol::instance_polys_of(singles);
    let blinds = protocol::all_blinds_of(advice);
    assert(instance_polys.len() == singles.len());
    if exists|record: ProofRecord<F>|
        {
            &&& #[trigger] protocol::proof_recorded(pk, query_instance, singles, advice, record)
            &&& is_last(
                before,
                protocol::proof_steps(
                    pk,
                    query_instance,
                    singles,
                    advice,
                    challenges,
                    record,
                ),
                after,
            )
        } {
        let record = choose|record: ProofRecord<F>|
            {
                &&& #[trigger] protocol::proof_recorded(
                    pk,
                    query_instance,
                    singles,
                    advice,
                    record,
                )
                &&& is_last(
                    before,
                    protocol::proof_steps(
                        pk,
                        query_instance,
                        singles,
                        advice,
                        challenges,
                        record,
                    ),
                    after,
                )
            };
        let q = protocol::quotient_steps::<F, P>(
            pk,
            singles,
            advice,
            challenges,
            record.quotient,
        );
        let e = protocol::evaluation_steps::<F, P>(
            &pk.vk.cs,
            query_instance,
            singles.len(),
            record.evaluation,
        );
        let o = protocol::opening_steps::<F, P>(
            singles.len(),
            record.evaluation.x,
            record.opening,
        );
        let all = q + e + o;
        assert(before + all =~= before + q + e + o);
        if channel::fails_last(before, all, after) {
            let taken = all.len() - 1;
            assert(before + all.take(taken) =~= (before + q + e) + o.take(o.len() - 1));
            assert(channel::stops_in(before + q + e, o, after));
        }
        assert(opens(
            pk,
            query_instance,
            instance_polys,
            record.quotient.advice_polys,
            blinds,
            record.evaluation.x,
            before + q + e,
            after,
        ));
        assert(evaluates_as(
            pk,
            query_instance,
            instance_polys,
            record.quotient.advice_polys,
            blinds,
            record.evaluation,
            before + q,
            after,
        ));
        if after == before + all {
            assert(after.take((before + q + e + o).len() as int) =~= after);
        }
        lemma_goes_through(before + q + e, o, after);
        let len = (before + q).len() as int;
        assert(after.take(len) =~= after.take((before + q + e).len() as int).take(len));
        assert(after.take(len) =~= before + q);
        assert(divides_as(
            pk,
            query_instance,
            singles,
            advice,
            challenges,
            record.quotient,
            before,
            after,
        ));
    } else if protocol::stops_in_quotient(pk, singles, advice, challenges, before, after) {
        if !protocol::stops_before_quotient(pk, singles, advice, challenges, before, after) {
            let record = choose|record: QuotientRecord<F>|
                {
                    &&& #[trigger] protocol::advice_interpolated(
                        &pk.vk.domain,
                        advice,
                        record.advice_polys,
                    )
                    &&& channel::stops_in(
                        before,
                        protocol::quotient_steps(pk, singles, advice, challenges, record),
                        after,
                    )
                };
            assert(divides_as(
                pk,
                query_instance,
                singles,
                advice,
                challenges,
                record,
                before,
                after,
            ));
        }
    } else {
        let record = choose|record: QuotientRecord<F>|
            {
                &&& #[trigger] protocol::advice_interpolated(
                    &pk.vk.domain,
                    advice,
                    record.advice_polys,
                )
                &&& protocol::stops_in_evaluation(
                    pk,
                    query_instance,
                    instance_polys,
                    record.advice_polys,
                    before + protocol::quotient_steps(pk, singles, advice, challenges, record),
                    after,
                )
            };
        lemma_stopped_evaluation(
            pk,
            query_instance,
            instance_polys,
            record.advice_polys,
            blinds,
            before + protocol::quotient_steps(pk, singles, advice, challenges, record),
            after,
        );
        assert(divides_as(
            pk,
            query_instance,
            singles,
            advice,
            challenges,
            record,
            before,
            after,
        ));
    }
}

/// The steps were taken, or all but the last, which failed.
pub open spec fn is_last<F, P>(
    before: Seq<Step<F, P>>,
    steps: Seq<Step<F, P>>,
    after: Seq<Step<F, P>>,
) -> bool {
    after == before + steps || channel::fails_last(before, steps, after)
}

proof fn lemma_stopped_evaluation<F: Field, P>(
    pk: &ProvingKey<F>,
    query_instance: bool,
    instance_polys: Seq<Seq<Seq<F>>>,
    advice_polys: Seq<Seq<Seq<F>>>,
    blinds: Seq<Seq<F>>,
    before: Seq<Step<F, P>>,
    after: Seq<Step<F, P>>,
)
    requires
        protocol::stops_in_evaluation(
            pk,
            query_instance,
            instance_polys,
            advice_polys,
            before,
            after,
        ),
    ensures
        evaluates(
            pk,
            query_instance,
            instance_polys,
            advice_polys,
            blinds,
            before,
            after,
        ),
        before.is_prefix_of(after),
{
    let count = instance_polys.len();
    if exists|record: EvaluationRecord<F>|
        {
            &&& #[trigger] protocol::evaluation_recorded(
                pk,
                query_instance,
                instance_polys,
                advice_polys,
                record,
            )
            &&& stops_as(pk, query_instance, count, record, before, after)
        } {
        let record = choose|record: EvaluationRecord<F>|
            {
                &&& #[trigger] protocol::evaluation_recorded(
                    pk,
                    query_instance,
                    instance_polys,
                    advice_polys,
                    record,
                )
                &&& stops_as(pk, query_instance, count, record, before, after)
            };
        let c = protocol::column_eval_steps::<F, P>(query_instance, count, record);
        let e = protocol::argument_eval_steps::<F, P>(&pk.vk.cs, count, record.x, record.xn);
        if channel::stops_in(before, c, after) {
            channel::lemma_stops_earlier(before, c, e, after);
        } else {
            channel::lemma_stops_later(before, c, e, after);
        }
        assert(evaluates_as(
            pk,
            query_instance,
            instance_polys,
            advice_polys,
            blinds,
            record,
            before,
            after,
        ));
        lemma_goes_through(before, c + e, after);
    } else {
        lemma_stopped_evals(pk, query_instance, instance_polys, advice_polys, before, after);
    }
}

/// A run was stopped in the course of the recorded evaluations.
pub open spec fn stops_as<F: Field, P>(
    pk: &ProvingKey<F>,
    query_instance: bool,
    count: nat,
    record: EvaluationRecord<F>,
    before: Seq<Step<F, P>>,
    after: Seq<Step<F, P>>,
) -> bool {
    let columns = protocol::column_eval_steps(query_instance, count, record);
    ||| channel::stops_in(before, columns, after)
    ||| channel::stops_in(
        before + columns,
        protocol::argument_eval_steps(&pk.vk.cs, count, record.x, record.xn),
        after,
    )
}

proof fn lemma_stopped_evals<F: Field, P>(
    pk: &ProvingKey<F>,
    query_instance: bool,
    instance_polys: Seq<Seq<Seq<F>>>,
    advice_polys: Seq<Seq<Seq<F>>>,
    before: Seq<Step<F, P>>,
    after: Seq<Step<F, P>>,
)
    requires
        (query_instance && protocol::stops_in_instance_evals(pk, instance_polys, before, after))
            || protocol::stops_in_advice_evals(
            pk,
            query_instance,
            instance_polys,
            advice_polys,
            before,
            after,
        ),
    ensures
        before.is_prefix_of(after),
{
    let domain = &pk.vk.domain;
    let cs = &pk.vk.cs;
    if query_instance && protocol::stops_in_instance_evals(pk, instance_polys, before, after) {
        let x = choose|x: F| #[trigger]
            protocol::stops_in_evals(
                domain,
                cs.instance_queries@,
                instance_polys,
                x,
                before + seq![Step::Squeeze(x)],
                after,
            );
        let first = seq![Step::<F, P>::Squeeze(x)];
        let evals = choose|evals: Seq<Seq<F>>|
            {
                &&& evals.len() <= instance_polys.len()
                &&& #[trigger] protocol::all_evaluated(
                    domain,
                    cs.instance_queries@,
                    instance_polys.take(evals.len() as int),
                    x,
                    evals,
                )
                &&& channel::stops_in(
                    before + first,
                    protocol::for_circuits(evals.len(), protocol::eval_steps(evals)),
                    after,
                )
            };
        let part = protocol::for_circuits(evals.len(), protocol::eval_steps::<F, P>(evals));
        channel::lemma_stops_later(before, first, part, after);
        lemma_goes_through(before, first + part, after);
    } else {
        let (x, found) = choose|x: F, instance_evals: Seq<Seq<F>>|
            {
                &&& query_instance ==> protocol::all_evaluated(
                    domain,
                    cs.instance_queries@,
                    instance_polys,
                    x,
                    instance_evals,
                )
                &&& protocol::stops_in_evals(
                    domain,
                    cs.advice_queries@,
                    advice_polys,
                    x,
                    before + #[trigger] protocol::instance_eval_steps(
                        query_instance,
                        instance_polys.len(),
                        x,
                        instance_evals,
                    ),
                    after,
                )
            };
        let first = protocol::instance_eval_steps::<F, P>(
            query_instance,
            instance_polys.len(),
            x,
            found,
        );
        let evals = choose|evals: Seq<Seq<F>>|
            {
                &&& evals.len() <= advice_polys.len()
                &&& #[trigger] protocol::all_evaluated(
                    domain,
                    cs.advice_queries@,
                    advice_polys.take(evals.len() as int),
                    x,
                    evals,
                )
                &&& channel::stops_in(
                    before + first,
                    protocol::for_circuits(evals.len(), protocol::eval_steps(evals)),
                    after,
                )
            };
        let part = protocol::for_circuits(evals.len(), protocol::eval_steps::<F, P>(evals));
        channel::lemma_stops_later(before, first, part, after);
        lemma_goes_through(before, first + part, after);
    }
}

/// The challenges of the products in a run, which reaches the steps up to the
/// commitment to the polynomial that blinds the quotient.
pub proof fn lemma_first_stage<F: Field, P>(
    pk: &ProvingKey<F>,
    query_instance: bool,
    singles: Seq<InstanceSingle<F>>,
    advice: Seq<AdviceCommitted<F, LagrangeCoeff>>,
    challenges: Seq<F>,
    before: Seq<Step<F, P>>,
    after: Seq<Step<F, P>>,
) -> (record: QuotientRecord<F>)
    requires
        is_run(pk, query_instance, singles, advice, challenges, before, after),
    ensures
        halting::reaches(
            before,
            first_steps(
                pk,
                singles,
                advice,
                challenges,
                record.theta,
                record.beta,
                record.gamma,
            ),
            after,
        ),
        protocol::stops_before_quotient(pk, singles, advice, challenges, before, after)
            ==> channel::stops_in(
            before,
            first_steps(
                pk,
                singles,
                advice,
                challenges,
                record.theta,
                record.beta,
                record.gamma,
            ),
            after,
        ),
        !protocol::stops_before_quotient(pk, singles, advice, challenges, before, after)
            ==> divides_as(
            pk,
            query_instance,
            singles,
            advice,
            challenges,
            record,
            before,
            after,
        ),
{
    lemma_stages(pk, query_instance, singles, advice, challenges, before, after);
    if protocol::stops_before_quotient(pk, singles, advice, challenges, before, after) {
        let (theta, beta, gamma) = choose|theta: F, beta: F, gamma: F|
            channel::stops_in(
                before,
                #[trigger] protocol::product_commit_steps(
                    pk,
                    singles,
                    advice,
                    challenges,
                    theta,
                    beta,
                    gamma,
                ) + seq![Step::VanishingCommitted],
                after,
            );
        QuotientRecord {
            theta,
            beta,
            gamma,
            y: theta,
            advice_polys: Seq::empty(),
            h: Seq::empty(),
        }
    } else {
        let record = choose|record: QuotientRecord<F>| #[trigger]
            divides_as(
                pk,
                query_instance,
                singles,
                advice,
                challenges,
                record,
                before,
                after,
            );
        let first = first_steps::<F, P>(
            pk,
            singles,
            advice,
            challenges,
            record.theta,
            record.beta,
            record.gamma,
        );
        let rest = protocol::vanishing_steps::<F, P>(pk, singles, challenges, record).skip(1);
        assert(protocol::quotient_steps::<F, P>(pk, singles, advice, challenges, record)
            =~= first + rest);
        halting::lemma_reaches_parts(before, first, rest, after);
        record
    }
}

/// Two runs of the arguments that start after the same steps and are answered
/// alike take the same steps, if the columns and challenges are the same. If one
/// of them fails, so does the other, and in the same way.
pub proof fn lemma_arguments_alike<F: Field, P>(
    pk: &ProvingKey<F>,
    world: World<P>,
    query_instance: bool,
    singles_a: Seq<InstanceSingle<F>>,
    singles_b: Seq<InstanceSingle<F>>,
    advice_a: Seq<AdviceCommitted<F, LagrangeCoeff>>,
    advice_b: Seq<AdviceCommitted<F, LagrangeCoeff>>,
    challenges_a: Seq<F>,
    challenges_b: Seq<F>,
    before_a: Seq<Step<F, P>>,
    before_b: Seq<Step<F, P>>,
    after_a: Seq<Step<F, P>>,
    after_b: Seq<Step<F, P>>,
)
    requires
        pk.wf(pk.vk.domain.n),
        replay_proof::same_inputs(
            pk,
            singles_a,
            singles_b,
            advice_a,
            advice_b,
            challenges_a,
            challenges_b,
        ),
        are_answered(world, before_a, before_b, after_a, after_b),
        is_run(pk, query_instance, singles_a, advice_a, challenges_a, before_a, after_a),
        is_run(pk, query_instance, singles_b, advice_b, challenges_b, before_b, after_b),
    ensures
        replay::shapes(after_a) == replay::shapes(after_b),
{
    let a = lemma_first_stage(
        pk,
        query_instance,
        singles_a,
        advice_a,
        challenges_a,
        before_a,
        after_a,
    );
    let b = lemma_first_stage(
        pk,
        query_instance,
        singles_b,
        advice_b,
        challenges_b,
        before_b,
        after_b,
    );
    let fa = first_steps::<F, P>(
        pk,
        singles_a,
        advice_a,
        challenges_a,
        a.theta,
        a.beta,
        a.gamma,
    );
    let fb = first_steps::<F, P>(
        pk,
        singles_b,
        advice_b,
        challenges_b,
        b.theta,
        b.beta,
        b.gamma,
    );
    lemma_first_steps_alike(
        pk,
        world,
        singles_a,
        singles_b,
        advice_a,
        advice_b,
        challenges_a,
        challenges_b,
        a,
        b,
        before_a,
        before_b,
        after_a,
        after_b,
    );
    let v = seq![Step::<F, P>::VanishingCommitted];
    lemma_products_hold::<F, P>(
        pk,
        singles_a,
        advice_a,
        challenges_a,
        a.theta,
        a.beta,
        a.gamma,
    );
    lemma_products_hold::<F, P>(
        pk,
        singles_b,
        advice_b,
        challenges_b,
        b.theta,
        b.beta,
        b.gamma,
    );
    lemma_parts_hold(
        protocol::product_commit_steps::<F, P>(
            pk,
            singles_a,
            advice_a,
            challenges_a,
            a.theta,
            a.beta,
            a.gamma,
        ),
        v,
    );
    lemma_parts_hold(
        protocol::product_commit_steps::<F, P>(
            pk,
            singles_b,
            advice_b,
            challenges_b,
            b.theta,
            b.beta,
            b.gamma,
        ),
        v,
    );
    if protocol::stops_before_quotient(
        pk,
        singles_a,
        advice_a,
        challenges_a,
        before_a,
        after_a,
    ) {
        halting::lemma_stopped_short(before_a, fa, after_a);
    } else if protocol::stops_before_quotient(
        pk,
        singles_b,
        advice_b,
        challenges_b,
        before_b,
        after_b,
    ) {
        halting::lemma_stopped_short(before_b, fb, after_b);
    } else {
        lemma_divided_alike(
            pk,
            world,
            query_instance,
            singles_a,
            singles_b,
            advice_a,
            advice_b,
            challenges_a,
            challenges_b,
            a,
            b,
            before_a,
            before_b,
            after_a,
            after_b,
        );
    }
}

/// Two runs that get to the quotient are the same.
proof fn lemma_divided_alike<F: Field, P>(
    pk: &ProvingKey<F>,
    world: World<P>,
    query_instance: bool,
    singles_a: Seq<InstanceSingle<F>>,
    singles_b: Seq<InstanceSingle<F>>,
    advice_a: Seq<AdviceCommitted<F, LagrangeCoeff>>,
    advice_b: Seq<AdviceCommitted<F, LagrangeCoeff>>,
    challenges_a: Seq<F>,
    challenges_b: Seq<F>,
    a: QuotientRecord<F>,
    b: QuotientRecord<F>,
    before_a: Seq<Step<F, P>>,
    before_b: Seq<Step<F, P>>,
    after_a: Seq<Step<F, P>>,
    after_b: Seq<Step<F, P>>,
)
    requires
        pk.wf(pk.vk.domain.n),
        replay_proof::same_inputs(
            pk,
            singles_a,
            singles_b,
            advice_a,
            advice_b,
            challenges_a,
            challenges_b,
        ),
        are_answered(world, before_a, before_b, after_a, after_b),
        divides_as(
            pk,
            query_instance,
            singles_a,
            advice_a,
            challenges_a,
            a,
            before_a,
            after_a,
        ),
        divides_as(
            pk,
            query_instance,
            singles_b,
            advice_b,
            challenges_b,
            b,
            before_b,
            after_b,
        ),
    ensures
        replay::shapes(after_a) == replay::shapes(after_b),
{
    let qa = protocol::quotient_steps::<F, P>(pk, singles_a, advice_a, challenges_a, a);
    let qb = protocol::quotient_steps::<F, P>(pk, singles_b, advice_b, challenges_b, b);
    replay_proof::lemma_same_columns(
        pk,
        singles_a,
        singles_b,
        advice_a,
        advice_b,
        challenges_a,
        challenges_b,
        a.advice_polys,
        b.advice_polys,
    );
    lemma_quotient_alike(
        pk,
        world,
        singles_a,
        singles_b,
        advice_a,
        advice_b,
        challenges_a,
        challenges_b,
        a,
        b,
        before_a,
        before_b,
        after_a,
        after_b,
    );
    lemma_products_hold::<F, P>(
        pk,
        singles_a,
        advice_a,
        challenges_a,
        a.theta,
        a.beta,
        a.gamma,
    );
    lemma_products_hold::<F, P>(
        pk,
        singles_b,
        advice_b,
        challenges_b,
        b.theta,
        b.beta,
        b.gamma,
    );
    lemma_parts_hold(
        protocol::product_commit_steps::<F, P>(
            pk,
            singles_a,
            advice_a,
            challenges_a,
            a.theta,
            a.beta,
            a.gamma,
        ),
        protocol::vanishing_steps::<F, P>(pk, singles_a, challenges_a, a),
    );
    lemma_parts_hold(
        protocol::product_commit_steps::<F, P>(
            pk,
            singles_b,
            advice_b,
            challenges_b,
            b.theta,
            b.beta,
            b.gamma,
        ),
        protocol::vanishing_steps::<F, P>(pk, singles_b, challenges_b, b),
    );
    if channel::stops_in(before_a, qa, after_a) {
        halting::lemma_stopped_short(before_a, qa, after_a);
    } else if channel::stops_in(before_b, qb, after_b) {
        halting::lemma_stopped_short(before_b, qb, after_b);
    } else if replay::shapes(after_a) != replay::shapes(after_b) {
        lemma_evaluations_alike(
            pk,
            world,
            query_instance,
            protocol::instance_polys_of(singles_a),
            protocol::instance_polys_of(singles_b),
            a.advice_polys,
            b.advice_polys,
            protocol::all_blinds_of(advice_a),
            protocol::all_blinds_of(advice_b),
            before_a + qa,
            before_b + qb,
            after_a,
            after_b,
        );
    }
}

/// A run of the arguments starts after what came before.
pub proof fn lemma_run_goes_on<F: Field, P>(
    pk: &ProvingKey<F>,
    query_instance: bool,
    singles: Seq<InstanceSingle<F>>,
    advice: Seq<AdviceCommitted<F, LagrangeCoeff>>,
    challenges: Seq<F>,
    before: Seq<Step<F, P>>,
    after: Seq<Step<F, P>>,
)
    requires
        is_run(pk, query_instance, singles, advice, challenges, before, after),
    ensures
        before.is_prefix_of(after),
        before.len() < after.len(),
{
    let record = lemma_first_stage(
        pk,
        query_instance,
        singles,
        advice,
        challenges,
        before,
        after,
    );
    let first = first_steps::<F, P>(
        pk,
        singles,
        advice,
        challenges,
        record.theta,
        record.beta,
        record.gamma,
    );
    assert(first.last() == Step::<F, P>::VanishingCommitted);
    lemma_goes_through(before, first, after);
}

} // verus!
