//! Two runs of the arguments that are answered alike take the same steps.

use super::channel;
use super::channel::Step;
use super::circuit;
use super::circuit::Column;
use super::protocol;
use super::protocol::{
    CircuitOpenings, EvaluationRecord, OpeningRecord, QuotientRecord,
};
use super::replay;
use super::replay::World;
use super::witness;
use super::witness::{AdviceCommitted, InstanceSingle};
use super::ProvingKey;
use crate::field;
use crate::field::Field;
use crate::poly::commitment::Query;
use crate::poly::laws;
use crate::poly::{EvaluationDomain, LagrangeCoeff, Rotation};
use vstd::prelude::*;

verus! {

/// The instance columns are alike in both bases.
pub open spec fn same_singles<F: Field>(
    a: Seq<InstanceSingle<F>>,
    b: Seq<InstanceSingle<F>>,
) -> bool {
    &&& a.len() == b.len()
    &&& forall|i: int|
        #![trigger a[i]]
        0 <= i < a.len() ==> {
            &&& replay::lists(replay::instance_values(a[i]))
                == replay::lists(replay::instance_values(b[i]))
            &&& replay::lists(channel::values_of(a[i].instance_polys@)) == replay::lists(
                channel::values_of(b[i].instance_polys@),
            )
        }
}

pub proof fn lemma_for_shapes<F: Field, P>(
    count: nat,
    f: spec_fn(int) -> Seq<Step<F, P>>,
    g: spec_fn(int) -> Seq<Step<F, P>>,
)
    requires
        forall|i: int| 0 <= i < count ==> replay::shapes(#[trigger] f(i)) == replay::shapes(g(i)),
    ensures
        replay::shapes(protocol::for_circuits(count, f))
            == replay::shapes(protocol::for_circuits(count, g)),
    decreases count,
{
    if count > 0 {
        let m = (count - 1) as nat;
        lemma_for_shapes(m, f, g);
        replay::lemma_shapes_concat(protocol::for_circuits(m, f), f(count - 1));
        replay::lemma_shapes_concat(protocol::for_circuits(m, g), g(count - 1));
        assert(replay::shapes(f(count - 1)) == replay::shapes(g(count - 1)));
    }
}

/// The requests are the same, one for one.
pub open spec fn same_requests<P>(a: Seq<Step<int, P>>, b: Seq<Step<int, P>>) -> bool {
    &&& a.len() == b.len()
    &&& forall|k: int| 0 <= k < a.len() ==> replay::request(#[trigger] a[k])
        == replay::request(b[k])
}

proof fn lemma_for_requests<F: Field, P>(
    count: nat,
    f: spec_fn(int) -> Seq<Step<F, P>>,
    g: spec_fn(int) -> Seq<Step<F, P>>,
)
    requires
        forall|i: int|
            0 <= i < count ==> same_requests(
                replay::shapes(#[trigger] f(i)),
                replay::shapes(g(i)),
            ),
    ensures
        same_requests(
            replay::shapes(protocol::for_circuits(count, f)),
            replay::shapes(protocol::for_circuits(count, g)),
        ),
    decreases count,
{
    if count > 0 {
        let m = (count - 1) as nat;
        lemma_for_requests(m, f, g);
        let (a, b) = (protocol::for_circuits(m, f), protocol::for_circuits(m, g));
        let (x, y) = (f(count - 1), g(count - 1));
        replay::lemma_shapes_concat(a, x);
        replay::lemma_shapes_concat(b, y);
        assert(same_requests(replay::shapes(x), replay::shapes(y)));
        let all_a = replay::shapes(a) + replay::shapes(x);
        let all_b = replay::shapes(b) + replay::shapes(y);
        assert forall|k: int| 0 <= k < all_a.len() implies replay::request(#[trigger] all_a[k])
            == replay::request(
            all_b[k],
        ) by {
            if k < replay::shapes(a).len() {
                assert(replay::request(replay::shapes(a)[k])
                    == replay::request(replay::shapes(b)[k]));
            } else {
                let j = k - replay::shapes(a).len();
                assert(replay::request(replay::shapes(x)[j])
                    == replay::request(replay::shapes(y)[j]));
            }
        }
    }
}

proof fn lemma_for_parts<F: Field, P>(
    count: nat,
    f: spec_fn(int) -> Seq<Step<F, P>>,
    g: spec_fn(int) -> Seq<Step<F, P>>,
)
    requires
        forall|i: int| 0 <= i < count ==> (#[trigger] f(i)).len() == g(i).len(),
        replay::shapes(protocol::for_circuits(count, f))
            == replay::shapes(protocol::for_circuits(count, g)),
    ensures
        forall|i: int| 0 <= i < count ==> replay::shapes(#[trigger] f(i)) == replay::shapes(g(i)),
    decreases count,
{
    if count > 0 {
        let m = (count - 1) as nat;
        let (a, b) = (
            replay::shapes(protocol::for_circuits(m, f)),
            replay::shapes(protocol::for_circuits(m, g)),
        );
        let (x, y) = (replay::shapes(f(count - 1)), replay::shapes(g(count - 1)));
        replay::lemma_shapes_concat(protocol::for_circuits(m, f), f(count - 1));
        replay::lemma_shapes_concat(protocol::for_circuits(m, g), g(count - 1));
        assert(f(count - 1).len() == g(count - 1).len());
        assert(a + x == b + y);
        assert((a + x).len() == a.len() + x.len() && (b + y).len() == b.len() + y.len());
        assert((a + x).take(a.len() as int) =~= a);
        assert((b + y).take(a.len() as int) =~= b);
        assert((a + x).skip(a.len() as int) =~= x);
        assert((b + y).skip(a.len() as int) =~= y);
        lemma_for_parts(m, f, g);
        assert forall|i: int| 0 <= i < count implies replay::shapes(#[trigger] f(i))
            == replay::shapes(g(i)) by {
            if i == count - 1 {
                assert(x == y);
            }
        }
    }
}

/// The same inputs to the arguments lead to the same requests up to the products.
pub proof fn lemma_products_repeat<F: Field, P>(
    pk: &ProvingKey<F>,
    world: World<P>,
    before: Seq<Step<int, P>>,
    singles_a: Seq<InstanceSingle<F>>,
    singles_b: Seq<InstanceSingle<F>>,
    advice_a: Seq<AdviceCommitted<F, LagrangeCoeff>>,
    advice_b: Seq<AdviceCommitted<F, LagrangeCoeff>>,
    challenges_a: Seq<F>,
    challenges_b: Seq<F>,
    a: QuotientRecord<F>,
    b: QuotientRecord<F>,
)
    requires
        same_singles(singles_a, singles_b),
        replay::same_advice(advice_a, advice_b),
        advice_a.len() == singles_a.len(),
        field::values_of(challenges_a) == field::values_of(challenges_b),
        replay::is_answered(
            world,
            before + replay::shapes(
                protocol::product_commit_steps::<F, P>(
                    pk,
                    singles_a,
                    advice_a,
                    challenges_a,
                    a.theta,
                    a.beta,
                    a.gamma,
                ),
            ),
        ),
        replay::is_answered(
            world,
            before + replay::shapes(
                protocol::product_commit_steps::<F, P>(
                    pk,
                    singles_b,
                    advice_b,
                    challenges_b,
                    b.theta,
                    b.beta,
                    b.gamma,
                ),
            ),
        ),
    ensures
        a.theta.value() == b.theta.value(),
        a.beta.value() == b.beta.value(),
        a.gamma.value() == b.gamma.value(),
        replay::shapes(
            protocol::product_commit_steps::<F, P>(
                pk,
                singles_a,
                advice_a,
                challenges_a,
                a.theta,
                a.beta,
                a.gamma,
            ),
        ) == replay::shapes(
            protocol::product_commit_steps::<F, P>(
                pk,
                singles_b,
                advice_b,
                challenges_b,
                b.theta,
                b.beta,
                b.gamma,
            ),
        ),
{
    let count = singles_a.len();
    let fa = protocol::permuted_steps::<F, P>(pk, a.theta, singles_a, advice_a, challenges_a);
    let fb = protocol::permuted_steps::<F, P>(pk, b.theta, singles_b, advice_b, challenges_b);
    let ga = protocol::product_steps::<F, P>(&pk.vk.cs, a.beta, a.gamma);
    let gb = protocol::product_steps::<F, P>(&pk.vk.cs, b.beta, b.gamma);
    let a1 = seq![Step::<int, P>::Squeeze(a.theta.value())];
    let b1 = seq![Step::<int, P>::Squeeze(b.theta.value())];
    let a2 = replay::shapes(protocol::for_circuits(count, fa));
    let b2 = replay::shapes(protocol::for_circuits(count, fb));
    let a3 = seq![
        Step::<int, P>::Squeeze(a.beta.value()),
        Step::<int, P>::Squeeze(a.gamma.value()),
    ];
    let b3 = seq![
        Step::<int, P>::Squeeze(b.beta.value()),
        Step::<int, P>::Squeeze(b.gamma.value()),
    ];
    let a4 = replay::shapes(
        protocol::permutation_steps::<F, P>(pk, singles_a, advice_a, a.beta, a.gamma),
    );
    let b4 = replay::shapes(
        protocol::permutation_steps::<F, P>(pk, singles_b, advice_b, b.beta, b.gamma),
    );
    let a5 = replay::shapes(protocol::for_circuits(count, ga));
    let b5 = replay::shapes(protocol::for_circuits(count, gb));
    let all_a = replay::shapes(
        protocol::product_commit_steps::<F, P>(
            pk,
            singles_a,
            advice_a,
            challenges_a,
            a.theta,
            a.beta,
            a.gamma,
        ),
    );
    let all_b = replay::shapes(
        protocol::product_commit_steps::<F, P>(
            pk,
            singles_b,
            advice_b,
            challenges_b,
            b.theta,
            b.beta,
            b.gamma,
        ),
    );
    assert(all_a =~= a1 + a2 + a3 + a4 + a5);
    assert(all_b =~= b1 + b2 + b3 + b4 + b5);
    assert(before + all_a =~= (before + a1) + (a2 + a3 + a4 + a5));
    assert(before + all_b =~= (before + b1) + (b2 + b3 + b4 + b5));
    replay::lemma_answered_prefix(world, before + a1, a2 + a3 + a4 + a5);
    replay::lemma_answered_prefix(world, before + b1, b2 + b3 + b4 + b5);
    replay::lemma_same_answers(world, before, a1, b1);
    assert(a1[0] == b1[0]);
    assert forall|i: int| 0 <= i < count implies replay::shapes(#[trigger] fa(i))
        == replay::shapes(fb(i)) by {
        assert(singles_a[i] == singles_a[i] && advice_a[i] == advice_a[i]);
        assert(replay::shapes(fa(i)) =~= replay::shapes(fb(i)));
    }
    lemma_for_shapes(count, fa, fb);
    let after = before + a1 + a2;
    assert(before + all_a =~= (after + a3) + (a4 + a5));
    assert(before + all_b =~= (after + b3) + (b4 + b5));
    replay::lemma_answered_prefix(world, after + a3, a4 + a5);
    replay::lemma_answered_prefix(world, after + b3, b4 + b5);
    replay::lemma_same_answers(world, after, a3, b3);
    assert(a3[0] == b3[0] && a3[1] == b3[1]);
    assert(a4 =~= b4) by {
        assert forall|i: int| 0 <= i < count implies a4[i] == (#[trigger] b4[i]) by {
            assert(singles_a[i] == singles_a[i] && advice_a[i] == advice_a[i]);
        }
    }
    assert forall|i: int| 0 <= i < count implies replay::shapes(#[trigger] ga(i))
        == replay::shapes(gb(i)) by {
        assert(replay::shapes(ga(i)) =~= replay::shapes(gb(i)));
    }
    lemma_for_shapes(count, ga, gb);
}

/// The same inputs to the vanishing argument lead to the same quotient.
pub proof fn lemma_vanishing_repeats<F: Field, P>(
    pk: &ProvingKey<F>,
    world: World<P>,
    before: Seq<Step<int, P>>,
    singles_a: Seq<InstanceSingle<F>>,
    singles_b: Seq<InstanceSingle<F>>,
    challenges_a: Seq<F>,
    challenges_b: Seq<F>,
    a: QuotientRecord<F>,
    b: QuotientRecord<F>,
)
    requires
        same_singles(singles_a, singles_b),
        field::values_of(challenges_a) == field::values_of(challenges_b),
        a.theta.value() == b.theta.value(),
        a.beta.value() == b.beta.value(),
        a.gamma.value() == b.gamma.value(),
        replay::tables(a.advice_polys) == replay::tables(b.advice_polys),
        replay::is_answered(
            world,
            before + replay::shapes(
                protocol::vanishing_steps::<F, P>(pk, singles_a, challenges_a, a),
            ),
        ),
        replay::is_answered(
            world,
            before + replay::shapes(
                protocol::vanishing_steps::<F, P>(pk, singles_b, challenges_b, b),
            ),
        ),
    ensures
        replay::shapes(protocol::vanishing_steps::<F, P>(pk, singles_a, challenges_a, a))
            == replay::shapes(
            protocol::vanishing_steps::<F, P>(pk, singles_b, challenges_b, b),
        ),
{
    let all_a = replay::shapes(protocol::vanishing_steps::<F, P>(pk, singles_a, challenges_a, a));
    let all_b = replay::shapes(protocol::vanishing_steps::<F, P>(pk, singles_b, challenges_b, b));
    let (pa, pb) = (
        protocol::instance_polys_of(singles_a),
        protocol::instance_polys_of(singles_b),
    );
    assert(replay::tables(pa) =~= replay::tables(pb)) by {
        assert forall|i: int| 0 <= i < singles_a.len() implies replay::tables(pa)[i] == (
        #[trigger] replay::tables(pb)[i]) by {
            assert(singles_a[i] == singles_a[i]);
        }
    }
    let (a1, b1) = (all_a.take(2), all_b.take(2));
    let (a2, b2) = (all_a.subrange(2, 3), all_b.subrange(2, 3));
    let (a3, b3) = (all_a.skip(3), all_b.skip(3));
    assert(before + all_a =~= (before + a1) + (a2 + a3));
    assert(before + all_b =~= (before + b1) + (b2 + b3));
    replay::lemma_answered_prefix(world, before + a1, a2 + a3);
    replay::lemma_answered_prefix(world, before + b1, b2 + b3);
    replay::lemma_same_answers(world, before, a1, b1);
    assert(a1[1] == Step::<int, P>::Squeeze(a.y.value()));
    assert(b1[1] == Step::<int, P>::Squeeze(b.y.value()));
    let after = before + a1;
    assert(before + all_a =~= (after + a2) + a3);
    assert(before + all_b =~= (after + b2) + b3);
    replay::lemma_answered_prefix(world, after + a2, a3);
    replay::lemma_answered_prefix(world, after + b2, b3);
    assert(replay::request(a2[0]) == replay::request(b2[0]));
    replay::lemma_same_answers(world, after, a2, b2);
    assert(a2[0]->Quotient_h == field::values_of(a.h));
    assert(b2[0]->Quotient_h == field::values_of(b.h));
    assert(all_a =~= a1 + a2 + a3);
    assert(all_b =~= b1 + b2 + b3);
    assert(a3 =~= b3);
}

/// Values of the same columns at the same points are the same.
proof fn lemma_same_evals<F: Field, K>(
    domain: &EvaluationDomain<F>,
    queries: Seq<(Column<K>, Rotation)>,
    polys_a: Seq<Seq<F>>,
    polys_b: Seq<Seq<F>>,
    x_a: F,
    x_b: F,
    a: Seq<F>,
    b: Seq<F>,
)
    requires
        circuit::queries_in_range(queries, polys_a.len() as int),
        replay::lists(polys_a) == replay::lists(polys_b),
        x_a.value() == x_b.value(),
        protocol::are_evaluations(domain, queries, polys_a, x_a, a),
        protocol::are_evaluations(domain, queries, polys_b, x_b, b),
    ensures
        field::values_of(a) == field::values_of(b),
{
    assert forall|q: int| 0 <= q < a.len() implies (#[trigger] a[q]).value() == b[q].value() by {
        let c = queries[q].0.index as int;
        assert(c < polys_a.len());
        assert(replay::lists(polys_a)[c] == replay::lists(polys_b)[c]);
        assert(replay::lists(polys_b).len() == polys_b.len());
        assert(b[q].value() == b[q].value());
    }
    assert(field::values_of(a) =~= field::values_of(b));
}

proof fn lemma_written_shapes<F: Field, P>(a: Seq<F>, b: Seq<F>)
    requires
        field::values_of(a) == field::values_of(b),
    ensures
        replay::shapes(protocol::write_scalar_steps::<F, P>(a)) == replay::shapes(
            protocol::write_scalar_steps::<F, P>(b),
        ),
{
    let (va, vb) = (field::values_of(a), field::values_of(b));
    assert(va.len() == a.len() && vb.len() == b.len());
    let sa = replay::shapes(protocol::write_scalar_steps::<F, P>(a));
    let sb = replay::shapes(protocol::write_scalar_steps::<F, P>(b));
    assert forall|k: int| 0 <= k < sa.len() implies sa[k] == #[trigger] sb[k] by {
        assert(va[k] == vb[k]);
    }
    assert(sa =~= sb);
}

/// Evaluations of the columns of each circuit are the same.
pub proof fn lemma_all_evals<F: Field, P, K>(
    domain: &EvaluationDomain<F>,
    queries: Seq<(Column<K>, Rotation)>,
    polys_a: Seq<Seq<Seq<F>>>,
    polys_b: Seq<Seq<Seq<F>>>,
    columns: int,
    x_a: F,
    x_b: F,
    a: Seq<Seq<F>>,
    b: Seq<Seq<F>>,
)
    requires
        circuit::queries_in_range(queries, columns),
        forall|i: int| 0 <= i < polys_a.len() ==> (#[trigger] polys_a[i]).len() == columns,
        replay::tables(polys_a) == replay::tables(polys_b),
        x_a.value() == x_b.value(),
        protocol::all_evaluated(domain, queries, polys_a, x_a, a),
        protocol::all_evaluated(domain, queries, polys_b, x_b, b),
    ensures
        replay::shapes(
            protocol::for_circuits(polys_a.len(), protocol::eval_steps::<F, P>(a)),
        ) == replay::shapes(
            protocol::for_circuits(polys_a.len(), protocol::eval_steps::<F, P>(b)),
        ),
{
    let (f, g) = (protocol::eval_steps::<F, P>(a), protocol::eval_steps::<F, P>(b));
    assert(replay::tables(polys_a).len() == polys_a.len());
    assert(replay::tables(polys_b).len() == polys_b.len());
    assert forall|i: int| 0 <= i < polys_a.len() implies replay::shapes(#[trigger] f(i))
        == replay::shapes(g(i)) by {
        assert(replay::tables(polys_a)[i] == replay::tables(polys_b)[i]);
        assert(polys_a[i].len() == columns);
        assert(protocol::are_evaluations(domain, queries, polys_a[i], x_a, a[i]));
        assert(protocol::are_evaluations(domain, queries, polys_b[i], x_b, b[i]));
        lemma_same_evals(domain, queries, polys_a[i], polys_b[i], x_a, x_b, a[i], b[i]);
        lemma_written_shapes::<F, P>(a[i], b[i]);
    }
    lemma_for_shapes(polys_a.len(), f, g);
}

/// The tables have a row of `columns` columns for each circuit.
pub open spec fn has_columns<F>(table: Seq<Seq<Seq<F>>>, circuits: int, columns: int) -> bool {
    &&& table.len() == circuits
    &&& forall|i: int| 0 <= i < circuits ==> (#[trigger] table[i]).len() == columns
}

/// The same columns lead to the same evaluations.
pub proof fn lemma_evaluation_repeats<F: Field, P>(
    pk: &ProvingKey<F>,
    world: World<P>,
    before: Seq<Step<int, P>>,
    query_instance: bool,
    circuits: nat,
    instance_a: Seq<Seq<Seq<F>>>,
    instance_b: Seq<Seq<Seq<F>>>,
    advice_a: Seq<Seq<Seq<F>>>,
    advice_b: Seq<Seq<Seq<F>>>,
    a: EvaluationRecord<F>,
    b: EvaluationRecord<F>,
)
    requires
        pk.wf(pk.vk.domain.n),
        has_columns(instance_a, circuits as int, pk.vk.cs.num_instance_columns as int),
        has_columns(advice_a, circuits as int, pk.vk.cs.num_advice_columns as int),
        replay::tables(instance_a) == replay::tables(instance_b),
        replay::tables(advice_a) == replay::tables(advice_b),
        protocol::evaluation_recorded(pk, query_instance, instance_a, advice_a, a),
        protocol::evaluation_recorded(pk, query_instance, instance_b, advice_b, b),
        replay::is_answered(
            world,
            before + replay::shapes(
                protocol::evaluation_steps::<F, P>(&pk.vk.cs, query_instance, circuits, a),
            ),
        ),
        replay::is_answered(
            world,
            before + replay::shapes(
                protocol::evaluation_steps::<F, P>(&pk.vk.cs, query_instance, circuits, b),
            ),
        ),
    ensures
        a.x.value() == b.x.value(),
        replay::shapes(
            protocol::evaluation_steps::<F, P>(&pk.vk.cs, query_instance, circuits, a),
        ) == replay::shapes(
            protocol::evaluation_steps::<F, P>(&pk.vk.cs, query_instance, circuits, b),
        ),
{
    let cs = &pk.vk.cs;
    let domain = &pk.vk.domain;
    let all_a = protocol::evaluation_steps::<F, P>(cs, query_instance, circuits, a);
    let all_b = protocol::evaluation_steps::<F, P>(cs, query_instance, circuits, b);
    let (fa, fb) = (
        seq![Step::<F, P>::Squeeze(a.x)],
        seq![Step::<F, P>::Squeeze(b.x)],
    );
    let (ia, ib) = if query_instance {
        (
            protocol::for_circuits(circuits, protocol::eval_steps::<F, P>(a.instance_evals)),
            protocol::for_circuits(circuits, protocol::eval_steps::<F, P>(b.instance_evals)),
        )
    } else {
        (Seq::empty(), Seq::empty())
    };
    let (da, db) = (
        protocol::for_circuits(circuits, protocol::eval_steps::<F, P>(a.advice_evals)),
        protocol::for_circuits(circuits, protocol::eval_steps::<F, P>(b.advice_evals)),
    );
    let (ca, cb) = (
        protocol::write_scalar_steps::<F, P>(a.fixed_evals),
        protocol::write_scalar_steps::<F, P>(b.fixed_evals),
    );
    let (ra, rb) = (
        protocol::argument_eval_steps::<F, P>(cs, circuits, a.x, a.xn),
        protocol::argument_eval_steps::<F, P>(cs, circuits, b.x, b.xn),
    );
    let (sa, sb) = (ia + da + ca + ra, ib + db + cb + rb);
    assert(all_a =~= fa + sa);
    assert(all_b =~= fb + sb);
    replay::lemma_shapes_concat(fa, sa);
    replay::lemma_shapes_concat(fb, sb);
    let (ha, hb) = (replay::shapes(fa), replay::shapes(fb));
    assert(before + replay::shapes(all_a) =~= (before + ha) + replay::shapes(sa));
    assert(before + replay::shapes(all_b) =~= (before + hb) + replay::shapes(sb));
    replay::lemma_answered_prefix(world, before + ha, replay::shapes(sa));
    replay::lemma_answered_prefix(world, before + hb, replay::shapes(sb));
    replay::lemma_same_answers(world, before, ha, hb);
    assert(ha[0] == Step::<int, P>::Squeeze(a.x.value()));
    assert(hb[0] == Step::<int, P>::Squeeze(b.x.value()));
    if query_instance {
        lemma_all_evals::<F, P, circuit::Instance>(
            domain,
            cs.instance_queries@,
            instance_a,
            instance_b,
            cs.num_instance_columns as int,
            a.x,
            b.x,
            a.instance_evals,
            b.instance_evals,
        );
    }
    lemma_all_evals::<F, P, circuit::Advice>(
        domain,
        cs.advice_queries@,
        advice_a,
        advice_b,
        cs.num_advice_columns as int,
        a.x,
        b.x,
        a.advice_evals,
        b.advice_evals,
    );
    let fixed = channel::values_of(pk.fixed_polys@);
    lemma_same_evals(
        domain,
        cs.fixed_queries@,
        fixed,
        fixed,
        a.x,
        b.x,
        a.fixed_evals,
        b.fixed_evals,
    );
    lemma_written_shapes::<F, P>(a.fixed_evals, b.fixed_evals);
    lemma_argument_evals::<F, P>(pk, circuits, a.x, b.x, a.xn, b.xn);
    replay::lemma_shapes_concat(ia + da + ca, ra);
    replay::lemma_shapes_concat(ib + db + cb, rb);
    replay::lemma_shapes_concat(ia + da, ca);
    replay::lemma_shapes_concat(ib + db, cb);
    replay::lemma_shapes_concat(ia, da);
    replay::lemma_shapes_concat(ib, db);
}

proof fn lemma_argument_evals<F: Field, P>(
    pk: &ProvingKey<F>,
    circuits: nat,
    x_a: F,
    x_b: F,
    xn_a: F,
    xn_b: F,
)
    requires
        x_a.value() == x_b.value(),
        xn_a.value() == xn_b.value(),
    ensures
        replay::shapes(
            protocol::argument_eval_steps::<F, P>(&pk.vk.cs, circuits, x_a, xn_a),
        ) == replay::shapes(
            protocol::argument_eval_steps::<F, P>(&pk.vk.cs, circuits, x_b, xn_b),
        ),
{
    let cs = &pk.vk.cs;
    let (f, g) = (
        protocol::lookup_eval_steps::<F, P>(cs, x_a),
        protocol::lookup_eval_steps::<F, P>(cs, x_b),
    );
    assert forall|i: int| 0 <= i < circuits implies replay::shapes(#[trigger] f(i))
        == replay::shapes(g(i)) by {
        assert(replay::shapes(f(i)) =~= replay::shapes(g(i)));
    }
    lemma_for_shapes(circuits, f, g);
    let (pa, pb) = (
        protocol::permutation_eval_steps::<F, P>(circuits, x_a),
        protocol::permutation_eval_steps::<F, P>(circuits, x_b),
    );
    assert(replay::shapes(pa) =~= replay::shapes(pb));
    let ha = seq![
        Step::<F, P>::VanishingEvaluated { x: x_a, xn: xn_a },
        Step::<F, P>::CommonPermutationEvaluated { x: x_a },
    ];
    let hb = seq![
        Step::<F, P>::VanishingEvaluated { x: x_b, xn: xn_b },
        Step::<F, P>::CommonPermutationEvaluated { x: x_b },
    ];
    assert(replay::shapes(ha) =~= replay::shapes(hb));
    replay::lemma_shapes_concat(ha + pa, protocol::for_circuits(circuits, f));
    replay::lemma_shapes_concat(hb + pb, protocol::for_circuits(circuits, g));
    replay::lemma_shapes_concat(ha, pa);
    replay::lemma_shapes_concat(hb, pb);
}

/// The values of blinds, where there are any.
pub open spec fn blind_values<F: Field>(blinds: Option<Seq<F>>) -> Option<Seq<int>> {
    match blinds {
        Some(b) => Some(field::values_of(b)),
        None => None,
    }
}

/// Queries of the same columns at the same points are the same.
proof fn lemma_same_queries<F: Field, K>(
    domain: &EvaluationDomain<F>,
    queries: Seq<(Column<K>, Rotation)>,
    polys_a: Seq<Seq<F>>,
    polys_b: Seq<Seq<F>>,
    blinds_a: Option<Seq<F>>,
    blinds_b: Option<Seq<F>>,
    x_a: F,
    x_b: F,
    a: Seq<Query<F>>,
    b: Seq<Query<F>>,
)
    requires
        circuit::queries_in_range(queries, polys_a.len() as int),
        replay::lists(polys_a) == replay::lists(polys_b),
        blind_values(blinds_a) == blind_values(blinds_b),
        blinds_a is Some ==> blinds_a->0.len() == polys_a.len(),
        x_a.value() == x_b.value(),
        protocol::are_queries(domain, queries, polys_a, blinds_a, x_a, a),
        protocol::are_queries(domain, queries, polys_b, blinds_b, x_b, b),
    ensures
        replay::query_values(a) == replay::query_values(b),
{
    assert(replay::lists(polys_b).len() == polys_b.len());
    assert forall|q: int| 0 <= q < a.len() implies replay::query_value(#[trigger] a[q])
        == replay::query_value(b[q]) by {
        let c = queries[q].0.index as int;
        assert(c < polys_a.len());
        assert(protocol::is_rotated(domain, x_a, queries[q].1, a[q].point));
        assert(protocol::is_rotated(domain, x_b, queries[q].1, b[q].point));
        assert(replay::lists(polys_a)[c] == replay::lists(polys_b)[c]);
        if blinds_a is Some {
            let (ba, bb) = (field::values_of(blinds_a->0), field::values_of(blinds_b->0));
            assert(ba[c] == bb[c]);
            assert(bb.len() == blinds_b->0.len());
        }
    }
    assert(replay::query_values(a) =~= replay::query_values(b));
}

proof fn lemma_query_values_concat<F: Field>(a: Seq<Query<F>>, b: Seq<Query<F>>)
    ensures
        replay::query_values(a + b) == replay::query_values(a) + replay::query_values(b),
{
    assert(replay::query_values(a + b) =~= replay::query_values(a) + replay::query_values(b));
}

proof fn lemma_concat_values<F: Field>(a: Seq<Seq<Query<F>>>, b: Seq<Seq<Query<F>>>)
    requires
        a.len() == b.len(),
        forall|j: int|
            0 <= j < a.len() ==> replay::query_values(#[trigger] a[j]) == replay::query_values(
                b[j],
            ),
    ensures
        replay::query_values(protocol::concat(a)) == replay::query_values(protocol::concat(b)),
    decreases a.len(),
{
    if a.len() > 0 {
        let (a1, b1) = (a.drop_last(), b.drop_last());
        assert forall|j: int| 0 <= j < a1.len() implies replay::query_values(#[trigger] a1[j])
            == replay::query_values(b1[j]) by {
            assert(a1[j] == a[j]);
        }
        lemma_concat_values(a1, b1);
        lemma_query_values_concat(protocol::concat(a1), a.last());
        lemma_query_values_concat(protocol::concat(b1), b.last());
        assert(a.last() == a[a.len() - 1]);
    }
}

/// The openings of a circuit are alike.
pub open spec fn same_openings<F: Field>(a: CircuitOpenings<F>, b: CircuitOpenings<F>) -> bool {
    &&& replay::query_values(a.instance) == replay::query_values(b.instance)
    &&& replay::query_values(a.advice) == replay::query_values(b.advice)
    &&& replay::query_values(a.permutation) == replay::query_values(b.permutation)
    &&& a.lookups.len() == b.lookups.len()
    &&& forall|j: int|
        0 <= j < a.lookups.len() ==> replay::query_values(#[trigger] a.lookups[j])
            == replay::query_values(b.lookups[j])
}

proof fn lemma_circuits_queries<F: Field>(
    a: Seq<CircuitOpenings<F>>,
    b: Seq<CircuitOpenings<F>>,
)
    requires
        a.len() == b.len(),
        forall|i: int| 0 <= i < a.len() ==> same_openings(#[trigger] a[i], b[i]),
    ensures
        replay::query_values(protocol::circuits_queries(a)) == replay::query_values(
            protocol::circuits_queries(b),
        ),
    decreases a.len(),
{
    if a.len() > 0 {
        let (a1, b1) = (a.drop_last(), b.drop_last());
        assert forall|i: int| 0 <= i < a1.len() implies same_openings(#[trigger] a1[i], b1[i]) by {
            assert(a1[i] == a[i] && b1[i] == b[i]);
        }
        lemma_circuits_queries(a1, b1);
        let (x, y) = (a.last(), b.last());
        assert(x == a[a.len() - 1] && y == b[b.len() - 1]);
        assert(same_openings(x, y));
        lemma_concat_values(x.lookups, y.lookups);
        lemma_query_values_concat(
            x.instance + x.advice + x.permutation,
            protocol::concat(x.lookups),
        );
        lemma_query_values_concat(
            y.instance + y.advice + y.permutation,
            protocol::concat(y.lookups),
        );
        lemma_query_values_concat(x.instance + x.advice, x.permutation);
        lemma_query_values_concat(y.instance + y.advice, y.permutation);
        lemma_query_values_concat(x.instance, x.advice);
        lemma_query_values_concat(y.instance, y.advice);
        lemma_query_values_concat(
            protocol::circuits_queries(a1),
            protocol::circuit_queries(x),
        );
        lemma_query_values_concat(
            protocol::circuits_queries(b1),
            protocol::circuit_queries(y),
        );
    }
}

/// The arguments list the same queries.
proof fn lemma_listing_repeats<F: Field, P>(
    world: World<P>,
    before: Seq<Step<int, P>>,
    circuits: nat,
    lookups: nat,
    x_a: F,
    x_b: F,
    a: Seq<CircuitOpenings<F>>,
    b: Seq<CircuitOpenings<F>>,
)
    requires
        x_a.value() == x_b.value(),
        a.len() == circuits,
        b.len() == circuits,
        forall|i: int| 0 <= i < circuits ==> (#[trigger] a[i]).lookups.len() == lookups,
        forall|i: int| 0 <= i < circuits ==> (#[trigger] b[i]).lookups.len() == lookups,
        replay::is_answered(
            world,
            before + replay::shapes(
                protocol::for_circuits(circuits, protocol::open_steps::<F, P>(a, x_a)),
            ),
        ),
        replay::is_answered(
            world,
            before + replay::shapes(
                protocol::for_circuits(circuits, protocol::open_steps::<F, P>(b, x_b)),
            ),
        ),
    ensures
        replay::shapes(protocol::for_circuits(circuits, protocol::open_steps::<F, P>(a, x_a)))
            == replay::shapes(
            protocol::for_circuits(circuits, protocol::open_steps::<F, P>(b, x_b)),
        ),
        forall|i: int|
            0 <= i < circuits ==> replay::query_values((#[trigger] a[i]).permutation)
                == replay::query_values(b[i].permutation),
        forall|i: int, j: int|
            0 <= i < circuits && 0 <= j < lookups ==> replay::query_values(
                #[trigger] a[i].lookups[j],
            ) == replay::query_values(b[i].lookups[j]),
{
    let (f, g) = (protocol::open_steps::<F, P>(a, x_a), protocol::open_steps::<F, P>(b, x_b));
    assert forall|i: int| 0 <= i < circuits implies same_requests(
        replay::shapes(#[trigger] f(i)),
        replay::shapes(g(i)),
    ) && f(i).len() == 1 + lookups && g(i).len() == 1 + lookups by {
        assert(a[i].lookups.len() == lookups && b[i].lookups.len() == lookups);
        let (sa, sb) = (replay::shapes(f(i)), replay::shapes(g(i)));
        assert forall|k: int| 0 <= k < sa.len() implies replay::request(#[trigger] sa[k])
            == replay::request(sb[k]) by {
            if k > 0 {
                assert(f(i)[k] == protocol::lookup_open_steps::<F, P>(
                    i,
                    a[i].lookups,
                    x_a,
                )[k - 1]);
                assert(g(i)[k] == protocol::lookup_open_steps::<F, P>(
                    i,
                    b[i].lookups,
                    x_b,
                )[k - 1]);
            }
        }
    }
    lemma_for_requests(circuits, f, g);
    replay::lemma_same_answers(
        world,
        before,
        replay::shapes(protocol::for_circuits(circuits, f)),
        replay::shapes(protocol::for_circuits(circuits, g)),
    );
    lemma_for_parts(circuits, f, g);
    assert forall|i: int| 0 <= i < circuits implies replay::query_values(
        (#[trigger] a[i]).permutation,
    ) == replay::query_values(b[i].permutation) by {
        assert(replay::shapes(f(i)) == replay::shapes(g(i)));
        assert(f(i).len() == 1 + lookups && g(i).len() == 1 + lookups);
        assert(replay::shapes(f(i))[0] == replay::shape(f(i)[0]));
        assert(replay::shapes(g(i))[0] == replay::shape(g(i)[0]));
        assert(replay::shape(f(i)[0])->PermutationOpened_queries == replay::query_values(
            a[i].permutation,
        ));
        assert(replay::shape(g(i)[0])->PermutationOpened_queries == replay::query_values(
            b[i].permutation,
        ));
    }
    assert forall|i: int, j: int| 0 <= i < circuits && 0 <= j < lookups implies
        replay::query_values(#[trigger] a[i].lookups[j]) == replay::query_values(
        b[i].lookups[j],
    ) by {
        assert(replay::shapes(f(i)) == replay::shapes(g(i)));
        assert(f(i).len() == 1 + lookups && g(i).len() == 1 + lookups);
        assert(a[i].lookups.len() == lookups && b[i].lookups.len() == lookups);
        let (sa, sb) = (
            protocol::lookup_open_steps::<F, P>(i, a[i].lookups, x_a),
            protocol::lookup_open_steps::<F, P>(i, b[i].lookups, x_b),
        );
        assert(f(i)[j + 1] == sa[j] && g(i)[j + 1] == sb[j]);
        assert(replay::shapes(f(i))[j + 1] == replay::shape(sa[j]));
        assert(replay::shapes(g(i))[j + 1] == replay::shape(sb[j]));
        assert(replay::shape(sa[j])->LookupOpened_queries == replay::query_values(
            a[i].lookups[j],
        ));
        assert(replay::shape(sb[j])->LookupOpened_queries == replay::query_values(
            b[i].lookups[j],
        ));
    }
}

/// The same columns lead to the same openings.
pub proof fn lemma_opening_repeats<F: Field, P>(
    pk: &ProvingKey<F>,
    world: World<P>,
    before: Seq<Step<int, P>>,
    query_instance: bool,
    instance_a: Seq<Seq<Seq<F>>>,
    instance_b: Seq<Seq<Seq<F>>>,
    advice_a: Seq<Seq<Seq<F>>>,
    advice_b: Seq<Seq<Seq<F>>>,
    blinds_a: Seq<Seq<F>>,
    blinds_b: Seq<Seq<F>>,
    x_a: F,
    x_b: F,
    a: OpeningRecord<F>,
    b: OpeningRecord<F>,
)
    requires
        pk.wf(pk.vk.domain.n),
        x_a.value() == x_b.value(),
        has_columns(instance_a, instance_a.len() as int, pk.vk.cs.num_instance_columns as int),
        has_columns(advice_a, instance_a.len() as int, pk.vk.cs.num_advice_columns as int),
        blinds_a.len() == instance_a.len(),
        forall|i: int|
            0 <= i < blinds_a.len() ==> (#[trigger] blinds_a[i]).len()
                == pk.vk.cs.num_advice_columns,
        replay::tables(instance_a) == replay::tables(instance_b),
        replay::tables(advice_a) == replay::tables(advice_b),
        replay::lists(blinds_a) == replay::lists(blinds_b),
        protocol::opening_recorded(
            pk,
            query_instance,
            instance_a,
            advice_a,
            blinds_a,
            x_a,
            a,
        ),
        protocol::opening_recorded(
            pk,
            query_instance,
            instance_b,
            advice_b,
            blinds_b,
            x_b,
            b,
        ),
        replay::is_answered(
            world,
            before + replay::shapes(protocol::opening_steps::<F, P>(instance_a.len(), x_a, a)),
        ),
        replay::is_answered(
            world,
            before + replay::shapes(protocol::opening_steps::<F, P>(instance_a.len(), x_b, b)),
        ),
    ensures
        replay::shapes(protocol::opening_steps::<F, P>(instance_a.len(), x_a, a))
            == replay::shapes(protocol::opening_steps::<F, P>(instance_a.len(), x_b, b)),
{
    let cs = &pk.vk.cs;
    let domain = &pk.vk.domain;
    let circuits = instance_a.len();
    assert(replay::tables(instance_a).len() == circuits);
    assert(replay::tables(instance_b).len() == instance_b.len());
    assert(replay::tables(advice_b).len() == advice_b.len());
    assert(replay::lists(blinds_b).len() == blinds_b.len());
    let (la, lb) = (
        protocol::for_circuits(circuits, protocol::open_steps::<F, P>(a.circuits, x_a)),
        protocol::for_circuits(circuits, protocol::open_steps::<F, P>(b.circuits, x_b)),
    );
    let ca = seq![
        Step::<F, P>::CommonPermutationOpened { x: x_a, queries: a.common },
        Step::<F, P>::VanishingOpened { x: x_a, queries: a.vanishing },
    ];
    let cb = seq![
        Step::<F, P>::CommonPermutationOpened { x: x_b, queries: b.common },
        Step::<F, P>::VanishingOpened { x: x_b, queries: b.vanishing },
    ];
    let ma = seq![Step::<F, P>::MultiOpen { queries: protocol::proof_queries(a) }];
    let mb = seq![Step::<F, P>::MultiOpen { queries: protocol::proof_queries(b) }];
    let all_a = protocol::opening_steps::<F, P>(circuits, x_a, a);
    let all_b = protocol::opening_steps::<F, P>(circuits, x_b, b);
    assert(all_a =~= la + (ca + ma));
    assert(all_b =~= lb + (cb + mb));
    replay::lemma_shapes_concat(la, ca + ma);
    replay::lemma_shapes_concat(lb, cb + mb);
    replay::lemma_shapes_concat(ca, ma);
    replay::lemma_shapes_concat(cb, mb);
    let (sla, slb) = (replay::shapes(la), replay::shapes(lb));
    let (sca, scb) = (replay::shapes(ca), replay::shapes(cb));
    let (sma, smb) = (replay::shapes(ma), replay::shapes(mb));
    assert(before + replay::shapes(all_a) =~= (before + sla) + (sca + sma));
    assert(before + replay::shapes(all_b) =~= (before + slb) + (scb + smb));
    replay::lemma_answered_prefix(world, before + sla, sca + sma);
    replay::lemma_answered_prefix(world, before + slb, scb + smb);
    assert forall|i: int| 0 <= i < circuits implies (#[trigger] a.circuits[i]).lookups.len()
        == cs.num_lookups by {}
    assert forall|i: int| 0 <= i < circuits implies (#[trigger] b.circuits[i]).lookups.len()
        == cs.num_lookups by {}
    lemma_listing_repeats::<F, P>(
        world,
        before,
        circuits,
        cs.num_lookups as nat,
        x_a,
        x_b,
        a.circuits,
        b.circuits,
    );
    let after = before + sla;
    assert(before + replay::shapes(all_a) =~= (after + sca) + sma);
    assert(before + replay::shapes(all_b) =~= (after + scb) + smb);
    replay::lemma_answered_prefix(world, after + sca, sma);
    replay::lemma_answered_prefix(world, after + scb, smb);
    assert(replay::request(sca[0]) == replay::request(scb[0]));
    assert(replay::request(sca[1]) == replay::request(scb[1]));
    replay::lemma_same_answers(world, after, sca, scb);
    assert(sca[0]->CommonPermutationOpened_queries == replay::query_values(a.common));
    assert(scb[0]->CommonPermutationOpened_queries == replay::query_values(b.common));
    assert(sca[1]->VanishingOpened_queries == replay::query_values(a.vanishing));
    assert(scb[1]->VanishingOpened_queries == replay::query_values(b.vanishing));
    assert forall|i: int| 0 <= i < circuits implies same_openings(
        #[trigger] a.circuits[i],
        b.circuits[i],
    ) by {
        assert(protocol::circuit_opened(
            pk,
            query_instance,
            instance_b[i],
            advice_b[i],
            blinds_b[i],
            x_b,
            b.circuits[i],
        ));
        assert(replay::tables(instance_a)[i] == replay::tables(instance_b)[i]);
        assert(replay::tables(advice_a)[i] == replay::tables(advice_b)[i]);
        assert(replay::lists(blinds_a)[i] == replay::lists(blinds_b)[i]);
        assert(instance_a[i].len() == cs.num_instance_columns);
        assert(advice_a[i].len() == cs.num_advice_columns);
        assert(blinds_a[i].len() == cs.num_advice_columns);
        if query_instance {
            lemma_same_queries(
                domain,
                cs.instance_queries@,
                instance_a[i],
                instance_b[i],
                None,
                None,
                x_a,
                x_b,
                a.circuits[i].instance,
                b.circuits[i].instance,
            );
        } else {
            assert(a.circuits[i].instance =~= b.circuits[i].instance);
        }
        lemma_same_queries(
            domain,
            cs.advice_queries@,
            advice_a[i],
            advice_b[i],
            Some(blinds_a[i]),
            Some(blinds_b[i]),
            x_a,
            x_b,
            a.circuits[i].advice,
            b.circuits[i].advice,
        );
        assert forall|j: int| 0 <= j < a.circuits[i].lookups.len() implies replay::query_values(
            #[trigger] a.circuits[i].lookups[j],
        ) == replay::query_values(b.circuits[i].lookups[j]) by {}
    }
    lemma_circuits_queries(a.circuits, b.circuits);
    let fixed = channel::values_of(pk.fixed_polys@);
    lemma_same_queries(
        domain,
        cs.fixed_queries@,
        fixed,
        fixed,
        None,
        None,
        x_a,
        x_b,
        a.fixed,
        b.fixed,
    );
    let (qa, qb) = (
        protocol::circuits_queries(a.circuits),
        protocol::circuits_queries(b.circuits),
    );
    lemma_query_values_concat(qa + a.fixed + a.common, a.vanishing);
    lemma_query_values_concat(qb + b.fixed + b.common, b.vanishing);
    lemma_query_values_concat(qa + a.fixed, a.common);
    lemma_query_values_concat(qb + b.fixed, b.common);
    lemma_query_values_concat(qa, a.fixed);
    lemma_query_values_concat(qb, b.fixed);
    assert(sma =~= smb);
}

/// The coefficients of the same columns are the same.
proof fn lemma_same_coeffs<F: Field>(
    domain: EvaluationDomain<F>,
    values_a: Seq<Seq<F>>,
    values_b: Seq<Seq<F>>,
    polys_a: Seq<Seq<F>>,
    polys_b: Seq<Seq<F>>,
)
    requires
        domain.wf(),
        forall|c: int| 0 <= c < values_a.len() ==> (#[trigger] values_a[c]).len() == domain.n,
        replay::lists(values_a) == replay::lists(values_b),
        protocol::column_polys_interpolate(&domain, values_a, polys_a),
        protocol::column_polys_interpolate(&domain, values_b, polys_b),
    ensures
        replay::lists(polys_a) == replay::lists(polys_b),
{
    assert(replay::lists(values_a).len() == values_a.len());
    assert(replay::lists(values_b).len() == values_b.len());
    assert forall|c: int| 0 <= c < polys_a.len() implies replay::lists(polys_a)[c] == (
    #[trigger] replay::lists(polys_b)[c]) by {
        let (pa, pb) = (polys_a[c], polys_b[c]);
        assert(replay::lists(values_a)[c] == replay::lists(values_b)[c]);
        laws::lemma_interpolation_unique(domain, values_a[c], pa, pb);
        assert(field::values_of(pa) =~= field::values_of(pb));
    }
    assert(replay::lists(polys_a) =~= replay::lists(polys_b));
}

/// The committed columns of each circuit have the size of the domain.
pub open spec fn all_fit<F: Field>(
    pk: &ProvingKey<F>,
    advice: Seq<AdviceCommitted<F, LagrangeCoeff>>,
) -> bool {
    forall|i: int|
        0 <= i < advice.len() ==> witness::advice_fits(
            &pk.vk.cs,
            pk.vk.domain.n,
            #[trigger] advice[i],
        )
}

/// The inputs to the arguments are the same in two runs, and have the shape that
/// the key asks for.
pub open spec fn same_inputs<F: Field>(
    pk: &ProvingKey<F>,
    singles_a: Seq<InstanceSingle<F>>,
    singles_b: Seq<InstanceSingle<F>>,
    advice_a: Seq<AdviceCommitted<F, LagrangeCoeff>>,
    advice_b: Seq<AdviceCommitted<F, LagrangeCoeff>>,
    challenges_a: Seq<F>,
    challenges_b: Seq<F>,
) -> bool {
    &&& same_singles(singles_a, singles_b)
    &&& replay::same_advice(advice_a, advice_b)
    &&& advice_a.len() == singles_a.len()
    &&& all_fit(pk, advice_a)
    &&& forall|i: int|
        0 <= i < singles_a.len() ==> (#[trigger] singles_a[i]).instance_polys@.len()
            == pk.vk.cs.num_instance_columns
    &&& field::values_of(challenges_a) == field::values_of(challenges_b)
}

/// The columns of the same inputs are the same.
pub proof fn lemma_same_columns<F: Field>(
    pk: &ProvingKey<F>,
    singles_a: Seq<InstanceSingle<F>>,
    singles_b: Seq<InstanceSingle<F>>,
    advice_a: Seq<AdviceCommitted<F, LagrangeCoeff>>,
    advice_b: Seq<AdviceCommitted<F, LagrangeCoeff>>,
    challenges_a: Seq<F>,
    challenges_b: Seq<F>,
    polys_a: Seq<Seq<Seq<F>>>,
    polys_b: Seq<Seq<Seq<F>>>,
)
    requires
        pk.wf(pk.vk.domain.n),
        same_inputs(
            pk,
            singles_a,
            singles_b,
            advice_a,
            advice_b,
            challenges_a,
            challenges_b,
        ),
        protocol::advice_interpolated(&pk.vk.domain, advice_a, polys_a),
        protocol::advice_interpolated(&pk.vk.domain, advice_b, polys_b),
    ensures
        replay::tables(protocol::instance_polys_of(singles_a)) == replay::tables(
            protocol::instance_polys_of(singles_b),
        ),
        replay::tables(polys_a) == replay::tables(polys_b),
        replay::lists(protocol::all_blinds_of(advice_a)) == replay::lists(
            protocol::all_blinds_of(advice_b),
        ),
        has_columns(
            protocol::instance_polys_of(singles_a),
            singles_a.len() as int,
            pk.vk.cs.num_instance_columns as int,
        ),
        has_columns(polys_a, singles_a.len() as int, pk.vk.cs.num_advice_columns as int),
        forall|i: int|
            0 <= i < advice_a.len() ==> (#[trigger] protocol::all_blinds_of(advice_a)[i]).len()
                == pk.vk.cs.num_advice_columns,
        protocol::instance_polys_of(singles_b).len() == singles_a.len(),
        polys_b.len() == singles_a.len(),
{
    let count = singles_a.len();
    let (ia, ib) = (
        protocol::instance_polys_of(singles_a),
        protocol::instance_polys_of(singles_b),
    );
    let (da, db) = (polys_a, polys_b);
    let (ba, bb) = (protocol::all_blinds_of(advice_a), protocol::all_blinds_of(advice_b));
    assert(replay::tables(ia) =~= replay::tables(ib)) by {
        assert forall|i: int| 0 <= i < count implies replay::tables(ia)[i] == (
        #[trigger] replay::tables(ib)[i]) by {
            assert(singles_a[i] == singles_a[i]);
        }
    }
    assert(replay::lists(ba) =~= replay::lists(bb)) by {
        assert forall|i: int| 0 <= i < count implies replay::lists(ba)[i] == (
        #[trigger] replay::lists(bb)[i]) by {
            assert(advice_a[i] == advice_a[i]);
        }
    }
    assert(replay::tables(da) =~= replay::tables(db)) by {
        assert forall|i: int| 0 <= i < count implies replay::tables(da)[i] == (
        #[trigger] replay::tables(db)[i]) by {
            let (va, vb) = (
                channel::values_of(advice_a[i].advice_polys@),
                channel::values_of(advice_b[i].advice_polys@),
            );
            assert(witness::advice_fits(&pk.vk.cs, pk.vk.domain.n, advice_a[i]));
            assert forall|c: int| 0 <= c < va.len() implies (#[trigger] va[c]).len()
                == pk.vk.domain.n by {
                assert(advice_a[i].advice_polys@[c]@.len() == pk.vk.domain.n);
            }
            assert(protocol::column_polys_interpolate(&pk.vk.domain, va, da[i]));
            assert(protocol::column_polys_interpolate(&pk.vk.domain, vb, db[i]));
            lemma_same_coeffs(pk.vk.domain, va, vb, da[i], db[i]);
        }
    }
    assert(has_columns(ia, count as int, pk.vk.cs.num_instance_columns as int)) by {
        assert forall|i: int| 0 <= i < count implies (#[trigger] ia[i]).len()
            == pk.vk.cs.num_instance_columns by {
            assert(singles_a[i].instance_polys@.len() == pk.vk.cs.num_instance_columns);
        }
    }
    assert(has_columns(da, count as int, pk.vk.cs.num_advice_columns as int)) by {
        assert forall|i: int| 0 <= i < count implies (#[trigger] da[i]).len()
            == pk.vk.cs.num_advice_columns by {
            assert(witness::advice_fits(&pk.vk.cs, pk.vk.domain.n, advice_a[i]));
        }
    }
    assert forall|i: int| 0 <= i < ba.len() implies (#[trigger] ba[i]).len()
        == pk.vk.cs.num_advice_columns by {
        assert(witness::advice_fits(&pk.vk.cs, pk.vk.domain.n, advice_a[i]));
    }
}

} // verus!
