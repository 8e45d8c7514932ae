//! Two runs that are answered alike take the same steps.
//!
//! What a prover gets to see of the world around it are the answers to its
//! requests: the challenges that are squeezed, the elements that are drawn, the
//! results of arguments. Runs are compared by the values of their field
//! elements.

use super::channel;
use super::channel::Step;
use super::circuit;
use super::steps;
use super::steps::{CircuitRecord, PhaseRecord};
use super::witness;
use super::witness::{AdviceCommitted, InstanceSingle};
use super::{ConstraintSystem, ProvingKey};
use crate::curve::Curve;
use crate::field;
use crate::field::Field;
use crate::poly::commitment;
use crate::poly::commitment::{Params, Query};
use crate::poly::LagrangeCoeff;
use vstd::prelude::*;

verus! {

/// The values of lists of elements.
pub open spec fn lists<F: Field>(s: Seq<Seq<F>>) -> Seq<Seq<int>> {
    s.map_values(|x: Seq<F>| field::values_of(x))
}

/// The values of lists of lists of elements.
pub open spec fn tables<F: Field>(s: Seq<Seq<Seq<F>>>) -> Seq<Seq<Seq<int>>> {
    s.map_values(|x: Seq<Seq<F>>| lists(x))
}

/// A query by its values.
pub open spec fn query_value<F: Field>(q: Query<F>) -> Query<int> {
    Query { point: q.point.value(), poly: field::values_of(q.poly), blind: q.blind.value() }
}

/// Queries by their values.
pub open spec fn query_values<F: Field>(s: Seq<Query<F>>) -> Seq<Query<int>> {
    s.map_values(|q: Query<F>| query_value(q))
}

/// A step by its values.
pub open spec fn shape<F: Field, P>(step: Step<F, P>) -> Step<int, P>
    decreases step,
{
    match step {
        Step::Squeeze(v) => Step::Squeeze(v.value()),
        Step::CommonScalar(v) => Step::CommonScalar(v.value()),
        Step::CommonPoint(p) => Step::CommonPoint(p),
        Step::WriteScalar(v) => Step::WriteScalar(v.value()),
        Step::WritePoint(p) => Step::WritePoint(p),
        Step::Random(v) => Step::Random(v.value()),
        Step::LookupPermuted { slot, theta, advice, fixed, instance, challenges } =>
            Step::LookupPermuted {
            slot,
            theta: theta.value(),
            advice: lists(advice),
            fixed: lists(fixed),
            instance: lists(instance),
            challenges: field::values_of(challenges),
        },
        Step::PermutationCommitted { slot, advice, fixed, instance, beta, gamma } =>
            Step::PermutationCommitted {
            slot,
            advice: lists(advice),
            fixed: lists(fixed),
            instance: lists(instance),
            beta: beta.value(),
            gamma: gamma.value(),
        },
        Step::LookupCommitted { slot, beta, gamma } => Step::LookupCommitted {
            slot,
            beta: beta.value(),
            gamma: gamma.value(),
        },
        Step::VanishingCommitted => Step::VanishingCommitted,
        Step::Quotient {
            advice_polys,
            instance_polys,
            challenges,
            y,
            beta,
            gamma,
            theta,
            lookups,
            permutations,
            h,
        } => Step::Quotient {
            advice_polys: tables(advice_polys),
            instance_polys: tables(instance_polys),
            challenges: field::values_of(challenges),
            y: y.value(),
            beta: beta.value(),
            gamma: gamma.value(),
            theta: theta.value(),
            lookups,
            permutations,
            h: field::values_of(h),
        },
        Step::VanishingConstructed { h } => Step::VanishingConstructed { h: field::values_of(h) },
        Step::VanishingEvaluated { x, xn } => Step::VanishingEvaluated {
            x: x.value(),
            xn: xn.value(),
        },
        Step::CommonPermutationEvaluated { x } => Step::CommonPermutationEvaluated {
            x: x.value(),
        },
        Step::PermutationEvaluated { slot, x } => Step::PermutationEvaluated {
            slot,
            x: x.value(),
        },
        Step::LookupEvaluated { slot, x } => Step::LookupEvaluated { slot, x: x.value() },
        Step::PermutationOpened { slot, x, queries } => Step::PermutationOpened {
            slot,
            x: x.value(),
            queries: query_values(queries),
        },
        Step::LookupOpened { slot, x, queries } => Step::LookupOpened {
            slot,
            x: x.value(),
            queries: query_values(queries),
        },
        Step::CommonPermutationOpened { x, queries } => Step::CommonPermutationOpened {
            x: x.value(),
            queries: query_values(queries),
        },
        Step::VanishingOpened { x, queries } => Step::VanishingOpened {
            x: x.value(),
            queries: query_values(queries),
        },
        Step::MultiOpen { queries } => Step::MultiOpen { queries: query_values(queries) },
        Step::Failed { attempt, failure } => Step::Failed {
            attempt: Box::new(shape(*attempt)),
            failure,
        },
    }
}

/// Steps by their values.
pub open spec fn shapes<F: Field, P>(steps: Seq<Step<F, P>>) -> Seq<Step<int, P>> {
    steps.map_values(|s: Step<F, P>| shape(s))
}

/// What a step asks for, or asked for in vain, without the answer.
pub open spec fn request<P>(step: Step<int, P>) -> Step<int, P>
    decreases step,
{
    match step {
        Step::Squeeze(_) => Step::Squeeze(0),
        Step::Random(_) => Step::Random(0),
        Step::Quotient {
            advice_polys,
            instance_polys,
            challenges,
            y,
            beta,
            gamma,
            theta,
            lookups,
            permutations,
            h,
        } => Step::Quotient {
            advice_polys,
            instance_polys,
            challenges,
            y,
            beta,
            gamma,
            theta,
            lookups,
            permutations,
            h: Seq::empty(),
        },
        Step::PermutationOpened { slot, x, queries } => Step::PermutationOpened {
            slot,
            x,
            queries: Seq::empty(),
        },
        Step::LookupOpened { slot, x, queries } => Step::LookupOpened {
            slot,
            x,
            queries: Seq::empty(),
        },
        Step::CommonPermutationOpened { x, queries } => Step::CommonPermutationOpened {
            x,
            queries: Seq::empty(),
        },
        Step::VanishingOpened { x, queries } => Step::VanishingOpened {
            x,
            queries: Seq::empty(),
        },
        Step::Failed { attempt, .. } => request(*attempt),
        _ => step,
    }
}

/// The world around a prover: what becomes of a request after the steps so far.
pub type World<P> = spec_fn(Seq<Step<int, P>>, Step<int, P>) -> Step<int, P>;

/// Every request was answered as the world answers it.
#[verifier::opaque]
pub open spec fn is_answered<P>(world: World<P>, steps: Seq<Step<int, P>>) -> bool {
    forall|k: int|
        0 <= k < steps.len() ==> #[trigger] steps[k] == world(steps.take(k), request(steps[k]))
}

/// Answers do not depend on what comes after them.
pub proof fn lemma_answered_prefix<P>(
    world: World<P>,
    start: Seq<Step<int, P>>,
    rest: Seq<Step<int, P>>,
)
    requires
        is_answered(world, start + rest),
    ensures
        is_answered(world, start),
{
    reveal(is_answered);
    let all = start + rest;
    assert forall|k: int| 0 <= k < start.len() implies #[trigger] start[k] == world(
        start.take(k),
        request(start[k]),
    ) by {
        assert(all[k] == start[k]);
        assert(all.take(k) =~= start.take(k));
    }
}

/// The same requests after the same steps get the same answers.
pub proof fn lemma_same_answers<P>(
    world: World<P>,
    start: Seq<Step<int, P>>,
    a: Seq<Step<int, P>>,
    b: Seq<Step<int, P>>,
)
    requires
        is_answered(world, start + a),
        is_answered(world, start + b),
        a.len() == b.len(),
        forall|k: int| 0 <= k < a.len() ==> request(#[trigger] a[k]) == request(b[k]),
    ensures
        a == b,
    decreases a.len(),
{
    reveal(is_answered);
    if a.len() > 0 {
        let (a1, b1) = (a.drop_last(), b.drop_last());
        assert(start + a =~= (start + a1) + seq![a.last()]);
        assert(start + b =~= (start + b1) + seq![b.last()]);
        lemma_answered_prefix(world, start + a1, seq![a.last()]);
        lemma_answered_prefix(world, start + b1, seq![b.last()]);
        assert forall|k: int| 0 <= k < a1.len() implies request(#[trigger] a1[k]) == request(
            b1[k],
        ) by {
            assert(a1[k] == a[k]);
        }
        lemma_same_answers(world, start, a1, b1);
        let k = start.len() + a.len() - 1;
        assert((start + a)[k] == a.last());
        assert((start + b)[k] == b.last());
        assert((start + a).take(k) =~= start + a1);
        assert((start + b).take(k) =~= start + b1);
        assert(request(a[a.len() - 1]) == request(b[a.len() - 1]));
        assert(a =~= a1.push(a.last()));
        assert(b =~= b1.push(b.last()));
    }
    assert(a =~= b);
}

/// The values of steps one after the other.
pub proof fn lemma_shapes_concat<F: Field, P>(a: Seq<Step<F, P>>, b: Seq<Step<F, P>>)
    ensures
        shapes(a + b) == shapes(a) + shapes(b),
{
    assert(shapes(a + b) =~= shapes(a) + shapes(b));
}

/// A commitment depends on nothing but the values and the blind.
#[verifier::opaque]
pub open spec fn is_functional<F: Field, C: Curve, S: Params<F, C>>(params: &S) -> bool {
    forall|
        v: Seq<F>,
        a: F,
        p: C::AffineRepr,
        w: Seq<F>,
        b: F,
        q: C::AffineRepr,
    |
        {
            &&& #[trigger] commitment::commits_to::<F, C, S>(params, v, a, p)
            &&& #[trigger] commitment::commits_to::<F, C, S>(params, w, b, q)
            &&& field::values_of(v) == field::values_of(w)
            &&& a.value() == b.value()
        } ==> p == q
}

proof fn lemma_tails_of_shapes<F: Field, P>(
    v: Seq<Seq<F>>,
    w: Seq<Seq<F>>,
    start: int,
    n: int,
)
    requires
        v.len() == w.len(),
        0 <= start <= n,
        forall|j: int| 0 <= j < v.len() ==> (#[trigger] v[j]).len() == n,
        forall|j: int| 0 <= j < w.len() ==> (#[trigger] w[j]).len() == n,
        shapes(steps::tail_steps::<F, P>(v, start)) == shapes(steps::tail_steps::<F, P>(w, start)),
    ensures
        forall|j: int, row: int|
            0 <= j < v.len() && start <= row < n ==> (#[trigger] v[j][row]).value()
                == w[j][row].value(),
    decreases v.len(),
{
    if v.len() > 0 {
        let (v1, w1) = (v.drop_last(), w.drop_last());
        let a1 = steps::tail_steps::<F, P>(v1, start);
        let b1 = steps::tail_steps::<F, P>(w1, start);
        let a2 = steps::random_steps::<F, P>(v.last().skip(start));
        let b2 = steps::random_steps::<F, P>(w.last().skip(start));
        assert(v.last() == v[v.len() - 1] && w.last() == w[w.len() - 1]);
        lemma_shapes_concat(a1, a2);
        lemma_shapes_concat(b1, b2);
        let all = shapes(a1) + shapes(a2);
        assert(all == shapes(b1) + shapes(b2));
        assert(shapes(a2).len() == n - start && shapes(b2).len() == n - start);
        assert(all.take(all.len() - (n - start)) =~= shapes(a1));
        assert((shapes(b1) + shapes(b2)).take(all.len() - (n - start)) =~= shapes(b1));
        assert forall|j: int| 0 <= j < v1.len() implies (#[trigger] v1[j]).len() == n by {
            assert(v1[j] == v[j]);
        }
        assert forall|j: int| 0 <= j < w1.len() implies (#[trigger] w1[j]).len() == n by {
            assert(w1[j] == w[j]);
        }
        lemma_tails_of_shapes::<F, P>(v1, w1, start, n);
        assert forall|j: int, row: int| 0 <= j < v.len() && start <= row < n implies (
        #[trigger] v[j][row]).value() == w[j][row].value() by {
            if j < v1.len() {
                assert(v1[j][row].value() == w1[j][row].value());
            } else {
                let k = row - start;
                assert(all[shapes(a1).len() + k] == shapes(a2)[k]);
                assert((shapes(b1) + shapes(b2))[shapes(b1).len() + k] == shapes(b2)[k]);
                assert(shapes(a2)[k] == Step::<int, P>::Random(v[j][row].value()));
                assert(shapes(b2)[k] == Step::<int, P>::Random(w[j][row].value()));
            }
        }
    }
}

proof fn lemma_tails_are_random<F: Field, P>(v: Seq<Seq<F>>, start: int, n: int)
    requires
        0 <= start <= n,
        forall|j: int| 0 <= j < v.len() ==> (#[trigger] v[j]).len() == n,
    ensures
        steps::tail_steps::<F, P>(v, start).len() == v.len() * (n - start),
        forall|k: int|
            0 <= k < steps::tail_steps::<F, P>(v, start).len() ==> (
            #[trigger] steps::tail_steps::<F, P>(v, start)[k]) is Random,
    decreases v.len(),
{
    if v.len() > 0 {
        let v1 = v.drop_last();
        assert forall|j: int| 0 <= j < v1.len() implies (#[trigger] v1[j]).len() == n by {
            assert(v1[j] == v[j]);
        }
        assert(v.last() == v[v.len() - 1]);
        lemma_tails_are_random::<F, P>(v1, start, n);
        let len = v.len() as int;
        assert(len * (n - start) == (len - 1) * (n - start) + (n - start)) by (nonlinear_arith);
    } else {
        assert(0 * (n - start) == 0);
    }
}

/// The phases were committed to with columns of the same size, which are alike
/// in the rows before `start`.
pub open spec fn same_phase<F: Field, P>(
    a: PhaseRecord<F, P>,
    b: PhaseRecord<F, P>,
    start: int,
    n: int,
) -> bool {
    &&& a.values.len() == b.values.len()
    &&& a.challenges.len() == b.challenges.len()
    &&& forall|j: int| 0 <= j < a.values.len() ==> (#[trigger] a.values[j]).len() == n
    &&& forall|j: int| 0 <= j < b.values.len() ==> (#[trigger] b.values[j]).len() == n
    &&& forall|j: int, row: int|
        0 <= j < a.values.len() && 0 <= row < start ==> (#[trigger] a.values[j][row]).value()
            == b.values[j][row].value()
}

/// A phase that starts after the same steps takes the same steps.
proof fn lemma_phase_repeats<F: Field, C: Curve, S: Params<F, C>>(
    params: &S,
    world: World<C::AffineRepr>,
    before: Seq<Step<int, C::AffineRepr>>,
    a: PhaseRecord<F, C::AffineRepr>,
    b: PhaseRecord<F, C::AffineRepr>,
    start: int,
    n: int,
)
    requires
        is_functional::<F, C, S>(params),
        0 <= start <= n,
        same_phase(a, b, start, n),
        steps::phase_committed::<F, C, S>(params, a),
        steps::phase_committed::<F, C, S>(params, b),
        is_answered(world, before + shapes(steps::phase_steps(a, start))),
        is_answered(world, before + shapes(steps::phase_steps(b, start))),
    ensures
        shapes(steps::phase_steps(a, start)) == shapes(steps::phase_steps(b, start)),
        lists(a.values) == lists(b.values),
        field::values_of(a.blinds) == field::values_of(b.blinds),
        field::values_of(a.challenges) == field::values_of(b.challenges),
{
    let a1 = shapes(steps::tail_steps::<F, C::AffineRepr>(a.values, start));
    let b1 = shapes(steps::tail_steps::<F, C::AffineRepr>(b.values, start));
    let a2 = shapes(steps::random_steps::<F, C::AffineRepr>(a.blinds));
    let b2 = shapes(steps::random_steps::<F, C::AffineRepr>(b.blinds));
    let a3 = shapes(steps::write_steps::<F, C::AffineRepr>(a.points));
    let b3 = shapes(steps::write_steps::<F, C::AffineRepr>(b.points));
    let a4 = shapes(steps::squeeze_steps::<F, C::AffineRepr>(a.challenges));
    let b4 = shapes(steps::squeeze_steps::<F, C::AffineRepr>(b.challenges));
    let all_a = shapes(steps::phase_steps(a, start));
    let all_b = shapes(steps::phase_steps(b, start));
    assert(all_a =~= a1 + a2 + a3 + a4);
    assert(all_b =~= b1 + b2 + b3 + b4);
    assert(before + all_a =~= (before + a1) + (a2 + a3 + a4));
    assert(before + all_b =~= (before + b1) + (b2 + b3 + b4));
    lemma_answered_prefix(world, before + a1, a2 + a3 + a4);
    lemma_answered_prefix(world, before + b1, b2 + b3 + b4);
    lemma_tails_are_random::<F, C::AffineRepr>(a.values, start, n);
    lemma_tails_are_random::<F, C::AffineRepr>(b.values, start, n);
    assert forall|k: int| 0 <= k < a1.len() implies request(#[trigger] a1[k]) == request(b1[k]) by {
        assert(steps::tail_steps::<F, C::AffineRepr>(a.values, start)[k] is Random);
        assert(steps::tail_steps::<F, C::AffineRepr>(b.values, start)[k] is Random);
    }
    lemma_same_answers(world, before, a1, b1);
    lemma_tails_of_shapes::<F, C::AffineRepr>(a.values, b.values, start, n);
    assert(lists(a.values) =~= lists(b.values)) by {
        assert forall|j: int| 0 <= j < a.values.len() implies lists(a.values)[j] == (
        #[trigger] lists(b.values)[j]) by {
            assert forall|row: int| 0 <= row < n implies a.values[j][row].value()
                == b.values[j][row].value() by {
                if row < start {
                    assert(a.values[j][row].value() == b.values[j][row].value());
                }
            }
            assert(field::values_of(a.values[j]) =~= field::values_of(b.values[j]));
        }
    }
    assert(before + all_a =~= ((before + a1) + a2) + (a3 + a4));
    assert(before + all_b =~= ((before + a1) + b2) + (b3 + b4));
    lemma_answered_prefix(world, (before + a1) + a2, a3 + a4);
    lemma_answered_prefix(world, (before + a1) + b2, b3 + b4);
    lemma_same_answers(world, before + a1, a2, b2);
    assert forall|j: int| 0 <= j < a.blinds.len() implies (#[trigger] a.blinds[j]).value()
        == b.blinds[j].value() by {
        assert(a2[j] == Step::<int, C::AffineRepr>::Random(a.blinds[j].value()));
        assert(b2[j] == Step::<int, C::AffineRepr>::Random(b.blinds[j].value()));
    }
    assert(field::values_of(a.blinds) =~= field::values_of(b.blinds));
    reveal(is_functional);
    assert forall|j: int| 0 <= j < a.points.len() implies a.points[j] == b.points[j] by {
        assert(commitment::commits_to::<F, C, S>(params, a.values[j], a.blinds[j], a.points[j]));
        assert(commitment::commits_to::<F, C, S>(params, b.values[j], b.blinds[j], b.points[j]));
        assert(lists(a.values)[j] == lists(b.values)[j]);
    }
    assert(a.points =~= b.points);
    assert(before + all_a =~= (before + a1 + a2 + a3) + a4);
    assert(before + all_b =~= (before + a1 + a2 + a3) + b4);
    lemma_same_answers(world, before + a1 + a2 + a3, a4, b4);
    assert forall|j: int| 0 <= j < a.challenges.len() implies (
    #[trigger] a.challenges[j]).value() == b.challenges[j].value() by {
        assert(a4[j] == Step::<int, C::AffineRepr>::Squeeze(a.challenges[j].value()));
        assert(b4[j] == Step::<int, C::AffineRepr>::Squeeze(b.challenges[j].value()));
    }
    assert(field::values_of(a.challenges) =~= field::values_of(b.challenges));
}

/// The challenges of the first `count` phases are alike.
pub open spec fn same_challenges<F: Field, P>(
    a: Seq<PhaseRecord<F, P>>,
    b: Seq<PhaseRecord<F, P>>,
    count: int,
) -> bool {
    forall|p: int|
        0 <= p < count ==> field::values_of((#[trigger] a[p]).challenges) == field::values_of(
            b[p].challenges,
        )
}

/// The phases are alike.
pub open spec fn same_phases<F: Field, P>(
    a: Seq<PhaseRecord<F, P>>,
    b: Seq<PhaseRecord<F, P>>,
) -> bool {
    &&& a.len() == b.len()
    &&& forall|p: int|
        #![trigger a[p]]
        0 <= p < a.len() ==> {
            &&& lists(a[p].values) == lists(b[p].values)
            &&& field::values_of(a[p].blinds) == field::values_of(b[p].blinds)
            &&& field::values_of(a[p].challenges) == field::values_of(b[p].challenges)
        }
}

/// Every phase is committed to in both runs, and is the same in both if the
/// challenges before it are.
pub open spec fn may_repeat<F: Field, C: Curve, S: Params<F, C>>(
    params: &S,
    a: Seq<PhaseRecord<F, C::AffineRepr>>,
    b: Seq<PhaseRecord<F, C::AffineRepr>>,
    start: int,
    n: int,
) -> bool {
    &&& a.len() == b.len()
    &&& forall|p: int|
        #![trigger a[p]]
        0 <= p < a.len() ==> {
            &&& steps::phase_committed::<F, C, S>(params, a[p])
            &&& steps::phase_committed::<F, C, S>(params, b[p])
            &&& same_challenges(a, b, p) ==> same_phase(a[p], b[p], start, n)
        }
}

/// Phases that start after the same steps take the same steps.
#[verifier::rlimit(30)]
proof fn lemma_phases_repeat<F: Field, C: Curve, S: Params<F, C>>(
    params: &S,
    world: World<C::AffineRepr>,
    before: Seq<Step<int, C::AffineRepr>>,
    a: Seq<PhaseRecord<F, C::AffineRepr>>,
    b: Seq<PhaseRecord<F, C::AffineRepr>>,
    count: int,
    start: int,
    n: int,
)
    requires
        is_functional::<F, C, S>(params),
        0 <= start <= n,
        may_repeat::<F, C, S>(params, a, b, start, n),
        0 <= count <= a.len(),
        is_answered(world, before + shapes(steps::phases_steps(a.take(count), start))),
        is_answered(world, before + shapes(steps::phases_steps(b.take(count), start))),
    ensures
        shapes(steps::phases_steps(a.take(count), start)) == shapes(
            steps::phases_steps(b.take(count), start),
        ),
        same_phases(a.take(count), b.take(count)),
    decreases count,
{
    if count > 0 {
        let p = count - 1;
        let (ta, tb) = (a.take(count), b.take(count));
        let (a1, b1) = (a.take(p), b.take(p));
        assert(ta.drop_last() =~= a1 && tb.drop_last() =~= b1);
        assert(ta.last() == a[p] && tb.last() == b[p]);
        let (sa, sb) = (steps::phases_steps(a1, start), steps::phases_steps(b1, start));
        let (la, lb) = (steps::phase_steps(a[p], start), steps::phase_steps(b[p], start));
        lemma_shapes_concat(sa, la);
        lemma_shapes_concat(sb, lb);
        let (ha, hb) = (before + shapes(sa), before + shapes(sb));
        assert(before + (shapes(sa) + shapes(la)) =~= ha + shapes(la));
        assert(before + (shapes(sb) + shapes(lb)) =~= hb + shapes(lb));
        lemma_answered_prefix(world, ha, shapes(la));
        lemma_answered_prefix(world, hb, shapes(lb));
        lemma_phases_repeat::<F, C, S>(params, world, before, a, b, p, start, n);
        assert(same_challenges(a, b, p)) by {
            assert forall|r: int| 0 <= r < p implies field::values_of((#[trigger] a[r]).challenges)
                == field::values_of(b[r].challenges) by {
                assert(a1[r] == a[r] && b1[r] == b[r]);
            }
        }
        lemma_phase_repeats::<F, C, S>(params, world, ha, a[p], b[p], start, n);
        assert forall|q: int|
            #![trigger ta[q]]
            0 <= q < ta.len() implies lists(ta[q].values) == lists(tb[q].values)
            && field::values_of(ta[q].blinds) == field::values_of(tb[q].blinds)
            && field::values_of(ta[q].challenges) == field::values_of(tb[q].challenges) by {
            if q < p {
                assert(a1[q] == ta[q] && b1[q] == tb[q]);
            }
        }
    } else {
        assert(a.take(0) =~= b.take(0));
    }
}

/// What is absorbed of the instances is the same in both runs: their
/// commitments are to the same values, or they are the same.
pub open spec fn same_instances<F: Field>(
    query_instance: bool,
    a: Seq<Seq<F>>,
    b: Seq<Seq<F>>,
    a_values: Seq<Seq<F>>,
    b_values: Seq<Seq<F>>,
) -> bool {
    if query_instance {
        lists(a_values) == lists(b_values)
    } else {
        lists(a) == lists(b)
    }
}

proof fn lemma_scalars_of_shapes<F: Field, P>(a: Seq<Seq<F>>, b: Seq<Seq<F>>)
    requires
        lists(a) == lists(b),
    ensures
        shapes(steps::column_scalar_steps::<F, P>(a)) == shapes(
            steps::column_scalar_steps::<F, P>(b),
        ),
    decreases a.len(),
{
    assert(lists(a).len() == a.len() && lists(b).len() == b.len());
    if a.len() > 0 {
        let (a1, b1) = (a.drop_last(), b.drop_last());
        assert(lists(a1) =~= lists(a).drop_last());
        assert(lists(b1) =~= lists(b).drop_last());
        lemma_scalars_of_shapes::<F, P>(a1, b1);
        let (sa, sb) = (
            steps::scalar_steps::<F, P>(a.last()),
            steps::scalar_steps::<F, P>(b.last()),
        );
        lemma_shapes_concat(steps::column_scalar_steps::<F, P>(a1), sa);
        lemma_shapes_concat(steps::column_scalar_steps::<F, P>(b1), sb);
        assert(lists(a).last() == lists(b).last());
        let (va, vb) = (field::values_of(a.last()), field::values_of(b.last()));
        assert(va == vb);
        assert(va.len() == a.last().len() && vb.len() == b.last().len());
        assert forall|k: int| 0 <= k < sa.len() implies shapes(sa)[k] == (#[trigger] shapes(
            sb,
        )[k]) by {
            assert(va[k] == vb[k]);
        }
        assert(shapes(sa) =~= shapes(sb));
    }
}

/// The same instances are absorbed in the same steps.
proof fn lemma_absorbed_repeats<F: Field, C: Curve, S: Params<F, C>>(
    params: &S,
    query_instance: bool,
    instances_a: Seq<Seq<F>>,
    instances_b: Seq<Seq<F>>,
    values_a: Seq<Seq<F>>,
    values_b: Seq<Seq<F>>,
    a: Seq<C::AffineRepr>,
    b: Seq<C::AffineRepr>,
)
    requires
        is_functional::<F, C, S>(params),
        same_instances(query_instance, instances_a, instances_b, values_a, values_b),
        query_instance ==> steps::instances_committed::<F, C, S>(params, values_a, a),
        query_instance ==> steps::instances_committed::<F, C, S>(params, values_b, b),
    ensures
        shapes(steps::absorb_steps::<F, C::AffineRepr>(query_instance, instances_a, a)) == shapes(
            steps::absorb_steps::<F, C::AffineRepr>(query_instance, instances_b, b),
        ),
{
    if query_instance {
        assert(lists(values_a).len() == values_a.len());
        assert(lists(values_b).len() == values_b.len());
        reveal(is_functional);
        assert forall|j: int| 0 <= j < values_a.len() implies a[j] == b[j] by {
            let (p, q) = (a[j], b[j]);
            assert(commitment::commits_plainly::<F, C, S>(params, values_a[j], p));
            assert(commitment::commits_plainly::<F, C, S>(params, values_b[j], q));
            let x = choose|x: F|
                x.value() == 1 && #[trigger] commitment::commits_to::<F, C, S>(
                    params,
                    values_a[j],
                    x,
                    p,
                );
            let y = choose|y: F|
                y.value() == 1 && #[trigger] commitment::commits_to::<F, C, S>(
                    params,
                    values_b[j],
                    y,
                    q,
                );
            assert(lists(values_a)[j] == lists(values_b)[j]);
        }
        assert(a =~= b);
    } else {
        lemma_scalars_of_shapes::<F, C::AffineRepr>(instances_a, instances_b);
    }
}

/// A circuit that starts after the same steps takes the same steps.
#[verifier::rlimit(40)]
proof fn lemma_circuit_repeats<F: Field, C: Curve, S: Params<F, C>>(
    params: &S,
    world: World<C::AffineRepr>,
    before: Seq<Step<int, C::AffineRepr>>,
    query_instance: bool,
    instances_a: Seq<Seq<F>>,
    instances_b: Seq<Seq<F>>,
    values_a: Seq<Seq<F>>,
    values_b: Seq<Seq<F>>,
    a: CircuitRecord<F, C::AffineRepr>,
    b: CircuitRecord<F, C::AffineRepr>,
    start: int,
    n: int,
)
    requires
        is_functional::<F, C, S>(params),
        0 <= start <= n,
        may_repeat::<F, C, S>(params, a.phases, b.phases, start, n),
        same_instances(query_instance, instances_a, instances_b, values_a, values_b),
        query_instance ==> steps::instances_committed::<F, C, S>(
            params,
            values_a,
            a.instance_points,
        ),
        query_instance ==> steps::instances_committed::<F, C, S>(
            params,
            values_b,
            b.instance_points,
        ),
        is_answered(
            world,
            before + shapes(steps::circuit_steps(a, query_instance, instances_a, start)),
        ),
        is_answered(
            world,
            before + shapes(steps::circuit_steps(b, query_instance, instances_b, start)),
        ),
    ensures
        shapes(steps::circuit_steps(a, query_instance, instances_a, start)) == shapes(
            steps::circuit_steps(b, query_instance, instances_b, start),
        ),
        same_phases(a.phases, b.phases),
{
    if a.phases.len() > 0 {
        let absorb_a = steps::absorb_steps(query_instance, instances_a, a.instance_points);
        let absorb_b = steps::absorb_steps(query_instance, instances_b, b.instance_points);
        lemma_absorbed_repeats::<F, C, S>(
            params,
            query_instance,
            instances_a,
            instances_b,
            values_a,
            values_b,
            a.instance_points,
            b.instance_points,
        );
        let (pa, pb) = (
            steps::phases_steps(a.phases, start),
            steps::phases_steps(b.phases, start),
        );
        lemma_shapes_concat(absorb_a, pa);
        lemma_shapes_concat(absorb_b, pb);
        let after = before + shapes(absorb_a);
        assert(before + (shapes(absorb_a) + shapes(pa)) =~= after + shapes(pa));
        assert(before + (shapes(absorb_b) + shapes(pb)) =~= after + shapes(pb));
        let count = a.phases.len() as int;
        assert(a.phases.take(count) =~= a.phases && b.phases.take(count) =~= b.phases);
        lemma_phases_repeat::<F, C, S>(
            params,
            world,
            after,
            a.phases,
            b.phases,
            count,
            start,
            n,
        );
    }
}

/// The values of the instance columns of a circuit.
pub open spec fn instance_values<F>(single: InstanceSingle<F>) -> Seq<Seq<F>> {
    channel::values_of(single.instance_values@)
}

/// The circuit absorbs the same instances in both runs, and each of its phases is
/// the same in both if the challenges before it are.
pub open spec fn circuit_may_repeat<F: Field, C: Curve, S: Params<F, C>>(
    params: &S,
    query_instance: bool,
    instances_a: Seq<Seq<F>>,
    instances_b: Seq<Seq<F>>,
    single_a: InstanceSingle<F>,
    single_b: InstanceSingle<F>,
    a: CircuitRecord<F, C::AffineRepr>,
    b: CircuitRecord<F, C::AffineRepr>,
    start: int,
    n: int,
) -> bool {
    &&& may_repeat::<F, C, S>(params, a.phases, b.phases, start, n)
    &&& same_instances(
        query_instance,
        instances_a,
        instances_b,
        instance_values(single_a),
        instance_values(single_b),
    )
    &&& query_instance ==> steps::instances_committed::<F, C, S>(
        params,
        instance_values(single_a),
        a.instance_points,
    )
    &&& query_instance ==> steps::instances_committed::<F, C, S>(
        params,
        instance_values(single_b),
        b.instance_points,
    )
}

/// Every circuit may repeat.
pub open spec fn circuits_may_repeat<F: Field, C: Curve, S: Params<F, C>>(
    params: &S,
    query_instance: bool,
    instances_a: Seq<Seq<Seq<F>>>,
    instances_b: Seq<Seq<Seq<F>>>,
    singles_a: Seq<InstanceSingle<F>>,
    singles_b: Seq<InstanceSingle<F>>,
    a: Seq<CircuitRecord<F, C::AffineRepr>>,
    b: Seq<CircuitRecord<F, C::AffineRepr>>,
    start: int,
    n: int,
) -> bool {
    &&& a.len() == b.len()
    &&& forall|i: int|
        0 <= i < a.len() ==> circuit_may_repeat::<F, C, S>(
            params,
            query_instance,
            instances_a[i],
            instances_b[i],
            singles_a[i],
            singles_b[i],
            #[trigger] a[i],
            b[i],
            start,
            n,
        )
}

/// Circuits that start after the same steps take the same steps.
pub proof fn lemma_circuits_repeat<F: Field, C: Curve, S: Params<F, C>>(
    params: &S,
    world: World<C::AffineRepr>,
    before: Seq<Step<int, C::AffineRepr>>,
    query_instance: bool,
    instances_a: Seq<Seq<Seq<F>>>,
    instances_b: Seq<Seq<Seq<F>>>,
    singles_a: Seq<InstanceSingle<F>>,
    singles_b: Seq<InstanceSingle<F>>,
    a: Seq<CircuitRecord<F, C::AffineRepr>>,
    b: Seq<CircuitRecord<F, C::AffineRepr>>,
    start: int,
    n: int,
)
    requires
        is_functional::<F, C, S>(params),
        0 <= start <= n,
        circuits_may_repeat::<F, C, S>(
            params,
            query_instance,
            instances_a,
            instances_b,
            singles_a,
            singles_b,
            a,
            b,
            start,
            n,
        ),
        is_answered(
            world,
            before + shapes(steps::circuits_steps(a, query_instance, instances_a, start)),
        ),
        is_answered(
            world,
            before + shapes(steps::circuits_steps(b, query_instance, instances_b, start)),
        ),
    ensures
        shapes(steps::circuits_steps(a, query_instance, instances_a, start)) == shapes(
            steps::circuits_steps(b, query_instance, instances_b, start),
        ),
        forall|i: int| 0 <= i < a.len() ==> same_phases((#[trigger] a[i]).phases, b[i].phases),
    decreases a.len(),
{
    if a.len() > 0 {
        let i = a.len() - 1;
        let (a1, b1) = (a.drop_last(), b.drop_last());
        let sa = steps::circuits_steps(a1, query_instance, instances_a, start);
        let sb = steps::circuits_steps(b1, query_instance, instances_b, start);
        let la = steps::circuit_steps(a.last(), query_instance, instances_a[i], start);
        let lb = steps::circuit_steps(b.last(), query_instance, instances_b[i], start);
        lemma_shapes_concat(sa, la);
        lemma_shapes_concat(sb, lb);
        assert(before + (shapes(sa) + shapes(la)) =~= (before + shapes(sa)) + shapes(la));
        assert(before + (shapes(sb) + shapes(lb)) =~= (before + shapes(sb)) + shapes(lb));
        lemma_answered_prefix(world, before + shapes(sa), shapes(la));
        lemma_answered_prefix(world, before + shapes(sb), shapes(lb));
        assert(circuits_may_repeat::<F, C, S>(
            params,
            query_instance,
            instances_a,
            instances_b,
            singles_a,
            singles_b,
            a1,
            b1,
            start,
            n,
        )) by {
            assert forall|k: int| 0 <= k < a1.len() implies circuit_may_repeat::<F, C, S>(
                params,
                query_instance,
                instances_a[k],
                instances_b[k],
                singles_a[k],
                singles_b[k],
                #[trigger] a1[k],
                b1[k],
                start,
                n,
            ) by {
                assert(a1[k] == a[k] && b1[k] == b[k]);
            }
        }
        lemma_circuits_repeat::<F, C, S>(
            params,
            world,
            before,
            query_instance,
            instances_a,
            instances_b,
            singles_a,
            singles_b,
            a1,
            b1,
            start,
            n,
        );
        assert(a[i] == a.last() && b[i] == b.last());
        lemma_circuit_repeats::<F, C, S>(
            params,
            world,
            before + shapes(sa),
            query_instance,
            instances_a[i],
            instances_b[i],
            instance_values(singles_a[i]),
            instance_values(singles_b[i]),
            a[i],
            b[i],
            start,
            n,
        );
        assert forall|k: int| 0 <= k < a.len() implies same_phases(
            (#[trigger] a[k]).phases,
            b[k].phases,
        ) by {
            if k < i {
                assert(a1[k] == a[k] && b1[k] == b[k]);
            }
        }
    }
}

/// The challenges of the phases before `phase` are alike.
pub open spec fn knows_alike<F: Field>(
    cs: &ConstraintSystem,
    a: Seq<F>,
    b: Seq<F>,
    phase: int,
) -> bool {
    forall|k: int|
        0 <= k < cs.num_challenges && cs.challenge_phase@[k].0 < phase ==> (
        #[trigger] a[k]).value() == b[k].value()
}

/// The usable rows of the columns of a phase are the same in both runs if the
/// challenges of the phases before it are.
pub open spec fn same_usable<F: Field, P>(
    a: Seq<PhaseRecord<F, P>>,
    b: Seq<PhaseRecord<F, P>>,
    start: int,
) -> bool {
    forall|p: int, j: int, row: int|
        0 <= p < a.len() && p < b.len() && same_challenges(a, b, p) && 0 <= j < a[p].values.len()
            && j < b[p].values.len() && 0 <= row < start ==> (
        #[trigger] a[p].values[j][row]).value() == b[p].values[j][row].value()
}

/// The usable rows are the same for each circuit.
pub open spec fn all_same_usable<F: Field, P>(
    a: Seq<CircuitRecord<F, P>>,
    b: Seq<CircuitRecord<F, P>>,
    start: int,
) -> bool {
    forall|i: int|
        0 <= i < a.len() && i < b.len() ==> same_usable(
            (#[trigger] a[i]).phases,
            b[i].phases,
            start,
        )
}

/// The columns and the blinds are alike.
pub open spec fn same_advice<F: Field>(
    a: Seq<AdviceCommitted<F, LagrangeCoeff>>,
    b: Seq<AdviceCommitted<F, LagrangeCoeff>>,
) -> bool {
    &&& a.len() == b.len()
    &&& forall|i: int|
        #![trigger a[i]]
        0 <= i < a.len() ==> {
            &&& lists(channel::values_of(a[i].advice_polys@)) == lists(
                channel::values_of(b[i].advice_polys@),
            )
            &&& field::values_of(steps::blinds_of(a[i].advice_blinds@)) == field::values_of(
                steps::blinds_of(b[i].advice_blinds@),
            )
        }
}

/// The challenges of earlier phases are those that were recorded.
proof fn lemma_knows_alike<F: Field, P>(
    cs: &ConstraintSystem,
    a_advice: AdviceCommitted<F, LagrangeCoeff>,
    a_challenges: Seq<F>,
    a: Seq<PhaseRecord<F, P>>,
    b_advice: AdviceCommitted<F, LagrangeCoeff>,
    b_challenges: Seq<F>,
    b: Seq<PhaseRecord<F, P>>,
    phase: int,
)
    requires
        cs.wf(),
        0 <= phase <= a.len(),
        a.len() == b.len(),
        forall|p: int|
            0 <= p < a.len() ==> witness::phase_matches(
                cs,
                p,
                a_advice,
                a_challenges,
                #[trigger] a[p],
            ),
        forall|p: int|
            0 <= p < b.len() ==> witness::phase_matches(
                cs,
                p,
                b_advice,
                b_challenges,
                #[trigger] b[p],
            ),
        same_challenges(a, b, phase),
    ensures
        knows_alike(cs, a_challenges, b_challenges, phase),
{
    assert(cs.num_challenges <= usize::MAX);
    assert forall|k: int| 0 <= k < cs.num_challenges && cs.challenge_phase@[k].0 < phase implies (
    #[trigger] a_challenges[k]).value() == b_challenges[k].value() by {
        let p = cs.challenge_phase@[k].0 as int;
        steps::lemma_indices_of_phase(cs.challenge_phase@, p);
        let list = steps::indices_of_phase(cs.challenge_phase@, p);
        assert(list.contains(k as usize));
        let j = choose|j: int| 0 <= j < list.len() && list[j] == k as usize;
        assert(witness::phase_matches(cs, p, a_advice, a_challenges, a[p]));
        assert(witness::phase_matches(cs, p, b_advice, b_challenges, b[p]));
        assert(a_challenges[list[j] as int] == a[p].challenges[j]);
        assert(b_challenges[list[j] as int] == b[p].challenges[j]);
        assert(field::values_of(a[p].challenges)[j] == field::values_of(b[p].challenges)[j]);
    }
}

/// The columns, blinds and challenges are those that were recorded.
proof fn lemma_same_advice<F: Field, P>(
    cs: &ConstraintSystem,
    n: usize,
    a_advice: AdviceCommitted<F, LagrangeCoeff>,
    a_challenges: Seq<F>,
    a: Seq<PhaseRecord<F, P>>,
    b_advice: AdviceCommitted<F, LagrangeCoeff>,
    b_challenges: Seq<F>,
    b: Seq<PhaseRecord<F, P>>,
)
    requires
        cs.wf(),
        a.len() == cs.spec_num_phases(),
        forall|p: int|
            0 <= p < a.len() ==> witness::phase_matches(
                cs,
                p,
                a_advice,
                a_challenges,
                #[trigger] a[p],
            ),
        forall|p: int|
            0 <= p < b.len() ==> witness::phase_matches(
                cs,
                p,
                b_advice,
                b_challenges,
                #[trigger] b[p],
            ),
        witness::advice_fits(cs, n, a_advice),
        witness::advice_fits(cs, n, b_advice),
        same_phases(a, b),
    ensures
        same_advice(seq![a_advice], seq![b_advice]),
        knows_alike(cs, a_challenges, b_challenges, cs.spec_num_phases()),
{
    lemma_knows_alike(
        cs,
        a_advice,
        a_challenges,
        a,
        b_advice,
        b_challenges,
        b,
        cs.spec_num_phases(),
    );
    circuit::lemma_phases_spanned(cs.advice_column_phase@, circuit::MAX_PHASES as int);
    let va = channel::values_of(a_advice.advice_polys@);
    let vb = channel::values_of(b_advice.advice_polys@);
    let ba = steps::blinds_of(a_advice.advice_blinds@);
    let bb = steps::blinds_of(b_advice.advice_blinds@);
    assert forall|c: int| 0 <= c < cs.num_advice_columns implies (#[trigger] lists(va)[c]) == lists(
        vb,
    )[c] && field::values_of(ba)[c] == field::values_of(bb)[c] by {
        let p = cs.advice_column_phase@[c].0 as int;
        steps::lemma_indices_of_phase(cs.advice_column_phase@, p);
        let list = steps::indices_of_phase(cs.advice_column_phase@, p);
        assert(list.contains(c as usize));
        let j = choose|j: int| 0 <= j < list.len() && list[j] == c as usize;
        assert(witness::phase_matches(cs, p, a_advice, a_challenges, a[p]));
        assert(witness::phase_matches(cs, p, b_advice, b_challenges, b[p]));
        assert(a_advice.advice_polys@[list[j] as int]@ == a[p].values[j]);
        assert(b_advice.advice_polys@[list[j] as int]@ == b[p].values[j]);
        assert(lists(a[p].values)[j] == lists(b[p].values)[j]);
        assert(field::values_of(a[p].blinds)[j] == field::values_of(b[p].blinds)[j]);
    }
    assert(lists(va) =~= lists(vb));
    assert forall|c: int| 0 <= c < cs.num_advice_columns implies (#[trigger] field::values_of(ba)[c])
        == field::values_of(bb)[c] by {
        assert(lists(va)[c] == lists(vb)[c]);
    }
    assert(field::values_of(ba) =~= field::values_of(bb));
}

/// The instances that are absorbed for each circuit are alike.
pub open spec fn absorbs_alike<F: Field>(
    query_instance: bool,
    instances_a: Seq<Seq<Seq<F>>>,
    instances_b: Seq<Seq<Seq<F>>>,
    singles_a: Seq<InstanceSingle<F>>,
    singles_b: Seq<InstanceSingle<F>>,
) -> bool {
    &&& instances_a.len() == instances_b.len()
    &&& forall|i: int|
        #![trigger instances_a[i]]
        0 <= i < instances_a.len() ==> same_instances(
            query_instance,
            instances_a[i],
            instances_b[i],
            instance_values(singles_a[i]),
            instance_values(singles_b[i]),
        )
}

/// Two runs of witness generation that start after the same steps and are
/// answered alike take the same steps, if the instances that they absorb and the
/// usable rows of the columns are the same. They come to the same columns, blinds
/// and challenges.
pub proof fn lemma_witness_repeats<F: Field, C: Curve, S: Params<F, C>>(
    params: &S,
    pk: &ProvingKey<F>,
    world: World<C::AffineRepr>,
    query_instance: bool,
    instances_a: Seq<Seq<Seq<F>>>,
    instances_b: Seq<Seq<Seq<F>>>,
    singles_a: Seq<InstanceSingle<F>>,
    singles_b: Seq<InstanceSingle<F>>,
    advice_a: Seq<AdviceCommitted<F, LagrangeCoeff>>,
    advice_b: Seq<AdviceCommitted<F, LagrangeCoeff>>,
    challenges_a: Seq<F>,
    challenges_b: Seq<F>,
    a: Seq<CircuitRecord<F, C::AffineRepr>>,
    b: Seq<CircuitRecord<F, C::AffineRepr>>,
    before: Seq<Step<int, C::AffineRepr>>,
)
    requires
        pk.wf(params.spec_n()),
        pk.vk.cs.num_challenges > 0 ==> instances_a.len() > 0,
        is_functional::<F, C, S>(params),
        absorbs_alike(query_instance, instances_a, instances_b, singles_a, singles_b),
        all_same_usable(a, b, pk.unusable_rows_start()),
        instances_a.len() == a.len(),
        a.len() == b.len(),
        challenges_a.len() == pk.vk.cs.num_challenges,
        challenges_b.len() == pk.vk.cs.num_challenges,
        witness::all_recorded::<F, C, S>(
            params,
            &pk.vk.cs,
            query_instance,
            singles_a,
            advice_a,
            challenges_a,
            a,
        ),
        witness::all_recorded::<F, C, S>(
            params,
            &pk.vk.cs,
            query_instance,
            singles_b,
            advice_b,
            challenges_b,
            b,
        ),
        is_answered(
            world,
            before + shapes(
                steps::circuits_steps(a, query_instance, instances_a, pk.unusable_rows_start()),
            ),
        ),
        is_answered(
            world,
            before + shapes(
                steps::circuits_steps(b, query_instance, instances_b, pk.unusable_rows_start()),
            ),
        ),
    ensures
        shapes(steps::circuits_steps(a, query_instance, instances_a, pk.unusable_rows_start()))
            == shapes(
            steps::circuits_steps(b, query_instance, instances_b, pk.unusable_rows_start()),
        ),
        same_advice(advice_a, advice_b),
        field::values_of(challenges_a) == field::values_of(challenges_b),
{
    let cs = &pk.vk.cs;
    let start = pk.unusable_rows_start();
    let n = params.spec_n() as int;
    circuit::lemma_phases_spanned(cs.advice_column_phase@, circuit::MAX_PHASES as int);
    assert forall|i: int| 0 <= i < a.len() implies circuit_may_repeat::<F, C, S>(
        params,
        query_instance,
        instances_a[i],
        instances_b[i],
        singles_a[i],
        singles_b[i],
        #[trigger] a[i],
        b[i],
        start,
        n,
    ) by {
        assert(witness::circuit_recorded::<F, C, S>(
            params,
            cs,
            query_instance,
            singles_a[i],
            advice_a[i],
            challenges_a,
            a[i],
        ));
        assert(witness::circuit_recorded::<F, C, S>(
            params,
            cs,
            query_instance,
            singles_b[i],
            advice_b[i],
            challenges_b,
            b[i],
        ));
        assert(same_instances(
            query_instance,
            instances_a[i],
            instances_b[i],
            instance_values(singles_a[i]),
            instance_values(singles_b[i]),
        ));
        lemma_may_repeat::<F, C, S>(
            params,
            pk,
            query_instance,
            singles_a[i],
            singles_b[i],
            advice_a[i],
            advice_b[i],
            challenges_a,
            challenges_b,
            a[i],
            b[i],
        );
    }
    lemma_circuits_repeat::<F, C, S>(
        params,
        world,
        before,
        query_instance,
        instances_a,
        instances_b,
        singles_a,
        singles_b,
        a,
        b,
        start,
        n,
    );
    assert forall|i: int| 0 <= i < a.len() implies same_advice(
        seq![#[trigger] advice_a[i]],
        seq![advice_b[i]],
    ) && knows_alike(cs, challenges_a, challenges_b, cs.spec_num_phases()) by {
        assert(same_phases(a[i].phases, b[i].phases));
        assert(witness::circuit_recorded::<F, C, S>(
            params,
            cs,
            query_instance,
            singles_a[i],
            advice_a[i],
            challenges_a,
            a[i],
        ));
        assert(witness::circuit_recorded::<F, C, S>(
            params,
            cs,
            query_instance,
            singles_b[i],
            advice_b[i],
            challenges_b,
            b[i],
        ));
        lemma_same_advice(
            cs,
            params.spec_n(),
            advice_a[i],
            challenges_a,
            a[i].phases,
            advice_b[i],
            challenges_b,
            b[i].phases,
        );
    }
    assert forall|i: int| #![trigger advice_a[i]] 0 <= i < advice_a.len() implies lists(
        channel::values_of(advice_a[i].advice_polys@),
    ) == lists(channel::values_of(advice_b[i].advice_polys@)) && field::values_of(
        steps::blinds_of(advice_a[i].advice_blinds@),
    ) == field::values_of(steps::blinds_of(advice_b[i].advice_blinds@)) by {
        let (sa, sb) = (seq![advice_a[i]], seq![advice_b[i]]);
        assert(same_advice(sa, sb));
        assert(sa[0] == advice_a[i] && sb[0] == advice_b[i]);
    }
    assert forall|k: int| 0 <= k < challenges_a.len() implies (#[trigger] challenges_a[k]).value()
        == challenges_b[k].value() by {
        assert(advice_a[0] == advice_a[0]);
        assert(knows_alike(cs, challenges_a, challenges_b, cs.spec_num_phases()));
        assert(cs.challenge_phase@[k].0 < cs.spec_num_phases());
    }
    assert(field::values_of(challenges_a) =~= field::values_of(challenges_b));
}

proof fn lemma_may_repeat<F: Field, C: Curve, S: Params<F, C>>(
    params: &S,
    pk: &ProvingKey<F>,
    query_instance: bool,
    single_a: InstanceSingle<F>,
    single_b: InstanceSingle<F>,
    advice_a: AdviceCommitted<F, LagrangeCoeff>,
    advice_b: AdviceCommitted<F, LagrangeCoeff>,
    challenges_a: Seq<F>,
    challenges_b: Seq<F>,
    a: CircuitRecord<F, C::AffineRepr>,
    b: CircuitRecord<F, C::AffineRepr>,
)
    requires
        pk.wf(params.spec_n()),
        same_usable(a.phases, b.phases, pk.unusable_rows_start()),
        witness::circuit_recorded::<F, C, S>(
            params,
            &pk.vk.cs,
            query_instance,
            single_a,
            advice_a,
            challenges_a,
            a,
        ),
        witness::circuit_recorded::<F, C, S>(
            params,
            &pk.vk.cs,
            query_instance,
            single_b,
            advice_b,
            challenges_b,
            b,
        ),
    ensures
        may_repeat::<F, C, S>(
            params,
            a.phases,
            b.phases,
            pk.unusable_rows_start(),
            params.spec_n() as int,
        ),
{
    let cs = &pk.vk.cs;
    let start = pk.unusable_rows_start();
    let n = params.spec_n() as int;
    lemma_recorded_sizes::<F, C, S>(
        params,
        pk,
        query_instance,
        single_a,
        advice_a,
        challenges_a,
        a,
    );
    lemma_recorded_sizes::<F, C, S>(
        params,
        pk,
        query_instance,
        single_b,
        advice_b,
        challenges_b,
        b,
    );
    assert forall|p: int| #![trigger a.phases[p]] 0 <= p < a.phases.len() implies {
        &&& steps::phase_committed::<F, C, S>(params, a.phases[p])
        &&& steps::phase_committed::<F, C, S>(params, b.phases[p])
        &&& same_challenges(a.phases, b.phases, p) ==> same_phase(
            a.phases[p],
            b.phases[p],
            start,
            n,
        )
    } by {
        assert(witness::phase_matches(cs, p, advice_a, challenges_a, a.phases[p]));
        assert(witness::phase_matches(cs, p, advice_b, challenges_b, b.phases[p]));
    }
}

/// The columns of a circuit that was recorded have the size of the domain.
pub proof fn lemma_recorded_sizes<F: Field, C: Curve, S: Params<F, C>>(
    params: &S,
    pk: &ProvingKey<F>,
    query_instance: bool,
    single: InstanceSingle<F>,
    advice: AdviceCommitted<F, LagrangeCoeff>,
    challenges: Seq<F>,
    record: CircuitRecord<F, C::AffineRepr>,
)
    requires
        pk.wf(params.spec_n()),
        witness::circuit_recorded::<F, C, S>(
            params,
            &pk.vk.cs,
            query_instance,
            single,
            advice,
            challenges,
            record,
        ),
    ensures
        forall|p: int, j: int|
            0 <= p < record.phases.len() && 0 <= j < record.phases[p].values.len() ==> (
            #[trigger] record.phases[p].values[j]).len() == params.spec_n(),
{
    let cs = &pk.vk.cs;
    assert forall|p: int, j: int|
        0 <= p < record.phases.len() && 0 <= j < record.phases[p].values.len() implies (
    #[trigger] record.phases[p].values[j]).len() == params.spec_n() by {
        assert(witness::phase_matches(cs, p, advice, challenges, record.phases[p]));
        steps::lemma_indices_of_phase(cs.advice_column_phase@, p);
        let list = steps::indices_of_phase(cs.advice_column_phase@, p);
        assert(list[j] < cs.num_advice_columns);
        assert(advice.advice_polys@[list[j] as int]@ == record.phases[p].values[j]);
    }
}

} // verus!
