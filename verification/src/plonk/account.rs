//! What a proof is, said of its steps alone: which challenge each of them takes,
//! which columns it is about, and how what is written and what is opened hang
//! together.

use super::channel;
use super::channel::{Slot, Step};
use super::protocol;
use super::protocol::{
    CircuitOpenings, EvaluationRecord, OpeningRecord, ProofRecord, QuotientRecord,
};
use super::witness::{AdviceCommitted, InstanceSingle};
use super::ProvingKey;
use crate::arithmetic;
use crate::field;
use crate::field::Field;
use crate::poly::commitment::Query;
use crate::poly::domain;
use crate::poly::{EvaluationDomain, LagrangeCoeff, Polynomial};
use vstd::arithmetic::power;
use vstd::prelude::*;

verus! {

/// The challenges that were squeezed, in order.
pub open spec fn squeezed<F, P>(steps: Seq<Step<F, P>>) -> Seq<F>
    decreases steps.len(),
{
    if steps.len() == 0 {
        Seq::empty()
    } else {
        let before = squeezed(steps.drop_last());
        match steps.last() {
            Step::Squeeze(challenge) => before.push(challenge),
            _ => before,
        }
    }
}

/// The scalars that were written, in order.
pub open spec fn written<F, P>(steps: Seq<Step<F, P>>) -> Seq<F>
    decreases steps.len(),
{
    if steps.len() == 0 {
        Seq::empty()
    } else {
        let before = written(steps.drop_last());
        match steps.last() {
            Step::WriteScalar(scalar) => before.push(scalar),
            _ => before,
        }
    }
}

pub(crate) proof fn lemma_squeezed_concat<F, P>(a: Seq<Step<F, P>>, b: Seq<Step<F, P>>)
    ensures
        squeezed(a + b) == squeezed(a) + squeezed(b),
    decreases b.len(),
{
    if b.len() == 0 {
        assert(a + b =~= a);
        assert(squeezed(a) + squeezed(b) =~= squeezed(a));
    } else {
        lemma_squeezed_concat(a, b.drop_last());
        assert((a + b).drop_last() =~= a + b.drop_last());
        assert((a + b).last() == b.last());
        assert(squeezed(a + b) =~= squeezed(a) + squeezed(b));
    }
}

proof fn lemma_written_concat<F, P>(a: Seq<Step<F, P>>, b: Seq<Step<F, P>>)
    ensures
        written(a + b) == written(a) + written(b),
    decreases b.len(),
{
    if b.len() == 0 {
        assert(a + b =~= a);
        assert(written(a) + written(b) =~= written(a));
    } else {
        lemma_written_concat(a, b.drop_last());
        assert((a + b).drop_last() =~= a + b.drop_last());
        assert((a + b).last() == b.last());
        assert(written(a + b) =~= written(a) + written(b));
    }
}

/// All steps are like this.
pub open spec fn all<F, P>(steps: Seq<Step<F, P>>, like: spec_fn(Step<F, P>) -> bool) -> bool {
    forall|k: int| 0 <= k < steps.len() ==> like(#[trigger] steps[k])
}

pub(crate) proof fn lemma_all_concat<F, P>(
    a: Seq<Step<F, P>>,
    b: Seq<Step<F, P>>,
    like: spec_fn(Step<F, P>) -> bool,
)
    requires
        all(a, like),
        all(b, like),
    ensures
        all(a + b, like),
{
    assert forall|k: int| 0 <= k < (a + b).len() implies like(#[trigger] (a + b)[k]) by {
        if k < a.len() {
            assert(like(a[k]));
        } else {
            assert(like(b[k - a.len()]));
        }
    }
}

proof fn lemma_all_circuits<F, P>(
    count: nat,
    f: spec_fn(int) -> Seq<Step<F, P>>,
    like: spec_fn(Step<F, P>) -> bool,
)
    requires
        forall|i: int| 0 <= i < count ==> all(#[trigger] f(i), like),
    ensures
        all(protocol::for_circuits(count, f), like),
    decreases count,
{
    if count > 0 {
        let m = (count - 1) as nat;
        lemma_all_circuits(m, f, like);
        assert(all(f(count - 1), like));
        lemma_all_concat(protocol::for_circuits(m, f), f(count - 1), like);
    }
}

/// Without challenges and written scalars among them, steps have none.
pub(crate) proof fn lemma_none_squeezed<F, P>(steps: Seq<Step<F, P>>)
    requires
        forall|k: int| 0 <= k < steps.len() ==> !((#[trigger] steps[k]) is Squeeze),
    ensures
        squeezed(steps) == Seq::<F>::empty(),
    decreases steps.len(),
{
    if steps.len() > 0 {
        let init = steps.drop_last();
        assert forall|k: int| 0 <= k < init.len() implies !((#[trigger] init[k]) is Squeeze) by {
            assert(init[k] == steps[k]);
        }
        lemma_none_squeezed(init);
        assert(steps.last() == steps[steps.len() - 1]);
    }
}

proof fn lemma_none_written<F, P>(steps: Seq<Step<F, P>>)
    requires
        forall|k: int| 0 <= k < steps.len() ==> !((#[trigger] steps[k]) is WriteScalar),
    ensures
        written(steps) == Seq::<F>::empty(),
    decreases steps.len(),
{
    if steps.len() > 0 {
        let init = steps.drop_last();
        assert forall|k: int| 0 <= k < init.len() implies !((#[trigger] init[k]) is WriteScalar) by {
            assert(init[k] == steps[k]);
        }
        lemma_none_written(init);
        assert(steps.last() == steps[steps.len() - 1]);
    }
}

/// The step takes the challenges that it should, of those that were squeezed so far
/// in the arguments: the permuted columns of a lookup take the only one; the products
/// the second and the third; the quotient all four; and what comes after the fifth
/// is evaluated and opened there. `n` is the number of points of the domain.
pub open spec fn takes_challenges<F: Field, P>(
    sofar: Seq<F>,
    step: Step<F, P>,
    challenges: Seq<F>,
    n: nat,
) -> bool {
    match step {
        Step::Squeeze(_) => sofar.len() < 5,
        Step::LookupPermuted { theta, challenges: given, .. } => {
            &&& sofar.len() == 1
            &&& theta == sofar.last()
            &&& given == challenges
        },
        Step::PermutationCommitted { beta, gamma, .. } => {
            &&& sofar.len() == 3
            &&& gamma == sofar.last()
            &&& beta == sofar[1]
        },
        Step::LookupCommitted { beta, gamma, .. } => {
            &&& sofar.len() == 3
            &&& gamma == sofar.last()
            &&& beta == sofar[1]
        },
        Step::VanishingCommitted => sofar.len() == 3,
        Step::Quotient { challenges: given, y, beta, gamma, theta, .. } => {
            &&& sofar.len() == 4
            &&& y == sofar.last()
            &&& gamma == sofar[2]
            &&& beta == sofar[1]
            &&& theta == sofar.first()
            &&& given == challenges
        },
        Step::VanishingConstructed { .. } => sofar.len() == 4,
        Step::WriteScalar(_) => sofar.len() == 5,
        Step::VanishingEvaluated { x, xn } => {
            &&& sofar.len() == 5
            &&& x == sofar.last()
            &&& xn.value() == power::pow(x.value(), n) % F::modulus()
        },
        Step::CommonPermutationEvaluated { x } => sofar.len() == 5 && x == sofar.last(),
        Step::PermutationEvaluated { x, .. } => sofar.len() == 5 && x == sofar.last(),
        Step::LookupEvaluated { x, .. } => sofar.len() == 5 && x == sofar.last(),
        Step::PermutationOpened { x, .. } => sofar.len() == 5 && x == sofar.last(),
        Step::LookupOpened { x, .. } => sofar.len() == 5 && x == sofar.last(),
        Step::CommonPermutationOpened { x, .. } => sofar.len() == 5 && x == sofar.last(),
        Step::VanishingOpened { x, .. } => sofar.len() == 5 && x == sofar.last(),
        Step::MultiOpen { .. } => sofar.len() == 5,
        _ => false,
    }
}

/// A step that squeezes nothing and takes the challenges that it should.
pub open spec fn taking<F: Field, P>(sofar: Seq<F>, challenges: Seq<F>, n: nat) -> spec_fn(
    Step<F, P>,
) -> bool {
    |s: Step<F, P>| !(s is Squeeze) && takes_challenges(sofar, s, challenges, n)
}

/// Every step of `steps` takes the challenges that it should, of those that were
/// squeezed before it, in `before` or in `steps`.
#[verifier::opaque]
pub open spec fn all_take<F: Field, P>(
    before: Seq<Step<F, P>>,
    steps: Seq<Step<F, P>>,
    challenges: Seq<F>,
    n: nat,
) -> bool {
    forall|k: int|
        0 <= k < steps.len() ==> takes_challenges(
            squeezed(before + steps.take(k)),
            #[trigger] steps[k],
            challenges,
            n,
        )
}

proof fn lemma_take_concat<F: Field, P>(
    before: Seq<Step<F, P>>,
    a: Seq<Step<F, P>>,
    b: Seq<Step<F, P>>,
    challenges: Seq<F>,
    n: nat,
)
    requires
        all_take(before, a, challenges, n),
        all_take(before + a, b, challenges, n),
    ensures
        all_take(before, a + b, challenges, n),
{
    reveal(all_take);
    let ab = a + b;
    assert forall|k: int| 0 <= k < ab.len() implies takes_challenges(
        squeezed(before + ab.take(k)),
        #[trigger] ab[k],
        challenges,
        n,
    ) by {
        if k < a.len() {
            assert(ab.take(k) =~= a.take(k));
            assert(ab[k] == a[k]);
        } else {
            let j = k - a.len();
            assert(before + ab.take(k) =~= before + a + b.take(j));
            assert(ab[k] == b[j]);
        }
    }
}

/// Steps that squeeze nothing all have the same challenges before them.
proof fn lemma_take_same<F: Field, P>(
    before: Seq<Step<F, P>>,
    steps: Seq<Step<F, P>>,
    sofar: Seq<F>,
    challenges: Seq<F>,
    n: nat,
)
    requires
        squeezed(before) == sofar,
        all(steps, taking(sofar, challenges, n)),
    ensures
        all_take(before, steps, challenges, n),
        squeezed(before + steps) == sofar,
{
    reveal(all_take);
    let like = taking::<F, P>(sofar, challenges, n);
    assert forall|k: int| 0 <= k <= steps.len() implies squeezed(
        before + #[trigger] steps.take(k),
    ) == sofar by {
        let part = steps.take(k);
        assert forall|l: int| 0 <= l < part.len() implies !((#[trigger] part[l]) is Squeeze) by {
            assert(part[l] == steps[l]);
            assert(like(steps[l]));
        }
        lemma_none_squeezed(part);
        lemma_squeezed_concat(before, part);
        assert(sofar + Seq::<F>::empty() =~= sofar);
    }
    assert(steps.take(steps.len() as int) =~= steps);
    assert forall|k: int| 0 <= k < steps.len() implies takes_challenges(
        squeezed(before + steps.take(k)),
        #[trigger] steps[k],
        challenges,
        n,
    ) by {
        assert(like(steps[k]));
        assert(squeezed(before + steps.take(k)) == sofar);
    }
}

/// A challenge that is squeezed is the last one after it.
proof fn lemma_take_squeeze<F: Field, P>(
    before: Seq<Step<F, P>>,
    c: F,
    challenges: Seq<F>,
    n: nat,
)
    requires
        squeezed(before).len() < 5,
    ensures
        all_take(before, seq![Step::Squeeze(c)], challenges, n),
        squeezed(before + seq![Step::Squeeze(c)]) == squeezed(before).push(c),
{
    reveal(all_take);
    let one = seq![Step::<F, P>::Squeeze(c)];
    assert(before + one.take(0) =~= before);
    assert((before + one).drop_last() =~= before);
    assert((before + one).last() == one[0]);
}

proof fn lemma_products_take<F: Field, P>(
    pk: &ProvingKey<F>,
    instance: Seq<InstanceSingle<F>>,
    advice: Seq<AdviceCommitted<F, LagrangeCoeff>>,
    challenges: Seq<F>,
    theta: F,
    beta: F,
    gamma: F,
    n: nat,
)
    ensures
        all_take(
            Seq::empty(),
            protocol::product_commit_steps::<F, P>(
                pk,
                instance,
                advice,
                challenges,
                theta,
                beta,
                gamma,
            ),
            challenges,
            n,
        ),
        squeezed(
            protocol::product_commit_steps::<F, P>(
                pk,
                instance,
                advice,
                challenges,
                theta,
                beta,
                gamma,
            ),
        ) == seq![theta, beta, gamma],
{
    let none = Seq::<Step<F, P>>::empty();
    let count = instance.len();
    let s1 = seq![Step::<F, P>::Squeeze(theta)];
    let f = protocol::permuted_steps::<F, P>(pk, theta, instance, advice, challenges);
    let s2 = protocol::for_circuits(count, f);
    let s3 = seq![Step::<F, P>::Squeeze(beta)];
    let s4 = seq![Step::<F, P>::Squeeze(gamma)];
    let s5 = protocol::permutation_steps::<F, P>(pk, instance, advice, beta, gamma);
    let g = protocol::product_steps::<F, P>(&pk.vk.cs, beta, gamma);
    let s6 = protocol::for_circuits(count, g);
    lemma_take_squeeze(none, theta, challenges, n);
    let c1 = seq![theta];
    assert(squeezed(none + s1) =~= c1);
    let like = taking::<F, P>(c1, challenges, n);
    lemma_all_circuits(count, f, like);
    lemma_take_same(none + s1, s2, c1, challenges, n);
    lemma_take_concat(none, s1, s2, challenges, n);
    let a2 = s1 + s2;
    assert(none + s1 + s2 =~= none + a2);
    lemma_take_squeeze(none + a2, beta, challenges, n);
    lemma_take_concat(none, a2, s3, challenges, n);
    let a3 = a2 + s3;
    assert(none + a2 + s3 =~= none + a3);
    lemma_take_squeeze(none + a3, gamma, challenges, n);
    lemma_take_concat(none, a3, s4, challenges, n);
    let a4 = a3 + s4;
    assert(none + a3 + s4 =~= none + a4);
    let c3 = seq![theta, beta, gamma];
    assert(squeezed(none + a4) =~= c3);
    let like = taking::<F, P>(c3, challenges, n);
    lemma_take_same(none + a4, s5, c3, challenges, n);
    lemma_take_concat(none, a4, s5, challenges, n);
    let a5 = a4 + s5;
    assert(none + a4 + s5 =~= none + a5);
    lemma_all_circuits(count, g, like);
    lemma_take_same(none + a5, s6, c3, challenges, n);
    lemma_take_concat(none, a5, s6, challenges, n);
    let steps = protocol::product_commit_steps::<F, P>(
        pk,
        instance,
        advice,
        challenges,
        theta,
        beta,
        gamma,
    );
    assert(steps =~= a5 + s6);
    assert(none + a5 + s6 =~= steps);
}

proof fn lemma_quotient_takes<F: Field, P>(
    pk: &ProvingKey<F>,
    instance: Seq<InstanceSingle<F>>,
    advice: Seq<AdviceCommitted<F, LagrangeCoeff>>,
    challenges: Seq<F>,
    record: QuotientRecord<F>,
    n: nat,
)
    ensures
        all_take(
            Seq::empty(),
            protocol::quotient_steps::<F, P>(pk, instance, advice, challenges, record),
            challenges,
            n,
        ),
        squeezed(protocol::quotient_steps::<F, P>(pk, instance, advice, challenges, record))
            == seq![record.theta, record.beta, record.gamma, record.y],
{
    let none = Seq::<Step<F, P>>::empty();
    let products = protocol::product_commit_steps::<F, P>(
        pk,
        instance,
        advice,
        challenges,
        record.theta,
        record.beta,
        record.gamma,
    );
    lemma_products_take::<F, P>(
        pk,
        instance,
        advice,
        challenges,
        record.theta,
        record.beta,
        record.gamma,
        n,
    );
    let v = protocol::vanishing_steps::<F, P>(pk, instance, challenges, record);
    let (v1, v2, v3) = (v.take(1), seq![Step::<F, P>::Squeeze(record.y)], v.skip(2));
    let c3 = seq![record.theta, record.beta, record.gamma];
    let c4 = seq![record.theta, record.beta, record.gamma, record.y];
    assert(none + products =~= products);
    lemma_take_same(products, v1, c3, challenges, n);
    lemma_take_concat(none, products, v1, challenges, n);
    let a1 = products + v1;
    assert(none + a1 =~= a1);
    lemma_take_squeeze(a1, record.y, challenges, n);
    lemma_take_concat(none, a1, v2, challenges, n);
    let a2 = a1 + v2;
    assert(none + a2 =~= a2);
    assert(squeezed(a2) =~= c4);
    lemma_take_same(a2, v3, c4, challenges, n);
    lemma_take_concat(none, a2, v3, challenges, n);
    assert(v =~= v1 + v2 + v3);
    assert(protocol::quotient_steps::<F, P>(pk, instance, advice, challenges, record) =~= a2 + v3);
}

proof fn lemma_rest_takes<F: Field, P>(
    pk: &ProvingKey<F>,
    query_instance: bool,
    circuits: nat,
    before: Seq<Step<F, P>>,
    four: Seq<F>,
    challenges: Seq<F>,
    evaluation: EvaluationRecord<F>,
    opening: OpeningRecord<F>,
)
    requires
        squeezed(before) == four,
        four.len() == 4,
        evaluation.xn.value() == power::pow(evaluation.x.value(), pk.vk.domain.n as nat)
            % F::modulus(),
    ensures
        all_take(
            before,
            protocol::evaluation_steps::<F, P>(&pk.vk.cs, query_instance, circuits, evaluation)
                + protocol::opening_steps::<F, P>(circuits, evaluation.x, opening),
            challenges,
            pk.vk.domain.n as nat,
        ),
        squeezed(
            before + (protocol::evaluation_steps::<F, P>(
                &pk.vk.cs,
                query_instance,
                circuits,
                evaluation,
            ) + protocol::opening_steps::<F, P>(circuits, evaluation.x, opening)),
        ) == four.push(evaluation.x),
{
    let n = pk.vk.domain.n as nat;
    let x = evaluation.x;
    let c5 = four.push(x);
    let s1 = seq![Step::<F, P>::Squeeze(x)];
    lemma_take_squeeze(before, x, challenges, n);
    let like = taking::<F, P>(c5, challenges, n);
    assert(c5.last() == x);
    let i = if query_instance {
        protocol::for_circuits(circuits, protocol::eval_steps::<F, P>(evaluation.instance_evals))
    } else {
        Seq::empty()
    };
    let a = protocol::for_circuits(
        circuits,
        protocol::eval_steps::<F, P>(evaluation.advice_evals),
    );
    let c = protocol::write_scalar_steps::<F, P>(evaluation.fixed_evals);
    lemma_all_circuits(circuits, protocol::eval_steps::<F, P>(evaluation.instance_evals), like);
    lemma_all_circuits(circuits, protocol::eval_steps::<F, P>(evaluation.advice_evals), like);
    lemma_all_concat(i, a, like);
    lemma_all_concat(i + a, c, like);
    let common = seq![
        Step::<F, P>::VanishingEvaluated { x, xn: evaluation.xn },
        Step::<F, P>::CommonPermutationEvaluated { x },
    ];
    let permuted = protocol::permutation_eval_steps::<F, P>(circuits, x);
    let f = protocol::lookup_eval_steps::<F, P>(&pk.vk.cs, x);
    lemma_all_circuits(circuits, f, like);
    lemma_all_concat(common, permuted, like);
    let args = common + permuted + protocol::for_circuits(circuits, f);
    lemma_all_concat(common + permuted, protocol::for_circuits(circuits, f), like);
    let g = protocol::open_steps::<F, P>(opening.circuits, x);
    assert forall|k: int| 0 <= k < circuits implies all(#[trigger] g(k), like) by {
        let opened = seq![
            Step::<F, P>::PermutationOpened {
                slot: Slot { circuit: k, lookup: 0 },
                x,
                queries: opening.circuits[k].permutation,
            },
        ];
        lemma_all_concat(
            opened,
            protocol::lookup_open_steps::<F, P>(k, opening.circuits[k].lookups, x),
            like,
        );
    }
    lemma_all_circuits(circuits, g, like);
    let end = seq![
        Step::<F, P>::CommonPermutationOpened { x, queries: opening.common },
        Step::<F, P>::VanishingOpened { x, queries: opening.vanishing },
        Step::<F, P>::MultiOpen { queries: protocol::proof_queries(opening) },
    ];
    lemma_all_concat(protocol::for_circuits(circuits, g), end, like);
    let open = protocol::for_circuits(circuits, g) + end;
    lemma_all_concat(i + a + c, args, like);
    let rest = i + a + c + args + open;
    lemma_all_concat(i + a + c + args, open, like);
    lemma_take_same(before + s1, rest, c5, challenges, n);
    lemma_take_concat(before, s1, rest, challenges, n);
    let steps = protocol::evaluation_steps::<F, P>(&pk.vk.cs, query_instance, circuits, evaluation)
        + protocol::opening_steps::<F, P>(circuits, x, opening);
    assert(steps =~= s1 + rest);
    assert(before + s1 + rest =~= before + steps);
}

/// The challenges of a proof are squeezed in five goes, and every step takes those
/// that it should, in the order in which the transcript gave them: see
/// [`takes_challenges`]. Nothing else is done.
pub proof fn lemma_challenges_of_a_proof<F: Field, P>(
    pk: &ProvingKey<F>,
    query_instance: bool,
    instance: Seq<InstanceSingle<F>>,
    advice: Seq<AdviceCommitted<F, LagrangeCoeff>>,
    challenges: Seq<F>,
    before: Seq<Step<F, P>>,
    after: Seq<Step<F, P>>,
)
    requires
        protocol::is_proof(pk, query_instance, instance, advice, challenges, before, after),
    ensures
        before.is_prefix_of(after),
        squeezed(after.skip(before.len() as int)).len() == 5,
        all_take(
            Seq::empty(),
            after.skip(before.len() as int),
            challenges,
            pk.vk.domain.n as nat,
        ),
{
    let record = choose|record: ProofRecord<F>|
        {
            &&& #[trigger] protocol::proof_recorded(pk, query_instance, instance, advice, record)
            &&& after == before + protocol::proof_steps(
                pk,
                query_instance,
                instance,
                advice,
                challenges,
                record,
            )
        };
    let none = Seq::<Step<F, P>>::empty();
    let n = pk.vk.domain.n as nat;
    let steps = after.skip(before.len() as int);
    let q = protocol::quotient_steps::<F, P>(pk, instance, advice, challenges, record.quotient);
    let r = protocol::evaluation_steps::<F, P>(
        &pk.vk.cs,
        query_instance,
        instance.len(),
        record.evaluation,
    ) + protocol::opening_steps::<F, P>(instance.len(), record.evaluation.x, record.opening);
    lemma_quotient_takes::<F, P>(pk, instance, advice, challenges, record.quotient, n);
    lemma_rest_takes::<F, P>(
        pk,
        query_instance,
        instance.len(),
        q,
        squeezed(q),
        challenges,
        record.evaluation,
        record.opening,
    );
    assert(none + q =~= q);
    lemma_take_concat(none, q, r, challenges, n);
    assert(steps =~= q + r);
}

/// Where a step stands among the steps of a proof: the stage that it belongs to, then
/// the circuit, then the argument of the circuit. Challenges stand anywhere.
pub open spec fn place<F, P>(step: Step<F, P>) -> (int, int, int) {
    match step {
        Step::LookupPermuted { slot, .. } => (1, slot.circuit, slot.lookup),
        Step::PermutationCommitted { slot, .. } => (2, slot.circuit, slot.lookup),
        Step::LookupCommitted { slot, .. } => (3, slot.circuit, slot.lookup),
        Step::VanishingCommitted => (4, 0, 0),
        Step::Quotient { .. } => (5, 0, 0),
        Step::VanishingConstructed { .. } => (6, 0, 0),
        Step::WriteScalar(_) => (7, 0, 0),
        Step::VanishingEvaluated { .. } => (8, 0, 0),
        Step::CommonPermutationEvaluated { .. } => (9, 0, 0),
        Step::PermutationEvaluated { slot, .. } => (10, slot.circuit, slot.lookup),
        Step::LookupEvaluated { slot, .. } => (11, slot.circuit, slot.lookup),
        Step::PermutationOpened { slot, .. } => (12, slot.circuit, slot.lookup - 1),
        Step::LookupOpened { slot, .. } => (12, slot.circuit, slot.lookup),
        Step::CommonPermutationOpened { .. } => (13, 0, 0),
        Step::VanishingOpened { .. } => (14, 0, 0),
        Step::MultiOpen { .. } => (15, 0, 0),
        _ => (0, 0, 0),
    }
}

/// One place is before another.
pub open spec fn is_before(a: (int, int, int), b: (int, int, int)) -> bool {
    ||| a.0 < b.0
    ||| a.0 == b.0 && a.1 < b.1
    ||| a.0 == b.0 && a.1 == b.1 && a.2 < b.2
}

/// The first of two steps may come before the second.
pub open spec fn may_precede<F, P>(a: Step<F, P>, b: Step<F, P>) -> bool {
    ||| a is Squeeze || b is Squeeze
    ||| a is WriteScalar && b is WriteScalar
    ||| is_before(place(a), place(b))
}

/// The steps stand in order. No two of them stand in the same place, unless they
/// write scalars.
#[verifier::opaque]
pub open spec fn in_order<F, P>(steps: Seq<Step<F, P>>) -> bool {
    forall|k: int, m: int|
        0 <= k < m < steps.len() ==> may_precede(#[trigger] steps[k], #[trigger] steps[m])
}

/// The argument that the step is about is there.
pub open spec fn has_slot<F, P>(step: Step<F, P>, circuits: nat, lookups: nat) -> bool {
    match step {
        Step::LookupPermuted { slot, .. } => 0 <= slot.circuit < circuits && 0 <= slot.lookup
            < lookups,
        Step::PermutationCommitted { slot, .. } => 0 <= slot.circuit < circuits && slot.lookup
            == 0,
        Step::LookupCommitted { slot, .. } => 0 <= slot.circuit < circuits && 0 <= slot.lookup
            < lookups,
        Step::PermutationEvaluated { slot, .. } => 0 <= slot.circuit < circuits && slot.lookup
            == 0,
        Step::LookupEvaluated { slot, .. } => 0 <= slot.circuit < circuits && 0 <= slot.lookup
            < lookups,
        Step::PermutationOpened { slot, .. } => 0 <= slot.circuit < circuits && slot.lookup == 0,
        Step::LookupOpened { slot, .. } => 0 <= slot.circuit < circuits && 0 <= slot.lookup
            < lookups,
        _ => true,
    }
}

/// The step belongs to one of the stages from `low` to `high`, or squeezes a challenge.
pub open spec fn in_stages<F, P>(low: int, high: int) -> spec_fn(Step<F, P>) -> bool {
    |s: Step<F, P>| s is Squeeze || low <= place(s).0 <= high
}

/// The step belongs to a stage, and to one of the first circuits.
pub open spec fn of_circuits<F, P>(stage: int, circuits: int) -> spec_fn(Step<F, P>) -> bool {
    |s: Step<F, P>| place(s).0 == stage && 0 <= place(s).1 < circuits
}

/// The step belongs to a stage, and to this circuit.
pub open spec fn of_circuit<F, P>(stage: int, circuit: int) -> spec_fn(Step<F, P>) -> bool {
    |s: Step<F, P>| place(s).0 == stage && place(s).1 == circuit
}

proof fn lemma_stages_in_order<F, P>(
    a: Seq<Step<F, P>>,
    b: Seq<Step<F, P>>,
    low: int,
    middle: int,
    high: int,
)
    requires
        low <= middle < high,
        in_order(a),
        in_order(b),
        all(a, in_stages(low, middle)),
        all(b, in_stages(middle + 1, high)),
    ensures
        in_order(a + b),
        all(a + b, in_stages(low, high)),
{
    reveal(in_order);
    let ab = a + b;
    let (la, lb) = (in_stages::<F, P>(low, middle), in_stages::<F, P>(middle + 1, high));
    assert forall|k: int| 0 <= k < ab.len() implies in_stages::<F, P>(low, high)(
        #[trigger] ab[k],
    ) by {
        if k < a.len() {
            assert(la(a[k]));
        } else {
            assert(lb(b[k - a.len()]));
        }
    }
    assert forall|k: int, m: int| 0 <= k < m < ab.len() implies may_precede(
        #[trigger] ab[k],
        #[trigger] ab[m],
    ) by {
        if m < a.len() {
            assert(ab[k] == a[k] && ab[m] == a[m]);
        } else if k >= a.len() {
            assert(ab[k] == b[k - a.len()] && ab[m] == b[m - a.len()]);
        } else {
            assert(la(a[k]));
            assert(lb(b[m - a.len()]));
        }
    }
}

proof fn lemma_circuits_in_order<F, P>(
    count: nat,
    f: spec_fn(int) -> Seq<Step<F, P>>,
    stage: int,
)
    requires
        forall|i: int|
            0 <= i < count ==> in_order(#[trigger] f(i)) && all(f(i), of_circuit(stage, i)),
    ensures
        in_order(protocol::for_circuits(count, f)),
        all(protocol::for_circuits(count, f), of_circuits(stage, count as int)),
        all(protocol::for_circuits(count, f), in_stages(stage, stage)),
    decreases count,
{
    reveal(in_order);
    if count > 0 {
        let n = count - 1;
        let (a, b) = (protocol::for_circuits(n as nat, f), f(n));
        lemma_circuits_in_order(n as nat, f, stage);
        let ab = a + b;
        let (la, lb) = (of_circuits::<F, P>(stage, n), of_circuit::<F, P>(stage, n));
        assert(in_order(b) && all(b, lb));
        assert forall|k: int| 0 <= k < ab.len() implies of_circuits::<F, P>(stage, n + 1)(
            #[trigger] ab[k],
        ) && in_stages::<F, P>(stage, stage)(ab[k]) by {
            if k < a.len() {
                assert(la(a[k]));
            } else {
                assert(lb(b[k - a.len()]));
            }
        }
        assert forall|k: int, m: int| 0 <= k < m < ab.len() implies may_precede(
            #[trigger] ab[k],
            #[trigger] ab[m],
        ) by {
            if m < a.len() {
                assert(ab[k] == a[k] && ab[m] == a[m]);
            } else if k >= a.len() {
                assert(ab[k] == b[k - a.len()] && ab[m] == b[m - a.len()]);
            } else {
                assert(la(a[k]));
                assert(lb(b[m - a.len()]));
            }
        }
    }
}

proof fn lemma_writes_in_order<F, P>(steps: Seq<Step<F, P>>)
    requires
        forall|k: int| 0 <= k < steps.len() ==> (#[trigger] steps[k]) is WriteScalar,
    ensures
        in_order(steps),
        all(steps, in_stages(7, 7)),
{
    reveal(in_order);
    assert forall|k: int, m: int| 0 <= k < m < steps.len() implies may_precede(
        #[trigger] steps[k],
        #[trigger] steps[m],
    ) by {
        assert(steps[k] is WriteScalar && steps[m] is WriteScalar);
    }
}

/// One step for every lookup of every circuit, in order.
proof fn lemma_lookups_in_order<F, P>(
    count: nat,
    lookups: nat,
    f: spec_fn(int) -> Seq<Step<F, P>>,
    stage: int,
)
    requires
        forall|i: int, j: int|
            0 <= i < count && 0 <= j < lookups ==> place(#[trigger] f(i)[j]) == (stage, i, j),
        forall|i: int| 0 <= i < count ==> (#[trigger] f(i)).len() == lookups,
    ensures
        in_order(protocol::for_circuits(count, f)),
        all(protocol::for_circuits(count, f), in_stages(stage, stage)),
{
    assert forall|i: int| 0 <= i < count implies in_order(#[trigger] f(i)) && all(
        f(i),
        of_circuit(stage, i),
    ) by {
        reveal(in_order);
        let part = f(i);
        assert forall|k: int, m: int| 0 <= k < m < part.len() implies may_precede(
            #[trigger] part[k],
            #[trigger] part[m],
        ) by {
            assert(place(f(i)[k]) == (stage, i, k) && place(f(i)[m]) == (stage, i, m));
        }
        assert forall|k: int| 0 <= k < part.len() implies of_circuit::<F, P>(stage, i)(
            #[trigger] part[k],
        ) by {
            assert(place(f(i)[k]) == (stage, i, k));
        }
    }
    lemma_circuits_in_order(count, f, stage);
}

/// One step for every circuit, in order.
proof fn lemma_permutations_in_order<F, P>(steps: Seq<Step<F, P>>, stage: int)
    requires
        forall|i: int| 0 <= i < steps.len() ==> place(#[trigger] steps[i]) == (stage, i, 0int),
    ensures
        in_order(steps),
        all(steps, in_stages(stage, stage)),
{
    reveal(in_order);
    assert forall|k: int, m: int| 0 <= k < m < steps.len() implies may_precede(
        #[trigger] steps[k],
        #[trigger] steps[m],
    ) by {
        assert(place(steps[k]) == (stage, k, 0int) && place(steps[m]) == (stage, m, 0int));
    }
}

proof fn lemma_single_in_order<F, P>(step: Step<F, P>, stage: int)
    requires
        step is Squeeze || place(step).0 == stage,
    ensures
        in_order(seq![step]),
        all(seq![step], in_stages(stage, stage)),
{
    reveal(in_order);
}

/// Challenges may stand anywhere.
proof fn lemma_squeezes_in_order<F, P>(
    a: Seq<Step<F, P>>,
    b: Seq<Step<F, P>>,
    low: int,
    high: int,
)
    requires
        in_order(a),
        all(a, in_stages(low, high)),
        forall|k: int| 0 <= k < b.len() ==> (#[trigger] b[k]) is Squeeze,
    ensures
        in_order(a + b),
        all(a + b, in_stages(low, high)),
{
    reveal(in_order);
    let ab = a + b;
    let la = in_stages::<F, P>(low, high);
    assert forall|k: int| 0 <= k < ab.len() implies la(#[trigger] ab[k]) by {
        if k < a.len() {
            assert(la(a[k]));
        } else {
            assert(b[k - a.len()] is Squeeze);
        }
    }
    assert forall|k: int, m: int| 0 <= k < m < ab.len() implies may_precede(
        #[trigger] ab[k],
        #[trigger] ab[m],
    ) by {
        if m < a.len() {
            assert(ab[k] == a[k] && ab[m] == a[m]);
        } else {
            assert(b[m - a.len()] is Squeeze);
        }
    }
}

proof fn lemma_quotient_in_order<F: Field, P>(
    pk: &ProvingKey<F>,
    instance: Seq<InstanceSingle<F>>,
    advice: Seq<AdviceCommitted<F, LagrangeCoeff>>,
    challenges: Seq<F>,
    record: QuotientRecord<F>,
)
    ensures
        in_order(protocol::quotient_steps::<F, P>(pk, instance, advice, challenges, record)),
        all(
            protocol::quotient_steps::<F, P>(pk, instance, advice, challenges, record),
            in_stages(0, 6),
        ),
{
    let count = instance.len();
    let lookups = pk.vk.cs.num_lookups as nat;
    let s1 = seq![Step::<F, P>::Squeeze(record.theta)];
    let f = protocol::permuted_steps::<F, P>(pk, record.theta, instance, advice, challenges);
    let s2 = protocol::for_circuits(count, f);
    let s3 = seq![Step::<F, P>::Squeeze(record.beta), Step::<F, P>::Squeeze(record.gamma)];
    let s4 = protocol::permutation_steps::<F, P>(
        pk,
        instance,
        advice,
        record.beta,
        record.gamma,
    );
    let g = protocol::product_steps::<F, P>(&pk.vk.cs, record.beta, record.gamma);
    let s5 = protocol::for_circuits(count, g);
    let v = protocol::vanishing_steps::<F, P>(pk, instance, challenges, record);
    let (v0, v1, v2, v3) = (seq![v[0]], seq![v[1]], seq![v[2]], seq![v[3]]);
    lemma_single_in_order(s1[0], 0);
    lemma_lookups_in_order(count, lookups, f, 1);
    lemma_stages_in_order(s1, s2, 0, 0, 1);
    lemma_squeezes_in_order(s1 + s2, s3, 0, 1);
    lemma_permutations_in_order(s4, 2);
    lemma_stages_in_order(s1 + s2 + s3, s4, 0, 1, 2);
    lemma_lookups_in_order(count, lookups, g, 3);
    lemma_stages_in_order(s1 + s2 + s3 + s4, s5, 0, 2, 3);
    let a = s1 + s2 + s3 + s4 + s5;
    lemma_single_in_order(v[0], 4);
    lemma_stages_in_order(a, v0, 0, 3, 4);
    lemma_squeezes_in_order(a + v0, v1, 0, 4);
    lemma_single_in_order(v[2], 5);
    lemma_stages_in_order(a + v0 + v1, v2, 0, 4, 5);
    lemma_single_in_order(v[3], 6);
    lemma_stages_in_order(a + v0 + v1 + v2, v3, 0, 5, 6);
    assert(protocol::quotient_steps::<F, P>(pk, instance, advice, challenges, record) =~= a + v0
        + v1 + v2 + v3);
}

proof fn lemma_all_writes<F, P>(count: nat, evals: Seq<Seq<F>>)
    ensures
        forall|k: int|
            0 <= k < protocol::for_circuits(count, protocol::eval_steps::<F, P>(evals)).len() ==> (
            #[trigger] protocol::for_circuits(
                count,
                protocol::eval_steps::<F, P>(evals),
            )[k]) is WriteScalar,
{
    let like = |s: Step<F, P>| s is WriteScalar;
    lemma_all_circuits(count, protocol::eval_steps::<F, P>(evals), like);
    let steps = protocol::for_circuits(count, protocol::eval_steps::<F, P>(evals));
    assert forall|k: int| 0 <= k < steps.len() implies (#[trigger] steps[k]) is WriteScalar by {
        assert(like(steps[k]));
    }
}

/// The evaluations that are written for columns.
pub(crate) open spec fn column_writes<F, P>(
    query_instance: bool,
    circuits: nat,
    record: EvaluationRecord<F>,
) -> Seq<Step<F, P>> {
    (if query_instance {
        protocol::for_circuits(circuits, protocol::eval_steps(record.instance_evals))
    } else {
        Seq::empty()
    }) + protocol::for_circuits(circuits, protocol::eval_steps(record.advice_evals))
        + protocol::write_scalar_steps(record.fixed_evals)
}

proof fn lemma_evaluation_in_order<F: Field, P>(
    pk: &ProvingKey<F>,
    query_instance: bool,
    circuits: nat,
    record: EvaluationRecord<F>,
)
    ensures
        in_order(
            protocol::evaluation_steps::<F, P>(&pk.vk.cs, query_instance, circuits, record),
        ),
        all(
            protocol::evaluation_steps::<F, P>(&pk.vk.cs, query_instance, circuits, record),
            in_stages(7, 11),
        ),
{
    let x = record.x;
    let s1 = seq![Step::<F, P>::Squeeze(x)];
    let w = column_writes::<F, P>(query_instance, circuits, record);
    lemma_all_writes::<F, P>(circuits, record.instance_evals);
    lemma_all_writes::<F, P>(circuits, record.advice_evals);
    assert forall|k: int| 0 <= k < w.len() implies (#[trigger] w[k]) is WriteScalar by {}
    lemma_writes_in_order(w);
    let none = Seq::<Step<F, P>>::empty();
    assert(in_order(none)) by {
        reveal(in_order);
    }
    lemma_single_in_order(s1[0], 6);
    lemma_stages_in_order(s1, w, 6, 6, 7);
    let e1 = seq![Step::<F, P>::VanishingEvaluated { x, xn: record.xn }];
    let e2 = seq![Step::<F, P>::CommonPermutationEvaluated { x }];
    let e3 = protocol::permutation_eval_steps::<F, P>(circuits, x);
    let f = protocol::lookup_eval_steps::<F, P>(&pk.vk.cs, x);
    let e4 = protocol::for_circuits(circuits, f);
    assert(all(s1 + w, in_stages(7, 7))) by {
        let like = in_stages::<F, P>(7, 7);
        assert forall|k: int| 0 <= k < (s1 + w).len() implies like(#[trigger] (s1 + w)[k]) by {
            if k > 0 {
                assert(like(w[k - 1]));
            }
        }
    }
    lemma_single_in_order(e1[0], 8);
    lemma_stages_in_order(s1 + w, e1, 7, 7, 8);
    lemma_single_in_order(e2[0], 9);
    lemma_stages_in_order(s1 + w + e1, e2, 7, 8, 9);
    lemma_permutations_in_order(e3, 10);
    lemma_stages_in_order(s1 + w + e1 + e2, e3, 7, 9, 10);
    lemma_lookups_in_order(circuits, pk.vk.cs.num_lookups as nat, f, 11);
    lemma_stages_in_order(s1 + w + e1 + e2 + e3, e4, 7, 10, 11);
    assert(protocol::evaluation_steps::<F, P>(&pk.vk.cs, query_instance, circuits, record) =~= s1
        + w + e1 + e2 + e3 + e4);
}

proof fn lemma_opening_in_order<F: Field, P>(circuits: nat, x: F, record: OpeningRecord<F>)
    ensures
        in_order(protocol::opening_steps::<F, P>(circuits, x, record)),
        all(protocol::opening_steps::<F, P>(circuits, x, record), in_stages(12, 15)),
{
    let f = protocol::open_steps::<F, P>(record.circuits, x);
    assert forall|i: int| 0 <= i < circuits implies in_order(#[trigger] f(i)) && all(
        f(i),
        of_circuit(12, i),
    ) by {
        reveal(in_order);
        let part = f(i);
        let lookups = protocol::lookup_open_steps::<F, P>(i, record.circuits[i].lookups, x);
        assert forall|k: int| 0 <= k < part.len() implies place(#[trigger] part[k]) == (
            12int,
            i,
            k - 1,
        ) by {
            if k > 0 {
                assert(part[k] == lookups[k - 1]);
            }
        }
        assert forall|k: int, m: int| 0 <= k < m < part.len() implies may_precede(
            #[trigger] part[k],
            #[trigger] part[m],
        ) by {
            assert(place(part[k]) == (12int, i, k - 1) && place(part[m]) == (12int, i, m - 1));
        }
        assert forall|k: int| 0 <= k < part.len() implies of_circuit::<F, P>(12, i)(
            #[trigger] part[k],
        ) by {
            assert(place(part[k]) == (12int, i, k - 1));
        }
    }
    lemma_circuits_in_order(circuits, f, 12);
    let a = protocol::for_circuits(circuits, f);
    let e1 = seq![Step::<F, P>::CommonPermutationOpened { x, queries: record.common }];
    let e2 = seq![Step::<F, P>::VanishingOpened { x, queries: record.vanishing }];
    let e3 = seq![Step::<F, P>::MultiOpen { queries: protocol::proof_queries(record) }];
    lemma_single_in_order(e1[0], 13);
    lemma_stages_in_order(a, e1, 12, 12, 13);
    lemma_single_in_order(e2[0], 14);
    lemma_stages_in_order(a + e1, e2, 12, 13, 14);
    lemma_single_in_order(e3[0], 15);
    lemma_stages_in_order(a + e1 + e2, e3, 12, 14, 15);
    assert(protocol::opening_steps::<F, P>(circuits, x, record) =~= a + e1 + e2 + e3);
}

/// The steps of a proof stand in order: see [`place`].
pub proof fn lemma_order_of_a_proof<F: Field, P>(
    pk: &ProvingKey<F>,
    query_instance: bool,
    instance: Seq<InstanceSingle<F>>,
    advice: Seq<AdviceCommitted<F, LagrangeCoeff>>,
    challenges: Seq<F>,
    before: Seq<Step<F, P>>,
    after: Seq<Step<F, P>>,
)
    requires
        protocol::is_proof(pk, query_instance, instance, advice, challenges, before, after),
    ensures
        before.is_prefix_of(after),
        in_order(after.skip(before.len() as int)),
{
    let record = choose|record: ProofRecord<F>|
        {
            &&& #[trigger] protocol::proof_recorded(pk, query_instance, instance, advice, record)
            &&& after == before + protocol::proof_steps(
                pk,
                query_instance,
                instance,
                advice,
                challenges,
                record,
            )
        };
    let count = instance.len();
    let q = protocol::quotient_steps::<F, P>(pk, instance, advice, challenges, record.quotient);
    let e = protocol::evaluation_steps::<F, P>(
        &pk.vk.cs,
        query_instance,
        count,
        record.evaluation,
    );
    let o = protocol::opening_steps::<F, P>(count, record.evaluation.x, record.opening);
    lemma_quotient_in_order::<F, P>(pk, instance, advice, challenges, record.quotient);
    lemma_evaluation_in_order::<F, P>(pk, query_instance, count, record.evaluation);
    lemma_opening_in_order::<F, P>(count, record.evaluation.x, record.opening);
    lemma_stages_in_order(q, e, 0, 6, 11);
    lemma_stages_in_order(q + e, o, 0, 11, 15);
    assert(after.skip(before.len() as int) =~= q + e + o);
}

/// What holds of every step of each part holds of every step of a proof.
proof fn lemma_all_of_proof<F: Field, P>(
    pk: &ProvingKey<F>,
    query_instance: bool,
    instance: Seq<InstanceSingle<F>>,
    advice: Seq<AdviceCommitted<F, LagrangeCoeff>>,
    challenges: Seq<F>,
    record: ProofRecord<F>,
    like: spec_fn(Step<F, P>) -> bool,
)
    requires
        forall|step: Step<F, P>|
            step is Squeeze || step is WriteScalar ==> #[trigger] like(step),
        ({
            let q = record.quotient;
            let e = record.evaluation;
            let o = record.opening;
            let count = instance.len();
            &&& forall|i: int|
                0 <= i < count ==> all(
                    #[trigger] protocol::permuted_steps::<F, P>(
                        pk,
                        q.theta,
                        instance,
                        advice,
                        challenges,
                    )(i),
                    like,
                )
            &&& all(
                protocol::permutation_steps::<F, P>(pk, instance, advice, q.beta, q.gamma),
                like,
            )
            &&& forall|i: int|
                0 <= i < count ==> all(
                    #[trigger] protocol::product_steps::<F, P>(&pk.vk.cs, q.beta, q.gamma)(i),
                    like,
                )
            &&& all(protocol::vanishing_steps::<F, P>(pk, instance, challenges, q), like)
            &&& like(Step::VanishingEvaluated { x: e.x, xn: e.xn })
            &&& like(Step::CommonPermutationEvaluated { x: e.x })
            &&& all(protocol::permutation_eval_steps::<F, P>(count, e.x), like)
            &&& forall|i: int|
                0 <= i < count ==> all(
                    #[trigger] protocol::lookup_eval_steps::<F, P>(&pk.vk.cs, e.x)(i),
                    like,
                )
            &&& forall|i: int|
                0 <= i < count ==> all(
                    #[trigger] protocol::open_steps::<F, P>(o.circuits, e.x)(i),
                    like,
                )
            &&& like(Step::CommonPermutationOpened { x: e.x, queries: o.common })
            &&& like(Step::VanishingOpened { x: e.x, queries: o.vanishing })
            &&& like(Step::MultiOpen { queries: protocol::proof_queries(o) })
        }),
    ensures
        all(
            protocol::proof_steps::<F, P>(
                pk,
                query_instance,
                instance,
                advice,
                challenges,
                record,
            ),
            like,
        ),
{
    let (q, e, o) = (record.quotient, record.evaluation, record.opening);
    let count = instance.len();
    let s1 = seq![Step::<F, P>::Squeeze(q.theta)];
    let f = protocol::permuted_steps::<F, P>(pk, q.theta, instance, advice, challenges);
    let s2 = protocol::for_circuits(count, f);
    let s3 = seq![Step::<F, P>::Squeeze(q.beta), Step::<F, P>::Squeeze(q.gamma)];
    let s4 = protocol::permutation_steps::<F, P>(pk, instance, advice, q.beta, q.gamma);
    let g = protocol::product_steps::<F, P>(&pk.vk.cs, q.beta, q.gamma);
    let s5 = protocol::for_circuits(count, g);
    let s6 = protocol::vanishing_steps::<F, P>(pk, instance, challenges, q);
    lemma_all_circuits(count, f, like);
    lemma_all_circuits(count, g, like);
    lemma_all_concat(s1, s2, like);
    lemma_all_concat(s1 + s2, s3, like);
    lemma_all_concat(s1 + s2 + s3, s4, like);
    lemma_all_concat(s1 + s2 + s3 + s4, s5, like);
    lemma_all_concat(s1 + s2 + s3 + s4 + s5, s6, like);
    let s = s1 + s2 + s3 + s4 + s5 + s6;
    let t1 = seq![Step::<F, P>::Squeeze(e.x)];
    let t2 = column_writes::<F, P>(query_instance, count, e);
    lemma_all_writes::<F, P>(count, e.instance_evals);
    lemma_all_writes::<F, P>(count, e.advice_evals);
    assert forall|k: int| 0 <= k < t2.len() implies like(#[trigger] t2[k]) by {
        assert(t2[k] is WriteScalar);
    }
    let t3 = seq![
        Step::<F, P>::VanishingEvaluated { x: e.x, xn: e.xn },
        Step::<F, P>::CommonPermutationEvaluated { x: e.x },
    ];
    let t4 = protocol::permutation_eval_steps::<F, P>(count, e.x);
    let h = protocol::lookup_eval_steps::<F, P>(&pk.vk.cs, e.x);
    let t5 = protocol::for_circuits(count, h);
    lemma_all_circuits(count, h, like);
    lemma_all_concat(t1, t2, like);
    lemma_all_concat(t1 + t2, t3, like);
    lemma_all_concat(t1 + t2 + t3, t4, like);
    lemma_all_concat(t1 + t2 + t3 + t4, t5, like);
    let t = t1 + t2 + t3 + t4 + t5;
    let l = protocol::open_steps::<F, P>(o.circuits, e.x);
    let u1 = protocol::for_circuits(count, l);
    let u2 = seq![
        Step::<F, P>::CommonPermutationOpened { x: e.x, queries: o.common },
        Step::<F, P>::VanishingOpened { x: e.x, queries: o.vanishing },
        Step::<F, P>::MultiOpen { queries: protocol::proof_queries(o) },
    ];
    lemma_all_circuits(count, l, like);
    lemma_all_concat(u1, u2, like);
    lemma_all_concat(s, t, like);
    lemma_all_concat(s + t, u1 + u2, like);
    assert(protocol::proof_steps::<F, P>(
        pk,
        query_instance,
        instance,
        advice,
        challenges,
        record,
    ) =~= s + t + (u1 + u2));
}

/// The lists hold the values of the polynomials, one for one.
pub open spec fn are_values<F, B>(lists: Seq<Seq<F>>, polys: Seq<Polynomial<F, B>>) -> bool {
    &&& lists.len() == polys.len()
    &&& forall|c: int| 0 <= c < polys.len() ==> #[trigger] lists[c] == polys[c]@
}

/// The coefficients belong to the polynomials that take the values of the columns on
/// the domain: the `r`-th value at the `r`-th power of the root.
pub open spec fn take_values<F: Field>(
    domain: &EvaluationDomain<F>,
    coeffs: Seq<Seq<F>>,
    columns: Seq<Polynomial<F, LagrangeCoeff>>,
) -> bool {
    &&& coeffs.len() == columns.len()
    &&& forall|c: int, r: int|
        0 <= c < columns.len() && 0 <= r < columns[c]@.len() ==> arithmetic::eval(
            field::values_of(coeffs[c]),
            power::pow(domain.omega.value(), r as nat),
        ) % F::modulus() == (#[trigger] columns[c]@[r]).value()
    &&& forall|c: int|
        0 <= c < columns.len() ==> (#[trigger] coeffs[c]).len() == columns[c]@.len()
}

/// The step is about the columns of the circuit that it names: its arguments are run
/// on the advice and instance columns of that circuit and on the fixed columns, and
/// the quotient on the coefficients of all of them and on the arguments of all
/// circuits. `h` is the quotient.
pub open spec fn is_about<F: Field, P>(
    pk: &ProvingKey<F>,
    instance: Seq<InstanceSingle<F>>,
    advice: Seq<AdviceCommitted<F, LagrangeCoeff>>,
    h: Seq<F>,
    step: Step<F, P>,
) -> bool {
    match step {
        Step::LookupPermuted { slot, advice: a, fixed, instance: i, .. } => {
            &&& are_values(a, advice[slot.circuit].advice_polys@)
            &&& are_values(fixed, pk.fixed_values@)
            &&& are_values(i, instance[slot.circuit].instance_values@)
        },
        Step::PermutationCommitted { slot, advice: a, fixed, instance: i, .. } => {
            &&& are_values(a, advice[slot.circuit].advice_polys@)
            &&& are_values(fixed, pk.fixed_values@)
            &&& are_values(i, instance[slot.circuit].instance_values@)
        },
        Step::Quotient { advice_polys, instance_polys, lookups, permutations, h: quotient, .. } => {
            &&& quotient == h
            &&& advice_polys.len() == advice.len()
            &&& instance_polys.len() == instance.len()
            &&& lookups.len() == instance.len()
            &&& permutations.len() == instance.len()
            &&& forall|i: int|
                0 <= i < advice.len() ==> take_values(
                    &pk.vk.domain,
                    #[trigger] advice_polys[i],
                    advice[i].advice_polys@,
                )
            &&& forall|i: int|
                0 <= i < instance.len() ==> are_values(
                    #[trigger] instance_polys[i],
                    instance[i].instance_polys@,
                )
            &&& forall|i: int|
                0 <= i < permutations.len() ==> #[trigger] permutations[i] == (Slot {
                    circuit: i,
                    lookup: 0,
                })
            &&& forall|i: int|
                0 <= i < lookups.len() ==> (#[trigger] lookups[i]).len() == pk.vk.cs.num_lookups
            &&& forall|i: int, j: int|
                0 <= i < lookups.len() && 0 <= j < lookups[i].len() ==> #[trigger] lookups[i][j]
                    == (Slot { circuit: i, lookup: j })
        },
        Step::VanishingConstructed { h: quotient } => quotient == h,
        _ => true,
    }
}

/// A step is about its circuit, which is there.
pub open spec fn about<F: Field, P>(
    pk: &ProvingKey<F>,
    instance: Seq<InstanceSingle<F>>,
    advice: Seq<AdviceCommitted<F, LagrangeCoeff>>,
    h: Seq<F>,
) -> spec_fn(Step<F, P>) -> bool {
    |s: Step<F, P>|
        {
            &&& is_about(pk, instance, advice, h, s)
            &&& has_slot(s, instance.len(), pk.vk.cs.num_lookups as nat)
        }
}

proof fn lemma_steps_are_about<F: Field, P>(
    pk: &ProvingKey<F>,
    query_instance: bool,
    instance: Seq<InstanceSingle<F>>,
    advice: Seq<AdviceCommitted<F, LagrangeCoeff>>,
    challenges: Seq<F>,
    record: ProofRecord<F>,
)
    requires
        advice.len() == instance.len(),
        protocol::proof_recorded(pk, query_instance, instance, advice, record),
    ensures
        all(
            protocol::proof_steps::<F, P>(
                pk,
                query_instance,
                instance,
                advice,
                challenges,
                record,
            ),
            about(pk, instance, advice, record.quotient.h),
        ),
{
    let (q, e, o) = (record.quotient, record.evaluation, record.opening);
    let like = about::<F, P>(pk, instance, advice, q.h);
    let count = instance.len();
    let v = protocol::vanishing_steps::<F, P>(pk, instance, challenges, q);
    assert forall|k: int| 0 <= k < v.len() implies like(#[trigger] v[k]) by {
        if k == 2 {
            lemma_quotient_is_about::<F, P>(pk, instance, advice, challenges, q);
        }
    }
    let l = protocol::open_steps::<F, P>(o.circuits, e.x);
    assert forall|i: int| 0 <= i < count implies all(#[trigger] l(i), like) by {
        let part = l(i);
        assert(protocol::circuit_opened(
            pk,
            query_instance,
            protocol::instance_polys_of(instance)[i],
            q.advice_polys[i],
            protocol::all_blinds_of(advice)[i],
            e.x,
            o.circuits[i],
        ));
        let lookups = protocol::lookup_open_steps::<F, P>(i, o.circuits[i].lookups, e.x);
        assert forall|k: int| 0 <= k < part.len() implies like(#[trigger] part[k]) by {
            if k > 0 {
                assert(part[k] == lookups[k - 1]);
            }
        }
    }
    lemma_all_of_proof::<F, P>(
        pk,
        query_instance,
        instance,
        advice,
        challenges,
        record,
        like,
    );
}

proof fn lemma_quotient_is_about<F: Field, P>(
    pk: &ProvingKey<F>,
    instance: Seq<InstanceSingle<F>>,
    advice: Seq<AdviceCommitted<F, LagrangeCoeff>>,
    challenges: Seq<F>,
    q: QuotientRecord<F>,
)
    requires
        advice.len() == instance.len(),
        protocol::advice_interpolated(&pk.vk.domain, advice, q.advice_polys),
    ensures
        is_about(
            pk,
            instance,
            advice,
            q.h,
            protocol::vanishing_steps::<F, P>(pk, instance, challenges, q)[2],
        ),
{
    assert forall|i: int| 0 <= i < advice.len() implies take_values(
        &pk.vk.domain,
        #[trigger] q.advice_polys[i],
        advice[i].advice_polys@,
    ) by {
        let columns = advice[i].advice_polys@;
        let values = channel::values_of(columns);
        assert(protocol::column_polys_interpolate(&pk.vk.domain, values, q.advice_polys[i]));
        assert forall|c: int, r: int|
            0 <= c < columns.len() && 0 <= r < columns[c]@.len() implies arithmetic::eval(
            field::values_of(q.advice_polys[i][c]),
            power::pow(pk.vk.domain.omega.value(), r as nat),
        ) % F::modulus() == (#[trigger] columns[c]@[r]).value() by {
            assert(values[c] == columns[c]@);
            assert(domain::interpolates(
                field::values_of(q.advice_polys[i][c]),
                field::values_of(values[c]),
                pk.vk.domain.omega.value(),
                F::modulus(),
            ));
            assert(field::values_of(values[c])[r] == columns[c]@[r].value());
        }
        assert forall|c: int| 0 <= c < columns.len() implies (
        #[trigger] q.advice_polys[i][c]).len() == columns[c]@.len() by {
            assert(values[c] == columns[c]@);
            assert(field::values_of(q.advice_polys[i][c]).len() == q.advice_polys[i][c].len());
            assert(field::values_of(values[c]).len() == values[c].len());
        }
    }
}

/// Some step stands in this place.
pub open spec fn has_place<F, P>(steps: Seq<Step<F, P>>, p: (int, int, int)) -> bool {
    exists|k: int| 0 <= k < steps.len() && place(#[trigger] steps[k]) == p
}

/// A proof for so many circuits with so many lookups each calls for a step in this
/// place: one in each stage that is about all circuits, and one for each argument in
/// each of the others.
pub open spec fn is_called_for(p: (int, int, int), circuits: int, lookups: int) -> bool {
    let (stage, circuit, argument) = p;
    if stage == 1 || stage == 3 || stage == 11 {
        0 <= circuit < circuits && 0 <= argument < lookups
    } else if stage == 2 || stage == 10 {
        0 <= circuit < circuits && argument == 0
    } else if stage == 12 {
        0 <= circuit < circuits && -1 <= argument < lookups
    } else {
        &&& stage == 4 || stage == 5 || stage == 6 || stage == 8 || stage == 9 || 13 <= stage <= 15
        &&& circuit == 0
        &&& argument == 0
    }
}

proof fn lemma_has_concat<F, P>(a: Seq<Step<F, P>>, b: Seq<Step<F, P>>, p: (int, int, int))
    requires
        has_place(a, p) || has_place(b, p),
    ensures
        has_place(a + b, p),
{
    if has_place(a, p) {
        let k = choose|k: int| 0 <= k < a.len() && place(#[trigger] a[k]) == p;
        assert((a + b)[k] == a[k]);
    } else {
        let k = choose|k: int| 0 <= k < b.len() && place(#[trigger] b[k]) == p;
        assert((a + b)[a.len() + k] == b[k]);
    }
}

proof fn lemma_has_circuit<F, P>(
    count: nat,
    f: spec_fn(int) -> Seq<Step<F, P>>,
    i: int,
    p: (int, int, int),
)
    requires
        0 <= i < count,
        has_place(f(i), p),
    ensures
        has_place(protocol::for_circuits(count, f), p),
    decreases count,
{
    if i < count - 1 {
        lemma_has_circuit((count - 1) as nat, f, i, p);
    }
    lemma_has_concat(protocol::for_circuits((count - 1) as nat, f), f(count - 1), p);
}

proof fn lemma_quotient_has<F: Field, P>(
    pk: &ProvingKey<F>,
    instance: Seq<InstanceSingle<F>>,
    advice: Seq<AdviceCommitted<F, LagrangeCoeff>>,
    challenges: Seq<F>,
    q: QuotientRecord<F>,
    p: (int, int, int),
)
    requires
        is_called_for(p, instance.len() as int, pk.vk.cs.num_lookups as int),
        p.0 <= 6,
    ensures
        has_place(
            protocol::quotient_steps::<F, P>(pk, instance, advice, challenges, q),
            p,
        ),
{
    let count = instance.len();
    let (c, j) = (p.1, p.2);
    let s1 = seq![Step::<F, P>::Squeeze(q.theta)];
    let f = protocol::permuted_steps::<F, P>(pk, q.theta, instance, advice, challenges);
    let s2 = protocol::for_circuits(count, f);
    let s3 = seq![Step::<F, P>::Squeeze(q.beta), Step::<F, P>::Squeeze(q.gamma)];
    let s4 = protocol::permutation_steps::<F, P>(pk, instance, advice, q.beta, q.gamma);
    let g = protocol::product_steps::<F, P>(&pk.vk.cs, q.beta, q.gamma);
    let s5 = protocol::for_circuits(count, g);
    let v = protocol::vanishing_steps::<F, P>(pk, instance, challenges, q);
    let a = s1 + s2 + s3 + s4 + s5;
    if p.0 == 1 {
        assert(place(f(c)[j]) == p);
        lemma_has_circuit(count, f, c, p);
        lemma_has_concat(s1, s2, p);
        lemma_has_concat(s1 + s2, s3, p);
        lemma_has_concat(s1 + s2 + s3, s4, p);
        lemma_has_concat(s1 + s2 + s3 + s4, s5, p);
    } else if p.0 == 2 {
        assert(place(s4[c]) == p);
        lemma_has_concat(s1 + s2 + s3, s4, p);
        lemma_has_concat(s1 + s2 + s3 + s4, s5, p);
    } else if p.0 == 3 {
        assert(place(g(c)[j]) == p);
        lemma_has_circuit(count, g, c, p);
        lemma_has_concat(s1 + s2 + s3 + s4, s5, p);
    } else {
        assert(place(v[0]) == (4int, 0int, 0int));
        assert(place(v[2]) == (5int, 0int, 0int));
        assert(place(v[3]) == (6int, 0int, 0int));
        assert(has_place(v, p));
    }
    lemma_has_concat(a, v, p);
}

proof fn lemma_evaluation_has<F: Field, P>(
    pk: &ProvingKey<F>,
    query_instance: bool,
    circuits: nat,
    e: EvaluationRecord<F>,
    p: (int, int, int),
)
    requires
        is_called_for(p, circuits as int, pk.vk.cs.num_lookups as int),
        8 <= p.0 <= 11,
    ensures
        has_place(
            protocol::evaluation_steps::<F, P>(&pk.vk.cs, query_instance, circuits, e),
            p,
        ),
{
    let (c, j) = (p.1, p.2);
    let w = protocol::column_eval_steps::<F, P>(query_instance, circuits, e);
    let t3 = seq![
        Step::<F, P>::VanishingEvaluated { x: e.x, xn: e.xn },
        Step::<F, P>::CommonPermutationEvaluated { x: e.x },
    ];
    let t4 = protocol::permutation_eval_steps::<F, P>(circuits, e.x);
    let h = protocol::lookup_eval_steps::<F, P>(&pk.vk.cs, e.x);
    let t5 = protocol::for_circuits(circuits, h);
    if p.0 == 10 {
        assert(place(t4[c]) == p);
        lemma_has_concat(t3, t4, p);
    } else if p.0 == 11 {
        assert(place(h(c)[j]) == p);
        lemma_has_circuit(circuits, h, c, p);
    } else {
        assert(place(t3[0]) == (8int, 0int, 0int));
        assert(place(t3[1]) == (9int, 0int, 0int));
        assert(has_place(t3, p));
        lemma_has_concat(t3, t4, p);
    }
    lemma_has_concat(t3 + t4, t5, p);
    lemma_has_concat(w, t3 + t4 + t5, p);
}

proof fn lemma_opening_has<F: Field, P>(
    pk: &ProvingKey<F>,
    circuits: nat,
    x: F,
    o: OpeningRecord<F>,
    p: (int, int, int),
)
    requires
        is_called_for(p, circuits as int, pk.vk.cs.num_lookups as int),
        12 <= p.0,
        forall|i: int|
            0 <= i < circuits ==> (#[trigger] o.circuits[i]).lookups.len()
                == pk.vk.cs.num_lookups,
    ensures
        has_place(protocol::opening_steps::<F, P>(circuits, x, o), p),
{
    let (c, j) = (p.1, p.2);
    let l = protocol::open_steps::<F, P>(o.circuits, x);
    let u1 = protocol::for_circuits(circuits, l);
    let u2 = seq![
        Step::<F, P>::CommonPermutationOpened { x, queries: o.common },
        Step::<F, P>::VanishingOpened { x, queries: o.vanishing },
        Step::<F, P>::MultiOpen { queries: protocol::proof_queries(o) },
    ];
    if p.0 == 12 {
        assert(o.circuits[c].lookups.len() == pk.vk.cs.num_lookups);
        let part = l(c);
        if j >= 0 {
            let lookups = protocol::lookup_open_steps::<F, P>(c, o.circuits[c].lookups, x);
            assert(part[j + 1] == lookups[j]);
        }
        assert(place(part[j + 1]) == p);
        lemma_has_circuit(circuits, l, c, p);
    } else {
        assert(place(u2[0]) == (13int, 0int, 0int));
        assert(place(u2[1]) == (14int, 0int, 0int));
        assert(place(u2[2]) == (15int, 0int, 0int));
        assert(has_place(u2, p));
    }
    lemma_has_concat(u1, u2, p);
}

/// Every argument of every circuit takes all its steps, and each of them is about the
/// columns of that circuit: see [`is_called_for`] and [`is_about`]. The quotient that
/// is committed to is the one that was computed.
pub proof fn lemma_arguments_of_a_proof<F: Field, P>(
    pk: &ProvingKey<F>,
    query_instance: bool,
    instance: Seq<InstanceSingle<F>>,
    advice: Seq<AdviceCommitted<F, LagrangeCoeff>>,
    challenges: Seq<F>,
    before: Seq<Step<F, P>>,
    after: Seq<Step<F, P>>,
)
    requires
        advice.len() == instance.len(),
        protocol::is_proof(pk, query_instance, instance, advice, challenges, before, after),
    ensures
        before.is_prefix_of(after),
        forall|p: (int, int, int)|
            is_called_for(p, instance.len() as int, pk.vk.cs.num_lookups as int)
                ==> #[trigger] has_place(after.skip(before.len() as int), p),
        exists|h: Seq<F>| #[trigger]
            all(after.skip(before.len() as int), about(pk, instance, advice, h)),
{
    let record = choose|record: ProofRecord<F>|
        {
            &&& #[trigger] protocol::proof_recorded(pk, query_instance, instance, advice, record)
            &&& after == before + protocol::proof_steps(
                pk,
                query_instance,
                instance,
                advice,
                challenges,
                record,
            )
        };
    let count = instance.len();
    let steps = after.skip(before.len() as int);
    let q = protocol::quotient_steps::<F, P>(pk, instance, advice, challenges, record.quotient);
    let e = protocol::evaluation_steps::<F, P>(
        &pk.vk.cs,
        query_instance,
        count,
        record.evaluation,
    );
    let o = protocol::opening_steps::<F, P>(count, record.evaluation.x, record.opening);
    assert(steps =~= q + e + o);
    assert(steps =~= protocol::proof_steps::<F, P>(
        pk,
        query_instance,
        instance,
        advice,
        challenges,
        record,
    ));
    lemma_steps_are_about::<F, P>(pk, query_instance, instance, advice, challenges, record);
    let circuits = record.opening.circuits;
    assert(protocol::instance_polys_of(instance).len() == count);
    assert forall|i: int| 0 <= i < count implies (#[trigger] circuits[i]).lookups.len()
        == pk.vk.cs.num_lookups by {}
    assert forall|p: (int, int, int)|
        is_called_for(p, count as int, pk.vk.cs.num_lookups as int) implies #[trigger] has_place(
        steps,
        p,
    ) by {
        if p.0 <= 6 {
            lemma_quotient_has::<F, P>(
                pk,
                instance,
                advice,
                challenges,
                record.quotient,
                p,
            );
            lemma_has_concat(q, e, p);
        } else if p.0 <= 11 {
            lemma_evaluation_has::<F, P>(pk, query_instance, count, record.evaluation, p);
            lemma_has_concat(q, e, p);
        } else {
            lemma_opening_has::<F, P>(pk, count, record.evaluation.x, record.opening, p);
        }
        lemma_has_concat(q + e, o, p);
    }
}

pub(crate) proof fn lemma_squeezed_start<F, P>(steps: Seq<Step<F, P>>, k: int, m: int)
    requires
        0 <= k <= m <= steps.len(),
    ensures
        squeezed(steps.take(k)).is_prefix_of(squeezed(steps.take(m))),
        squeezed(steps.take(k)).is_prefix_of(squeezed(steps)),
{
    let (a, b, c) = (steps.take(k), steps.subrange(k, m), steps.skip(k));
    assert(steps.take(m) =~= a + b);
    assert(steps =~= a + c);
    lemma_squeezed_concat(a, b);
    lemma_squeezed_concat(a, c);
    assert((squeezed(a) + squeezed(b)).take(squeezed(a).len() as int) =~= squeezed(a));
    assert((squeezed(a) + squeezed(c)).take(squeezed(a).len() as int) =~= squeezed(a));
}

/// Where the last challenge was squeezed.
pub(crate) proof fn lemma_last_squeeze<F, P>(steps: Seq<Step<F, P>>) -> (s: int)
    requires
        squeezed(steps).len() > 0,
    ensures
        0 <= s < steps.len(),
        steps[s] == Step::<F, P>::Squeeze(squeezed(steps).last()),
        squeezed(steps.take(s)).len() == squeezed(steps).len() - 1,
        squeezed(steps.take(s + 1)).len() == squeezed(steps).len(),
        forall|l: int| s < l < steps.len() ==> !((#[trigger] steps[l]) is Squeeze),
    decreases steps.len(),
{
    let init = steps.drop_last();
    let last = steps.len() - 1;
    assert(steps.last() == steps[last]);
    assert(steps.take(last) =~= init);
    assert(steps.take(last + 1) =~= steps);
    if steps.last() is Squeeze {
        last
    } else {
        let s = lemma_last_squeeze(init);
        assert(init[s] == steps[s]);
        assert(init.take(s) =~= steps.take(s));
        assert(init.take(s + 1) =~= steps.take(s + 1));
        assert forall|l: int| s < l < steps.len() implies !((#[trigger] steps[l]) is Squeeze) by {
            if l < last {
                assert(init[l] == steps[l]);
            }
        }
        s
    }
}

/// What one step takes.
pub(crate) proof fn lemma_takes<F: Field, P>(
    steps: Seq<Step<F, P>>,
    challenges: Seq<F>,
    n: nat,
    k: int,
)
    requires
        all_take(Seq::empty(), steps, challenges, n),
        0 <= k < steps.len(),
    ensures
        takes_challenges(squeezed(steps.take(k)), steps[k], challenges, n),
{
    reveal(all_take);
    assert(Seq::<Step<F, P>>::empty() + steps.take(k) =~= steps.take(k));
}

proof fn lemma_squeezed_agree<F, P>(steps: Seq<Step<F, P>>, i: int, j: int)
    requires
        0 <= i < steps.len(),
        0 <= j < steps.len(),
    ensures
        forall|l: int|
            0 <= l < squeezed(steps.take(i)).len() && l < squeezed(steps.take(j)).len()
                ==> #[trigger] squeezed(steps.take(i))[l] == squeezed(steps.take(j))[l],
{
    let (ci, cj) = (squeezed(steps.take(i)), squeezed(steps.take(j)));
    if i <= j {
        lemma_squeezed_start(steps, i, j);
        assert forall|l: int| 0 <= l < ci.len() && l < cj.len() implies #[trigger] ci[l]
            == cj[l] by {
            assert(cj.take(ci.len() as int)[l] == cj[l]);
        }
    } else {
        lemma_squeezed_start(steps, j, i);
        assert forall|l: int| 0 <= l < ci.len() && l < cj.len() implies #[trigger] ci[l]
            == cj[l] by {
            assert(ci.take(cj.len() as int)[l] == ci[l]);
        }
    }
}

/// Two steps of which one is the quotient take the same challenges.
proof fn lemma_quotient_agrees<F: Field, P>(
    steps: Seq<Step<F, P>>,
    challenges: Seq<F>,
    n: nat,
    i: int,
    j: int,
)
    requires
        all_take(Seq::empty(), steps, challenges, n),
        in_order(steps),
        0 <= i < steps.len(),
        0 <= j < steps.len(),
        steps[i] is Quotient,
    ensures
        steps[i] matches Step::Quotient { challenges: c, beta, gamma, theta, .. } ==> {
            &&& steps[j] matches Step::LookupPermuted { theta: t, challenges: d, .. } ==> t == theta
                && d == c && j < i
            &&& steps[j] matches Step::PermutationCommitted { beta: b, gamma: g, .. } ==> b == beta
                && g == gamma && j < i
            &&& steps[j] matches Step::LookupCommitted { beta: b, gamma: g, .. } ==> b == beta && g
                == gamma && j < i
            &&& steps[j] is VanishingCommitted ==> j < i
            &&& steps[j] is VanishingConstructed ==> i < j
        },
{
    lemma_takes(steps, challenges, n, i);
    lemma_takes(steps, challenges, n, j);
    lemma_squeezed_agree(steps, i, j);
    let (ci, cj) = (squeezed(steps.take(i)), squeezed(steps.take(j)));
    assert(may_precede(steps[i], steps[j]) || i >= j) by {
        reveal(in_order);
    }
    assert(may_precede(steps[j], steps[i]) || j >= i) by {
        reveal(in_order);
    }
    if steps[j] is LookupPermuted {
        assert(ci[0] == cj[0]);
    }
    if steps[j] is PermutationCommitted || steps[j] is LookupCommitted {
        assert(ci[1] == cj[1] && ci[2] == cj[2]);
    }
}

/// The challenge that separates the gates is the last one before the quotient.
proof fn lemma_quotient_is_after<F: Field, P>(
    steps: Seq<Step<F, P>>,
    challenges: Seq<F>,
    n: nat,
    i: int,
    v: int,
) -> (s: int)
    requires
        all_take(Seq::empty(), steps, challenges, n),
        in_order(steps),
        0 <= i < steps.len(),
        0 <= v < steps.len(),
        steps[i] is Quotient,
        steps[v] is VanishingCommitted,
    ensures
        v < s < i,
        steps[s] == Step::<F, P>::Squeeze(steps[i]->y),
        forall|l: int| s < l < i ==> !((#[trigger] steps[l]) is Squeeze),
{
    lemma_takes(steps, challenges, n, i);
    lemma_takes(steps, challenges, n, v);
    lemma_quotient_agrees(steps, challenges, n, i, v);
    let start = steps.take(i);
    let s = lemma_last_squeeze(start);
    assert(start[s] == steps[s]);
    if s < v {
        assert(start.take(s + 1) =~= steps.take(s + 1));
        lemma_squeezed_start(steps, s + 1, v);
    }
    assert forall|l: int| s < l < i implies !((#[trigger] steps[l]) is Squeeze) by {
        assert(start[l] == steps[l]);
    }
    s
}

/// The challenges of the quotient are those of the other arguments of the same proof:
/// the one that compresses its lookups is the one under which all permuted columns
/// were committed to, and those of its products are those of all products. The
/// challenge that separates its gates is the last one that was squeezed before it,
/// after the polynomial that blinds it had been committed to. The quotient that is
/// committed to is the one that was computed. `k` and `m` are any two steps of the
/// arguments.
pub proof fn lemma_quotient_challenges<F: Field, P>(
    pk: &ProvingKey<F>,
    query_instance: bool,
    instance: Seq<InstanceSingle<F>>,
    advice: Seq<AdviceCommitted<F, LagrangeCoeff>>,
    challenges: Seq<F>,
    before: Seq<Step<F, P>>,
    after: Seq<Step<F, P>>,
    k: int,
    m: int,
)
    requires
        advice.len() == instance.len(),
        protocol::is_proof(pk, query_instance, instance, advice, challenges, before, after),
        before.len() <= k < after.len(),
        before.len() <= m < after.len(),
    ensures
        after[k] matches Step::Quotient { challenges: c, y, beta, gamma, theta, h, .. } ==> {
            &&& after[m] matches Step::LookupPermuted { theta: t, challenges: d, .. } ==> t == theta
                && d == c && m < k
            &&& after[m] matches Step::PermutationCommitted { beta: b, gamma: g, .. } ==> b == beta
                && g == gamma && m < k
            &&& after[m] matches Step::LookupCommitted { beta: b, gamma: g, .. } ==> b == beta && g
                == gamma && m < k
            &&& after[m] matches Step::VanishingConstructed { h: committed } ==> committed == h && k
                < m
            &&& exists|v: int, s: int|
                {
                    &&& before.len() <= v < s < k
                    &&& #[trigger] after[v] is VanishingCommitted
                    &&& #[trigger] after[s] == Step::<F, P>::Squeeze(y)
                    &&& forall|l: int| s < l < k ==> !((#[trigger] after[l]) is Squeeze)
                }
        },
{
    if after[k] is Quotient {
        lemma_challenges_of_a_proof(
            pk,
            query_instance,
            instance,
            advice,
            challenges,
            before,
            after,
        );
        lemma_order_of_a_proof(pk, query_instance, instance, advice, challenges, before, after);
        lemma_arguments_of_a_proof(
            pk,
            query_instance,
            instance,
            advice,
            challenges,
            before,
            after,
        );
        let b = before.len() as int;
        let n = pk.vk.domain.n as nat;
        let steps = after.skip(b);
        let (i, j) = (k - b, m - b);
        assert(steps[i] == after[k] && steps[j] == after[m]);
        lemma_quotient_agrees(steps, challenges, n, i, j);
        let h = choose|h: Seq<F>| #[trigger] all(steps, about(pk, instance, advice, h));
        let like = about::<F, P>(pk, instance, advice, h);
        assert(like(steps[i]) && like(steps[j]));
        assert(has_place(steps, (4, 0, 0)));
        let v = choose|v: int|
            0 <= v < steps.len() && place(#[trigger] steps[v]) == (4int, 0int, 0int);
        assert(steps[v] is VanishingCommitted);
        let s = lemma_quotient_is_after(steps, challenges, n, i, v);
        assert(after[v + b] == steps[v] && after[s + b] == steps[s]);
        assert forall|l: int| s + b < l < k implies !((#[trigger] after[l]) is Squeeze) by {
            assert(steps[l - b] == after[l]);
        }
    }
}

/// The point at which an argument is evaluated or opened by a step, if any is.
pub open spec fn point_of<F, P>(step: Step<F, P>) -> Option<F> {
    match step {
        Step::VanishingEvaluated { x, .. } => Some(x),
        Step::CommonPermutationEvaluated { x } => Some(x),
        Step::PermutationEvaluated { x, .. } => Some(x),
        Step::LookupEvaluated { x, .. } => Some(x),
        Step::PermutationOpened { x, .. } => Some(x),
        Step::LookupOpened { x, .. } => Some(x),
        Step::CommonPermutationOpened { x, .. } => Some(x),
        Step::VanishingOpened { x, .. } => Some(x),
        _ => None,
    }
}

/// All arguments are evaluated and opened at one point: the last challenge that is
/// squeezed. It is squeezed before any evaluation is written, and after the quotient
/// was committed to. `k` and `m` are any two steps of the arguments.
pub proof fn lemma_one_point<F: Field, P>(
    pk: &ProvingKey<F>,
    query_instance: bool,
    instance: Seq<InstanceSingle<F>>,
    advice: Seq<AdviceCommitted<F, LagrangeCoeff>>,
    challenges: Seq<F>,
    before: Seq<Step<F, P>>,
    after: Seq<Step<F, P>>,
    k: int,
    m: int,
)
    requires
        protocol::is_proof(pk, query_instance, instance, advice, challenges, before, after),
        before.len() <= k < after.len(),
        before.len() <= m < after.len(),
    ensures
        point_of(after[k]) is Some && point_of(after[m]) is Some ==> point_of(after[k])
            == point_of(after[m]),
        point_of(after[k]) is Some ==> {
            exists|s: int|
                {
                    &&& before.len() <= s < k
                    &&& #[trigger] after[s] == Step::<F, P>::Squeeze(point_of(after[k])->0)
                    &&& forall|l: int| s < l < after.len() ==> !((#[trigger] after[l]) is Squeeze)
                    &&& after[m] is WriteScalar ==> s < m
                    &&& after[m] is VanishingConstructed ==> m < s
                }
        },
        after[k] matches Step::VanishingEvaluated { x, xn } ==> xn.value() == power::pow(
            x.value(),
            pk.vk.domain.n as nat,
        ) % F::modulus(),
{
    lemma_challenges_of_a_proof(
        pk,
        query_instance,
        instance,
        advice,
        challenges,
        before,
        after,
    );
    let b = before.len() as int;
    let steps = after.skip(b);
    let (i, j) = (k - b, m - b);
    assert(steps[i] == after[k] && steps[j] == after[m]);
    let n = pk.vk.domain.n as nat;
    lemma_takes(steps, challenges, n, i);
    lemma_takes(steps, challenges, n, j);
    let (ci, cj, every) = (squeezed(steps.take(i)), squeezed(steps.take(j)), squeezed(steps));
    lemma_squeezed_start(steps, i, i);
    lemma_squeezed_start(steps, j, j);
    assert(every.take(5) =~= every);
    assert(ci.len() == 5 ==> ci == every);
    assert(cj.len() == 5 ==> cj == every);
    if point_of(after[k]) is Some {
        let s = lemma_last_squeeze(steps);
        assert(after[s + b] == steps[s]);
        if i <= s {
            lemma_squeezed_start(steps, i, s);
        }
        if j <= s {
            lemma_squeezed_start(steps, j, s);
        } else {
            lemma_squeezed_start(steps, s + 1, j);
        }
        assert forall|l: int| s + b < l < after.len() implies !((#[trigger] after[l]) is Squeeze) by {
            assert(steps[l - b] == after[l]);
        }
    }
}

/// The queries that the arguments of a circuit listed, in order.
pub open spec fn listed_for<F, P>(steps: Seq<Step<F, P>>, circuit: int) -> Seq<Query<F>>
    decreases steps.len(),
{
    if steps.len() == 0 {
        Seq::empty()
    } else {
        let before = listed_for(steps.drop_last(), circuit);
        match steps.last() {
            Step::PermutationOpened { slot, queries, .. } => if slot.circuit == circuit {
                before + queries
            } else {
                before
            },
            Step::LookupOpened { slot, queries, .. } => if slot.circuit == circuit {
                before + queries
            } else {
                before
            },
            _ => before,
        }
    }
}

/// The queries that the arguments of all circuits together listed, in order.
pub open spec fn listed_for_all<F, P>(steps: Seq<Step<F, P>>) -> Seq<Query<F>>
    decreases steps.len(),
{
    if steps.len() == 0 {
        Seq::empty()
    } else {
        let before = listed_for_all(steps.drop_last());
        match steps.last() {
            Step::CommonPermutationOpened { queries, .. } => before + queries,
            Step::VanishingOpened { queries, .. } => before + queries,
            _ => before,
        }
    }
}

/// The queries of the circuits one after the other: those of its columns, then those
/// that its arguments listed.
pub open spec fn gathered<F, P>(steps: Seq<Step<F, P>>, columns: Seq<Seq<Query<F>>>) -> Seq<
    Query<F>,
>
    decreases columns.len(),
{
    if columns.len() == 0 {
        Seq::empty()
    } else {
        gathered(steps, columns.drop_last()) + columns.last() + listed_for(
            steps,
            columns.len() - 1,
        )
    }
}

/// The query opens a polynomial at the challenge `x`, as many places further on the
/// domain as `at` says, and the polynomial takes the value `w` there.
pub open spec fn answers<F: Field>(
    domain: &EvaluationDomain<F>,
    x: F,
    at: int,
    o: Query<F>,
    w: F,
) -> bool {
    &&& at >= 0 ==> o.point.value() == (x.value() * power::pow(domain.omega.value(), at as nat))
        % F::modulus()
    &&& at < 0 ==> o.point.value() == (x.value() * power::pow(
        domain.omega_inv.value(),
        (-at) as nat,
    )) % F::modulus()
    &&& arithmetic::eval(field::values_of(o.poly), o.point.value()) % F::modulus() == w.value()
}

/// The coefficients belong to the polynomial that takes the values of the column on
/// the domain.
pub open spec fn takes<F: Field>(
    domain: &EvaluationDomain<F>,
    coeffs: Seq<F>,
    column: Seq<F>,
) -> bool {
    &&& coeffs.len() == column.len()
    &&& forall|r: int|
        0 <= r < column.len() ==> arithmetic::eval(
            field::values_of(coeffs),
            power::pow(domain.omega.value(), r as nat),
        ) % F::modulus() == (#[trigger] column[r]).value()
}

/// What is opened of the columns of a circuit: every query of an instance column, if
/// they are queried, under the default blind, and every query of an advice column
/// under the blind of its commitment. The polynomial is that of the column, and its
/// value at the point of the query is the one that was written for the query.
pub open spec fn opens_columns<F: Field>(
    pk: &ProvingKey<F>,
    query_instance: bool,
    instance: InstanceSingle<F>,
    advice: AdviceCommitted<F, LagrangeCoeff>,
    x: F,
    opened: Seq<Query<F>>,
    instance_evals: Seq<F>,
    advice_evals: Seq<F>,
) -> bool {
    let cs = &pk.vk.cs;
    let skipped = if query_instance {
        cs.instance_queries@.len() as int
    } else {
        0
    };
    &&& opened.len() == skipped + cs.advice_queries@.len()
    &&& advice_evals.len() == cs.advice_queries@.len()
    &&& instance_evals.len() == skipped
    &&& forall|q: int|
        0 <= q < skipped ==> {
            let o = #[trigger] opened[q];
            let (column, at) = cs.instance_queries@[q];
            &&& o.poly == instance.instance_polys@[column.index as int]@
            &&& o.blind.value() == 1
            &&& answers(&pk.vk.domain, x, at.0 as int, o, instance_evals[q])
        }
    &&& forall|q: int|
        0 <= q < cs.advice_queries@.len() ==> {
            let o = opened[skipped + q];
            let (column, at) = #[trigger] cs.advice_queries@[q];
            &&& takes(&pk.vk.domain, o.poly, advice.advice_polys@[column.index as int]@)
            &&& o.blind == advice.advice_blinds@[column.index as int].0
            &&& answers(&pk.vk.domain, x, at.0 as int, o, advice_evals[q])
        }
}

/// What is opened of the fixed columns: every query, under the default blind.
pub open spec fn opens_fixed<F: Field>(
    pk: &ProvingKey<F>,
    x: F,
    opened: Seq<Query<F>>,
    evals: Seq<F>,
) -> bool {
    &&& opened.len() == pk.vk.cs.fixed_queries@.len()
    &&& evals.len() == opened.len()
    &&& forall|q: int|
        0 <= q < opened.len() ==> {
            let o = #[trigger] opened[q];
            let (column, at) = pk.vk.cs.fixed_queries@[q];
            &&& o.poly == pk.fixed_polys@[column.index as int]@
            &&& o.blind.value() == 1
            &&& answers(&pk.vk.domain, x, at.0 as int, o, evals[q])
        }
}

/// Lists one after the other.
pub open spec fn flattened<X>(lists: Seq<Seq<X>>) -> Seq<X>
    decreases lists.len(),
{
    if lists.len() == 0 {
        Seq::empty()
    } else {
        flattened(lists.drop_last()) + lists.last()
    }
}

proof fn lemma_listed_concat<F, P>(a: Seq<Step<F, P>>, b: Seq<Step<F, P>>, circuit: int)
    ensures
        listed_for(a + b, circuit) == listed_for(a, circuit) + listed_for(b, circuit),
        listed_for_all(a + b) == listed_for_all(a) + listed_for_all(b),
    decreases b.len(),
{
    if b.len() == 0 {
        assert(a + b =~= a);
        assert(listed_for(a, circuit) + listed_for(b, circuit) =~= listed_for(a, circuit));
        assert(listed_for_all(a) + listed_for_all(b) =~= listed_for_all(a));
    } else {
        lemma_listed_concat(a, b.drop_last(), circuit);
        assert((a + b).drop_last() =~= a + b.drop_last());
        assert((a + b).last() == b.last());
        assert(listed_for(a + b, circuit) =~= listed_for(a, circuit) + listed_for(b, circuit));
        assert(listed_for_all(a + b) =~= listed_for_all(a) + listed_for_all(b));
    }
}

/// Steps before the openings list nothing.
proof fn lemma_none_listed<F, P>(steps: Seq<Step<F, P>>, circuit: int)
    requires
        all(steps, in_stages(0, 11)),
    ensures
        listed_for(steps, circuit) == Seq::<Query<F>>::empty(),
        listed_for_all(steps) == Seq::<Query<F>>::empty(),
    decreases steps.len(),
{
    if steps.len() > 0 {
        let init = steps.drop_last();
        let like = in_stages::<F, P>(0, 11);
        assert(like(steps[steps.len() - 1]));
        assert forall|k: int| 0 <= k < init.len() implies like(#[trigger] init[k]) by {
            assert(like(steps[k]));
        }
        lemma_none_listed(init, circuit);
    }
}

proof fn lemma_lookups_listed<F, P>(
    owner: int,
    lookups: Seq<Seq<Query<F>>>,
    x: F,
    circuit: int,
)
    ensures
        listed_for(protocol::lookup_open_steps::<F, P>(owner, lookups, x), circuit) == (if owner
            == circuit {
            protocol::concat(lookups)
        } else {
            Seq::empty()
        }),
        listed_for_all(protocol::lookup_open_steps::<F, P>(owner, lookups, x)) == Seq::<
            Query<F>,
        >::empty(),
    decreases lookups.len(),
{
    if lookups.len() > 0 {
        let steps = protocol::lookup_open_steps::<F, P>(owner, lookups, x);
        let init = lookups.drop_last();
        lemma_lookups_listed::<F, P>(owner, init, x, circuit);
        assert(steps.drop_last() =~= protocol::lookup_open_steps::<F, P>(owner, init, x));
        assert(steps.last() == Step::<F, P>::LookupOpened {
            slot: Slot { circuit: owner, lookup: lookups.len() - 1 },
            x,
            queries: lookups.last(),
        });
    }
}

/// What the arguments of the first circuits listed.
proof fn lemma_circuits_listed<F, P>(
    count: nat,
    openings: Seq<CircuitOpenings<F>>,
    x: F,
    circuit: int,
)
    requires
        count <= openings.len(),
    ensures
        listed_for(
            protocol::for_circuits(count, protocol::open_steps::<F, P>(openings, x)),
            circuit,
        ) == (if 0 <= circuit < count {
            openings[circuit].permutation + protocol::concat(openings[circuit].lookups)
        } else {
            Seq::empty()
        }),
        listed_for_all(protocol::for_circuits(count, protocol::open_steps::<F, P>(openings, x)))
            == Seq::<Query<F>>::empty(),
    decreases count,
{
    let f = protocol::open_steps::<F, P>(openings, x);
    if count > 0 {
        let n = count - 1;
        let a = protocol::for_circuits(n as nat, f);
        lemma_circuits_listed::<F, P>(n as nat, openings, x, circuit);
        let first = seq![
            Step::<F, P>::PermutationOpened {
                slot: Slot { circuit: n, lookup: 0 },
                x,
                queries: openings[n].permutation,
            },
        ];
        let rest = protocol::lookup_open_steps::<F, P>(n, openings[n].lookups, x);
        assert(f(n) == first + rest);
        lemma_lookups_listed::<F, P>(n, openings[n].lookups, x, circuit);
        lemma_listed_concat(first, rest, circuit);
        lemma_listed_concat(a, f(n), circuit);
        assert(first.drop_last() =~= Seq::empty());
        assert(listed_for(first.drop_last(), circuit) == Seq::<Query<F>>::empty());
        assert(listed_for_all(first.drop_last()) == Seq::<Query<F>>::empty());
        assert(listed_for(first, circuit) =~= if n == circuit {
            openings[n].permutation
        } else {
            Seq::empty()
        });
        assert(listed_for(a + f(n), circuit) =~= if 0 <= circuit < count {
            openings[circuit].permutation + protocol::concat(openings[circuit].lookups)
        } else {
            Seq::empty()
        });
        assert(listed_for_all(a + f(n)) =~= Seq::empty());
    }
}

proof fn lemma_gathered<F, P>(
    steps: Seq<Step<F, P>>,
    openings: Seq<CircuitOpenings<F>>,
    columns: Seq<Seq<Query<F>>>,
)
    requires
        columns.len() == openings.len(),
        forall|i: int|
            0 <= i < columns.len() ==> #[trigger] columns[i] == openings[i].instance
                + openings[i].advice,
        forall|i: int|
            0 <= i < columns.len() ==> #[trigger] listed_for(steps, i) == openings[i].permutation
                + protocol::concat(openings[i].lookups),
    ensures
        gathered(steps, columns) == protocol::circuits_queries(openings),
    decreases columns.len(),
{
    if columns.len() > 0 {
        let n = columns.len() - 1;
        let (c, o) = (columns.drop_last(), openings.drop_last());
        assert forall|i: int| 0 <= i < c.len() implies #[trigger] c[i] == o[i].instance
            + o[i].advice by {
            assert(c[i] == columns[i]);
        }
        assert forall|i: int| 0 <= i < c.len() implies #[trigger] listed_for(steps, i)
            == o[i].permutation + protocol::concat(o[i].lookups) by {
            assert(c[i] == columns[i]);
        }
        lemma_gathered(steps, o, c);
        assert(columns.last() == columns[n]);
        assert(openings.last() == openings[n]);
        assert(listed_for(steps, n) == openings[n].permutation + protocol::concat(
            openings[n].lookups,
        ));
        assert(gathered(steps, columns) =~= protocol::circuits_queries(openings));
    }
}

proof fn lemma_written_scalars<F, P>(scalars: Seq<F>)
    ensures
        written(protocol::write_scalar_steps::<F, P>(scalars)) == scalars,
    decreases scalars.len(),
{
    let steps = protocol::write_scalar_steps::<F, P>(scalars);
    if scalars.len() > 0 {
        lemma_written_scalars::<F, P>(scalars.drop_last());
        assert(steps.drop_last() =~= protocol::write_scalar_steps::<F, P>(scalars.drop_last()));
        assert(steps.last() == Step::<F, P>::WriteScalar(scalars.last()));
    }
    assert(written(steps) =~= scalars);
}

proof fn lemma_written_circuits<F, P>(count: nat, evals: Seq<Seq<F>>)
    requires
        count <= evals.len(),
    ensures
        written(protocol::for_circuits(count, protocol::eval_steps::<F, P>(evals))) == flattened(
            evals.take(count as int),
        ),
    decreases count,
{
    if count > 0 {
        let n = count - 1;
        let f = protocol::eval_steps::<F, P>(evals);
        lemma_written_circuits::<F, P>(n as nat, evals);
        lemma_written_scalars::<F, P>(evals[n]);
        lemma_written_concat(protocol::for_circuits(n as nat, f), f(n));
        assert(evals.take(count as int).drop_last() =~= evals.take(n));
        assert(evals.take(count as int).last() == evals[n]);
    } else {
        assert(evals.take(0) =~= Seq::empty());
    }
}

/// What is opened and what was written hang together: see [`opens_columns`] and
/// [`opens_fixed`]. The lists say for each circuit what is opened of its columns, and
/// the values that were written for it.
pub open spec fn hangs_together<F: Field, P>(
    pk: &ProvingKey<F>,
    query_instance: bool,
    instance: Seq<InstanceSingle<F>>,
    advice: Seq<AdviceCommitted<F, LagrangeCoeff>>,
    steps: Seq<Step<F, P>>,
    columns: Seq<Seq<Query<F>>>,
    fixed: Seq<Query<F>>,
    instance_evals: Seq<Seq<F>>,
    advice_evals: Seq<Seq<F>>,
    fixed_evals: Seq<F>,
) -> bool {
    &&& columns.len() == instance.len()
    &&& instance_evals.len() == instance.len()
    &&& advice_evals.len() == instance.len()
    &&& steps.len() > 0
    &&& written(steps) == flattened(instance_evals) + flattened(advice_evals) + fixed_evals
    &&& steps.last() == (Step::<F, P>::MultiOpen {
        queries: gathered(steps, columns) + fixed + listed_for_all(steps),
    })
    &&& forall|i: int|
        0 <= i < instance.len() ==> opens_columns(
            pk,
            query_instance,
            instance[i],
            advice[i],
            squeezed(steps).last(),
            #[trigger] columns[i],
            instance_evals[i],
            advice_evals[i],
        )
    &&& opens_fixed(pk, squeezed(steps).last(), fixed, fixed_evals)
}

/// All columns and blinds that the key refers to are there.
pub open spec fn is_complete<F: Field>(
    pk: &ProvingKey<F>,
    instance: Seq<InstanceSingle<F>>,
    advice: Seq<AdviceCommitted<F, LagrangeCoeff>>,
) -> bool {
    &&& pk.vk.cs.wf()
    &&& pk.fixed_polys@.len() == pk.vk.cs.num_fixed_columns
    &&& advice.len() == instance.len()
    &&& forall|i: int|
        0 <= i < instance.len() ==> (#[trigger] instance[i]).instance_polys@.len()
            == pk.vk.cs.num_instance_columns
    &&& forall|i: int|
        0 <= i < advice.len() ==> (#[trigger] advice[i]).advice_polys@.len()
            == pk.vk.cs.num_advice_columns && advice[i].advice_blinds@.len()
            == pk.vk.cs.num_advice_columns
}

proof fn lemma_answers<F: Field>(
    domain: &EvaluationDomain<F>,
    x: F,
    at: int,
    o: Query<F>,
    w: F,
)
    requires
        o.point.value() == (x.value() * domain::rotation_factor(
            domain.omega.value(),
            domain.omega_inv.value(),
            at,
        )) % F::modulus(),
        w.value() == arithmetic::eval(
            field::values_of(o.poly),
            (x.value() * domain::rotation_factor(
                domain.omega.value(),
                domain.omega_inv.value(),
                at,
            )) % F::modulus(),
        ) % F::modulus(),
    ensures
        answers(domain, x, at, o, w),
{
}

proof fn lemma_opens_columns<F: Field>(
    pk: &ProvingKey<F>,
    query_instance: bool,
    instance: Seq<InstanceSingle<F>>,
    advice: Seq<AdviceCommitted<F, LagrangeCoeff>>,
    record: ProofRecord<F>,
    i: int,
)
    requires
        is_complete(pk, instance, advice),
        protocol::proof_recorded(pk, query_instance, instance, advice, record),
        0 <= i < instance.len(),
    ensures
        opens_columns(
            pk,
            query_instance,
            instance[i],
            advice[i],
            record.evaluation.x,
            record.opening.circuits[i].instance + record.opening.circuits[i].advice,
            if query_instance {
                record.evaluation.instance_evals[i]
            } else {
                Seq::empty()
            },
            record.evaluation.advice_evals[i],
        ),
{
    let cs = &pk.vk.cs;
    let domain = &pk.vk.domain;
    let x = record.evaluation.x;
    let opened = record.opening.circuits[i];
    let instance_polys = protocol::instance_polys_of(instance);
    let advice_polys = record.quotient.advice_polys;
    let blinds = protocol::all_blinds_of(advice);
    assert(instance_polys.len() == instance.len());
    assert(protocol::circuit_opened(
        pk,
        query_instance,
        instance_polys[i],
        advice_polys[i],
        blinds[i],
        x,
        opened,
    ));
    let listed = opened.instance + opened.advice;
    let ie = record.evaluation.instance_evals[i];
    let ae = record.evaluation.advice_evals[i];
    assert(instance[i].instance_polys@.len() == cs.num_instance_columns);
    assert(advice[i].advice_polys@.len() == cs.num_advice_columns);
    if query_instance {
        assert(protocol::are_evaluations(domain, cs.instance_queries@, instance_polys[i], x, ie));
        assert forall|q: int| 0 <= q < cs.instance_queries@.len() implies {
            let o = #[trigger] listed[q];
            let (column, at) = cs.instance_queries@[q];
            &&& o.poly == instance[i].instance_polys@[column.index as int]@
            &&& o.blind.value() == 1
            &&& answers(domain, x, at.0 as int, o, ie[q])
        } by {
            let (column, at) = cs.instance_queries@[q];
            let o = opened.instance[q];
            assert(listed[q] == o);
            assert(column.index < cs.num_instance_columns);
            assert(ie[q].value() == ie[q].value());
            assert(protocol::is_rotated(domain, x, at, o.point));
            lemma_answers(domain, x, at.0 as int, o, ie[q]);
        }
    }
    let skipped = if query_instance {
        cs.instance_queries@.len() as int
    } else {
        0
    };
    assert(protocol::are_evaluations(domain, cs.advice_queries@, advice_polys[i], x, ae));
    lemma_quotient_is_about::<F, int>(
        pk,
        instance,
        advice,
        Seq::empty(),
        record.quotient,
    );
    assert(take_values(domain, advice_polys[i], advice[i].advice_polys@));
    assert forall|q: int| 0 <= q < cs.advice_queries@.len() implies {
        let o = listed[skipped + q];
        let (column, at) = #[trigger] cs.advice_queries@[q];
        &&& takes(domain, o.poly, advice[i].advice_polys@[column.index as int]@)
        &&& o.blind == advice[i].advice_blinds@[column.index as int].0
        &&& answers(domain, x, at.0 as int, o, ae[q])
    } by {
        let (column, at) = cs.advice_queries@[q];
        let c = column.index as int;
        let o = opened.advice[q];
        assert(listed[skipped + q] == o);
        assert(c < cs.num_advice_columns);
        assert(ae[q].value() == ae[q].value());
        assert(protocol::is_rotated(domain, x, at, o.point));
        lemma_answers(domain, x, at.0 as int, o, ae[q]);
        assert(blinds[i][c] == advice[i].advice_blinds@[c].0);
        let column = advice[i].advice_polys@[c]@;
        assert forall|r: int| 0 <= r < column.len() implies arithmetic::eval(
            field::values_of(o.poly),
            power::pow(domain.omega.value(), r as nat),
        ) % F::modulus() == (#[trigger] column[r]).value() by {
            assert(advice[i].advice_polys@[c]@[r] == column[r]);
        }
    }
}

proof fn lemma_opens_fixed<F: Field>(
    pk: &ProvingKey<F>,
    query_instance: bool,
    instance: Seq<InstanceSingle<F>>,
    advice: Seq<AdviceCommitted<F, LagrangeCoeff>>,
    record: ProofRecord<F>,
)
    requires
        is_complete(pk, instance, advice),
        protocol::proof_recorded(pk, query_instance, instance, advice, record),
    ensures
        opens_fixed(
            pk,
            record.evaluation.x,
            record.opening.fixed,
            record.evaluation.fixed_evals,
        ),
{
    let cs = &pk.vk.cs;
    let domain = &pk.vk.domain;
    let x = record.evaluation.x;
    let opened = record.opening.fixed;
    let evals = record.evaluation.fixed_evals;
    assert forall|q: int| 0 <= q < opened.len() implies {
        let o = #[trigger] opened[q];
        let (column, at) = cs.fixed_queries@[q];
        &&& o.poly == pk.fixed_polys@[column.index as int]@
        &&& o.blind.value() == 1
        &&& answers(domain, x, at.0 as int, o, evals[q])
    } by {
        let (column, at) = cs.fixed_queries@[q];
        let o = opened[q];
        assert(column.index < cs.num_fixed_columns);
        assert(evals[q].value() == evals[q].value());
        assert(protocol::is_rotated(domain, x, at, o.point));
        lemma_answers(domain, x, at.0 as int, o, evals[q]);
    }
}

/// For every circuit and every query of one of its columns, the list that is opened
/// holds the polynomial of that column of that circuit, under the blind of its
/// commitment, at the point of the query, and its value there is the one that was
/// written for that circuit and query. The same goes for the fixed columns. What the
/// arguments listed is opened too, and nothing else: see [`hangs_together`].
pub proof fn lemma_openings_of_a_proof<F: Field, P>(
    pk: &ProvingKey<F>,
    query_instance: bool,
    instance: Seq<InstanceSingle<F>>,
    advice: Seq<AdviceCommitted<F, LagrangeCoeff>>,
    challenges: Seq<F>,
    before: Seq<Step<F, P>>,
    after: Seq<Step<F, P>>,
)
    requires
        is_complete(pk, instance, advice),
        protocol::is_proof(pk, query_instance, instance, advice, challenges, before, after),
    ensures
        before.is_prefix_of(after),
        exists|
            columns: Seq<Seq<Query<F>>>,
            fixed: Seq<Query<F>>,
            instance_evals: Seq<Seq<F>>,
            advice_evals: Seq<Seq<F>>,
            fixed_evals: Seq<F>,
        | #[trigger]
            hangs_together(
                pk,
                query_instance,
                instance,
                advice,
                after.skip(before.len() as int),
                columns,
                fixed,
                instance_evals,
                advice_evals,
                fixed_evals,
            ),
{
    let record = choose|record: ProofRecord<F>|
        {
            &&& #[trigger] protocol::proof_recorded(pk, query_instance, instance, advice, record)
            &&& after == before + protocol::proof_steps(
                pk,
                query_instance,
                instance,
                advice,
                challenges,
                record,
            )
        };
    let (e, o) = (record.evaluation, record.opening);
    let count = instance.len();
    let steps = after.skip(before.len() as int);
    let q = protocol::quotient_steps::<F, P>(pk, instance, advice, challenges, record.quotient);
    let v = protocol::evaluation_steps::<F, P>(&pk.vk.cs, query_instance, count, e);
    let l = protocol::opening_steps::<F, P>(count, e.x, o);
    assert(steps =~= q + v + l);
    assert(protocol::instance_polys_of(instance).len() == count);
    lemma_quotient_takes::<F, P>(
        pk,
        instance,
        advice,
        challenges,
        record.quotient,
        pk.vk.domain.n as nat,
    );
    lemma_rest_takes::<F, P>(
        pk,
        query_instance,
        count,
        q,
        squeezed(q),
        challenges,
        e,
        o,
    );
    assert(q + (v + l) =~= steps);
    assert(squeezed(steps).last() == e.x);
    let columns = Seq::new(count, |i: int| o.circuits[i].instance + o.circuits[i].advice);
    let ie = if query_instance {
        e.instance_evals
    } else {
        Seq::new(count, |i: int| Seq::<F>::empty())
    };
    assert forall|i: int| 0 <= i < count implies opens_columns(
        pk,
        query_instance,
        instance[i],
        advice[i],
        e.x,
        #[trigger] columns[i],
        ie[i],
        e.advice_evals[i],
    ) by {
        lemma_opens_columns(pk, query_instance, instance, advice, record, i);
    }
    lemma_opens_fixed(pk, query_instance, instance, advice, record);
    lemma_written_of_proof::<F, P>(
        pk,
        query_instance,
        instance,
        advice,
        challenges,
        record,
        ie,
    );
    lemma_listed_of_proof::<F, P>(
        pk,
        query_instance,
        instance,
        advice,
        challenges,
        record,
        columns,
    );
    assert(hangs_together(
        pk,
        query_instance,
        instance,
        advice,
        steps,
        columns,
        o.fixed,
        ie,
        e.advice_evals,
        e.fixed_evals,
    ));
}

proof fn lemma_written_of_proof<F: Field, P>(
    pk: &ProvingKey<F>,
    query_instance: bool,
    instance: Seq<InstanceSingle<F>>,
    advice: Seq<AdviceCommitted<F, LagrangeCoeff>>,
    challenges: Seq<F>,
    record: ProofRecord<F>,
    instance_evals: Seq<Seq<F>>,
)
    requires
        advice.len() == instance.len(),
        protocol::proof_recorded(pk, query_instance, instance, advice, record),
        instance_evals == (if query_instance {
            record.evaluation.instance_evals
        } else {
            Seq::new(instance.len(), |i: int| Seq::<F>::empty())
        }),
    ensures
        written(
            protocol::quotient_steps::<F, P>(
                pk,
                instance,
                advice,
                challenges,
                record.quotient,
            ) + protocol::evaluation_steps::<F, P>(
                &pk.vk.cs,
                query_instance,
                instance.len(),
                record.evaluation,
            ) + protocol::opening_steps::<F, P>(
                instance.len(),
                record.evaluation.x,
                record.opening,
            ),
        ) == flattened(instance_evals) + flattened(record.evaluation.advice_evals)
            + record.evaluation.fixed_evals,
{
    let (e, o) = (record.evaluation, record.opening);
    let count = instance.len();
    assert(protocol::instance_polys_of(instance).len() == count);
    let q = protocol::quotient_steps::<F, P>(pk, instance, advice, challenges, record.quotient);
    let v = protocol::evaluation_steps::<F, P>(&pk.vk.cs, query_instance, count, e);
    let l = protocol::opening_steps::<F, P>(count, e.x, o);
    lemma_quotient_in_order::<F, P>(pk, instance, advice, challenges, record.quotient);
    lemma_opening_in_order::<F, P>(count, e.x, o);
    let (lq, ll) = (in_stages::<F, P>(0, 6), in_stages::<F, P>(12, 15));
    assert forall|k: int| 0 <= k < q.len() implies !((#[trigger] q[k]) is WriteScalar) by {
        assert(lq(q[k]));
    }
    assert forall|k: int| 0 <= k < l.len() implies !((#[trigger] l[k]) is WriteScalar) by {
        assert(ll(l[k]));
    }
    lemma_none_written(q);
    lemma_none_written(l);
    let first = seq![Step::<F, P>::Squeeze(e.x)];
    let i = if query_instance {
        protocol::for_circuits(count, protocol::eval_steps::<F, P>(e.instance_evals))
    } else {
        Seq::empty()
    };
    let a = protocol::for_circuits(count, protocol::eval_steps::<F, P>(e.advice_evals));
    let c = protocol::write_scalar_steps::<F, P>(e.fixed_evals);
    let r = protocol::argument_eval_steps::<F, P>(&pk.vk.cs, count, e.x, e.xn);
    let like = |s: Step<F, P>| !(s is WriteScalar);
    let f = protocol::lookup_eval_steps::<F, P>(&pk.vk.cs, e.x);
    lemma_all_circuits(count, f, like);
    assert forall|k: int| 0 <= k < r.len() implies !((#[trigger] r[k]) is WriteScalar) by {
        let t3 = seq![
            Step::<F, P>::VanishingEvaluated { x: e.x, xn: e.xn },
            Step::<F, P>::CommonPermutationEvaluated { x: e.x },
        ];
        let t4 = protocol::permutation_eval_steps::<F, P>(count, e.x);
        let t5 = protocol::for_circuits(count, f);
        lemma_all_concat(t3, t4, like);
        lemma_all_concat(t3 + t4, t5, like);
        assert(like((t3 + t4 + t5)[k]));
    }
    lemma_none_written(r);
    lemma_none_written(first);
    if query_instance {
        lemma_written_circuits::<F, P>(count, e.instance_evals);
        assert(e.instance_evals.take(count as int) =~= e.instance_evals);
    } else {
        lemma_flattened_empty(instance_evals);
        assert(written(i) == Seq::<F>::empty());
    }
    lemma_written_circuits::<F, P>(count, e.advice_evals);
    assert(e.advice_evals.take(count as int) =~= e.advice_evals);
    lemma_written_scalars::<F, P>(e.fixed_evals);
    lemma_written_concat(first, i);
    lemma_written_concat(first + i, a);
    lemma_written_concat(first + i + a, c);
    lemma_written_concat(first + i + a + c, r);
    assert(v =~= first + i + a + c + r);
    lemma_written_concat(q, v);
    lemma_written_concat(q + v, l);
    assert(written(q + v + l) =~= flattened(instance_evals) + flattened(e.advice_evals)
        + e.fixed_evals);
}

proof fn lemma_flattened_empty<X>(lists: Seq<Seq<X>>)
    requires
        forall|i: int| 0 <= i < lists.len() ==> (#[trigger] lists[i]).len() == 0,
    ensures
        flattened(lists) == Seq::<X>::empty(),
    decreases lists.len(),
{
    if lists.len() > 0 {
        let init = lists.drop_last();
        assert forall|i: int| 0 <= i < init.len() implies (#[trigger] init[i]).len() == 0 by {
            assert(init[i] == lists[i]);
        }
        lemma_flattened_empty(init);
        assert(lists.last() == lists[lists.len() - 1]);
        assert(flattened(lists) =~= Seq::empty());
    }
}

proof fn lemma_listed_of_proof<F: Field, P>(
    pk: &ProvingKey<F>,
    query_instance: bool,
    instance: Seq<InstanceSingle<F>>,
    advice: Seq<AdviceCommitted<F, LagrangeCoeff>>,
    challenges: Seq<F>,
    record: ProofRecord<F>,
    columns: Seq<Seq<Query<F>>>,
)
    requires
        advice.len() == instance.len(),
        protocol::proof_recorded(pk, query_instance, instance, advice, record),
        columns == Seq::new(
            instance.len(),
            |i: int| record.opening.circuits[i].instance + record.opening.circuits[i].advice,
        ),
    ensures
        ({
            let steps = protocol::quotient_steps::<F, P>(
                pk,
                instance,
                advice,
                challenges,
                record.quotient,
            ) + protocol::evaluation_steps::<F, P>(
                &pk.vk.cs,
                query_instance,
                instance.len(),
                record.evaluation,
            ) + protocol::opening_steps::<F, P>(
                instance.len(),
                record.evaluation.x,
                record.opening,
            );
            &&& steps.len() > 0
            &&& steps.last() == (Step::<F, P>::MultiOpen {
                queries: gathered(steps, columns) + record.opening.fixed + listed_for_all(steps),
            })
        }),
{
    let (e, o) = (record.evaluation, record.opening);
    let count = instance.len();
    assert(protocol::instance_polys_of(instance).len() == count);
    let q = protocol::quotient_steps::<F, P>(pk, instance, advice, challenges, record.quotient);
    let v = protocol::evaluation_steps::<F, P>(&pk.vk.cs, query_instance, count, e);
    let circuits = protocol::for_circuits(count, protocol::open_steps::<F, P>(o.circuits, e.x));
    let end = seq![
        Step::<F, P>::CommonPermutationOpened { x: e.x, queries: o.common },
        Step::<F, P>::VanishingOpened { x: e.x, queries: o.vanishing },
        Step::<F, P>::MultiOpen { queries: protocol::proof_queries(o) },
    ];
    let steps = q + v + (circuits + end);
    lemma_quotient_in_order::<F, P>(pk, instance, advice, challenges, record.quotient);
    lemma_evaluation_in_order::<F, P>(pk, query_instance, count, e);
    lemma_stages_in_order(q, v, 0, 6, 11);
    let e2 = end.take(2);
    let e1 = end.take(1);
    assert(end.drop_last() =~= e2 && e2.drop_last() =~= e1);
    assert(e1.drop_last() =~= Seq::empty());
    assert forall|i: int| listed_for(end, i) == Seq::<Query<F>>::empty() by {
        assert(listed_for(e1.drop_last(), i) == Seq::<Query<F>>::empty());
        assert(listed_for(e1, i) == Seq::<Query<F>>::empty());
        assert(listed_for(e2, i) == Seq::<Query<F>>::empty());
    }
    assert(listed_for_all(end) == o.common + o.vanishing) by {
        assert(listed_for_all(e1.drop_last()) == Seq::<Query<F>>::empty());
        assert(listed_for_all(e1) =~= o.common);
        assert(listed_for_all(e2) =~= o.common + o.vanishing);
    }
    assert forall|i: int| 0 <= i < count implies #[trigger] listed_for(steps, i)
        == o.circuits[i].permutation + protocol::concat(o.circuits[i].lookups) by {
        lemma_none_listed(q + v, i);
        lemma_circuits_listed::<F, P>(count, o.circuits, e.x, i);
        lemma_listed_concat(circuits, end, i);
        lemma_listed_concat(q + v, circuits + end, i);
        assert(listed_for(end, i) == Seq::<Query<F>>::empty());
        assert(listed_for(steps, i) =~= o.circuits[i].permutation + protocol::concat(
            o.circuits[i].lookups,
        ));
    }
    lemma_none_listed(q + v, 0);
    lemma_circuits_listed::<F, P>(count, o.circuits, e.x, 0);
    lemma_listed_concat(circuits, end, 0);
    lemma_listed_concat(q + v, circuits + end, 0);
    assert(listed_for_all(steps) =~= o.common + o.vanishing);
    lemma_gathered(steps, o.circuits, columns);
    assert(gathered(steps, columns) + o.fixed + listed_for_all(steps) =~= protocol::proof_queries(
        o,
    ));
    assert(steps.last() == end.last());
}

} // verus!
