//! What witness generation does, said of its steps alone: what it absorbs, which
//! columns it commits to and in which order, and which challenges it squeezes when.

use super::account;
use super::channel;
use super::channel::Step;
use super::circuit;
use super::circuit::Phase;
use super::steps;
use super::steps::{CircuitRecord, PhaseRecord};
use super::witness;
use super::witness::{AdviceCommitted, InstanceSingle};
use super::{ConstraintSystem, ProvingKey};
use crate::curve::Curve;
use crate::field::Field;
use crate::poly::commitment;
use crate::poly::commitment::{Blind, Params};
use crate::poly::{LagrangeCoeff, Polynomial};
use vstd::prelude::*;

verus! {

/// The points that were written, in order.
pub open spec fn points_written<F, P>(steps: Seq<Step<F, P>>) -> Seq<P>
    decreases steps.len(),
{
    if steps.len() == 0 {
        Seq::empty()
    } else {
        let before = points_written(steps.drop_last());
        match steps.last() {
            Step::WritePoint(point) => before.push(point),
            _ => before,
        }
    }
}

/// The points that were absorbed and not written, in order.
pub open spec fn points_absorbed<F, P>(steps: Seq<Step<F, P>>) -> Seq<P>
    decreases steps.len(),
{
    if steps.len() == 0 {
        Seq::empty()
    } else {
        let before = points_absorbed(steps.drop_last());
        match steps.last() {
            Step::CommonPoint(point) => before.push(point),
            _ => before,
        }
    }
}

/// The scalars that were absorbed and not written, in order.
pub open spec fn scalars_absorbed<F, P>(steps: Seq<Step<F, P>>) -> Seq<F>
    decreases steps.len(),
{
    if steps.len() == 0 {
        Seq::empty()
    } else {
        let before = scalars_absorbed(steps.drop_last());
        match steps.last() {
            Step::CommonScalar(scalar) => before.push(scalar),
            _ => before,
        }
    }
}

proof fn lemma_points_concat<F, P>(a: Seq<Step<F, P>>, b: Seq<Step<F, P>>)
    ensures
        points_written(a + b) == points_written(a) + points_written(b),
        points_absorbed(a + b) == points_absorbed(a) + points_absorbed(b),
        scalars_absorbed(a + b) == scalars_absorbed(a) + scalars_absorbed(b),
    decreases b.len(),
{
    if b.len() == 0 {
        assert(a + b =~= a);
        assert(points_written(a) + points_written(b) =~= points_written(a));
        assert(points_absorbed(a) + points_absorbed(b) =~= points_absorbed(a));
        assert(scalars_absorbed(a) + scalars_absorbed(b) =~= scalars_absorbed(a));
    } else {
        lemma_points_concat(a, b.drop_last());
        assert((a + b).drop_last() =~= a + b.drop_last());
        assert((a + b).last() == b.last());
        assert(points_written(a + b) =~= points_written(a) + points_written(b));
        assert(points_absorbed(a + b) =~= points_absorbed(a) + points_absorbed(b));
        assert(scalars_absorbed(a + b) =~= scalars_absorbed(a) + scalars_absorbed(b));
    }
}

/// Steps of other kinds absorb and write nothing.
proof fn lemma_no_points<F, P>(steps: Seq<Step<F, P>>)
    ensures
        (forall|k: int| 0 <= k < steps.len() ==> !((#[trigger] steps[k]) is WritePoint))
            ==> points_written(steps) == Seq::<P>::empty(),
        (forall|k: int| 0 <= k < steps.len() ==> !((#[trigger] steps[k]) is CommonPoint))
            ==> points_absorbed(steps) == Seq::<P>::empty(),
        (forall|k: int| 0 <= k < steps.len() ==> !((#[trigger] steps[k]) is CommonScalar))
            ==> scalars_absorbed(steps) == Seq::<F>::empty(),
    decreases steps.len(),
{
    if steps.len() > 0 {
        let init = steps.drop_last();
        lemma_no_points(init);
        assert(steps.last() == steps[steps.len() - 1]);
        assert(forall|k: int| 0 <= k < init.len() ==> #[trigger] init[k] == steps[k]);
    }
}

proof fn lemma_points_of_writes<F, P>(points: Seq<P>)
    ensures
        points_written(steps::write_steps::<F, P>(points)) == points,
        points_absorbed(steps::point_steps::<F, P>(points)) == points,
    decreases points.len(),
{
    let (w, a) = (steps::write_steps::<F, P>(points), steps::point_steps::<F, P>(points));
    if points.len() > 0 {
        let init = points.drop_last();
        lemma_points_of_writes::<F, P>(init);
        assert(w.drop_last() =~= steps::write_steps::<F, P>(init));
        assert(a.drop_last() =~= steps::point_steps::<F, P>(init));
        assert(w.last() == Step::<F, P>::WritePoint(points.last()));
        assert(a.last() == Step::<F, P>::CommonPoint(points.last()));
    }
    assert(points_written(w) =~= points);
    assert(points_absorbed(a) =~= points);
}

proof fn lemma_scalars_of_column<F, P>(values: Seq<F>)
    ensures
        scalars_absorbed(steps::scalar_steps::<F, P>(values)) == values,
    decreases values.len(),
{
    let a = steps::scalar_steps::<F, P>(values);
    if values.len() > 0 {
        let init = values.drop_last();
        lemma_scalars_of_column::<F, P>(init);
        assert(a.drop_last() =~= steps::scalar_steps::<F, P>(init));
        assert(a.last() == Step::<F, P>::CommonScalar(values.last()));
    }
    assert(scalars_absorbed(a) =~= values);
}

proof fn lemma_scalars_of_columns<F, P>(columns: Seq<Seq<F>>)
    ensures
        scalars_absorbed(steps::column_scalar_steps::<F, P>(columns)) == account::flattened(
            columns,
        ),
        forall|k: int|
            0 <= k < steps::column_scalar_steps::<F, P>(columns).len() ==> (
            #[trigger] steps::column_scalar_steps::<F, P>(columns)[k]) is CommonScalar,
    decreases columns.len(),
{
    if columns.len() > 0 {
        let init = columns.drop_last();
        lemma_scalars_of_columns::<F, P>(init);
        lemma_scalars_of_column::<F, P>(columns.last());
        lemma_points_concat(
            steps::column_scalar_steps::<F, P>(init),
            steps::scalar_steps::<F, P>(columns.last()),
        );
    }
}

proof fn lemma_squeezes_of<F, P>(challenges: Seq<F>)
    ensures
        account::squeezed(steps::squeeze_steps::<F, P>(challenges)) == challenges,
    decreases challenges.len(),
{
    let a = steps::squeeze_steps::<F, P>(challenges);
    if challenges.len() > 0 {
        let init = challenges.drop_last();
        lemma_squeezes_of::<F, P>(init);
        assert(a.drop_last() =~= steps::squeeze_steps::<F, P>(init));
        assert(a.last() == Step::<F, P>::Squeeze(challenges.last()));
    }
    assert(account::squeezed(a) =~= challenges);
}

/// The tails of columns are drawn and nothing else is done.
proof fn lemma_tails_are_drawn<F, P>(columns: Seq<Seq<F>>, start: int)
    ensures
        forall|k: int|
            0 <= k < steps::tail_steps::<F, P>(columns, start).len() ==> (
            #[trigger] steps::tail_steps::<F, P>(columns, start)[k]) is Random,
    decreases columns.len(),
{
    if columns.len() > 0 {
        lemma_tails_are_drawn::<F, P>(columns.drop_last(), start);
    }
}

/// The first part of a phase, in which nothing is squeezed: its columns are blinded
/// and committed to.
pub(crate) open spec fn commit_steps<F, P>(record: PhaseRecord<F, P>, start: int) -> Seq<
    Step<F, P>,
> {
    steps::tail_steps(record.values, start) + steps::random_steps(record.blinds)
        + steps::write_steps(record.points)
}

proof fn lemma_commit_steps<F, P>(record: PhaseRecord<F, P>, start: int)
    ensures
        points_written(commit_steps(record, start)) == record.points,
        points_absorbed(commit_steps(record, start)) == Seq::<P>::empty(),
        scalars_absorbed(commit_steps(record, start)) == Seq::<F>::empty(),
        account::squeezed(commit_steps(record, start)) == Seq::<F>::empty(),
        forall|k: int|
            0 <= k < commit_steps(record, start).len() ==> (#[trigger] commit_steps(
                record,
                start,
            )[k]) is Random || commit_steps(record, start)[k] is WritePoint,
        steps::phase_steps(record, start) == commit_steps(record, start) + steps::squeeze_steps(
            record.challenges,
        ),
{
    let a = steps::tail_steps::<F, P>(record.values, start);
    let b = steps::random_steps::<F, P>(record.blinds);
    let c = steps::write_steps::<F, P>(record.points);
    lemma_tails_are_drawn::<F, P>(record.values, start);
    lemma_no_points(a);
    lemma_no_points(b);
    lemma_no_points(c);
    lemma_points_of_writes::<F, P>(record.points);
    lemma_points_concat(a, b);
    lemma_points_concat(a + b, c);
    account::lemma_none_squeezed(a + b + c);
    assert(points_written(a + b + c) =~= record.points);
    assert(points_absorbed(a + b + c) =~= Seq::empty());
    assert(scalars_absorbed(a + b + c) =~= Seq::empty());
}

/// Which of two columns or challenges comes first: the one of the earlier phase, and
/// of those of the same phase the one with the lower index.
pub open spec fn comes_first(phases: Seq<Phase>, a: int, b: int) -> bool {
    phases[a].0 < phases[b].0 || (phases[a].0 == phases[b].0 && a < b)
}

/// The list holds every index once, in the order of phases and indices.
pub open spec fn is_listing(phases: Seq<Phase>, list: Seq<int>) -> bool {
    &&& forall|t: int| 0 <= t < list.len() ==> 0 <= #[trigger] list[t] < phases.len()
    &&& forall|t: int, u: int|
        0 <= t < u < list.len() ==> comes_first(phases, #[trigger] list[t], #[trigger] list[u])
    &&& forall|c: int| 0 <= c < phases.len() ==> #[trigger] list.contains(c)
}

/// The indices of the first phases.
pub(crate) open spec fn listing(phases: Seq<Phase>, count: nat) -> Seq<int>
    decreases count,
{
    if count == 0 {
        Seq::empty()
    } else {
        listing(phases, (count - 1) as nat) + steps::indices_of_phase(
            phases,
            count - 1,
        ).map_values(|i: usize| i as int)
    }
}

proof fn lemma_listing(phases: Seq<Phase>, count: nat)
    requires
        phases.len() <= usize::MAX,
    ensures
        forall|t: int|
            #![trigger listing(phases, count)[t]]
            0 <= t < listing(phases, count).len() ==> 0 <= listing(phases, count)[t]
                < phases.len() && phases[listing(phases, count)[t]].0 < count,
        forall|t: int, u: int|
            0 <= t < u < listing(phases, count).len() ==> comes_first(
                phases,
                #[trigger] listing(phases, count)[t],
                #[trigger] listing(phases, count)[u],
            ),
        forall|c: int|
            0 <= c < phases.len() && phases[c].0 < count ==> #[trigger] listing(
                phases,
                count,
            ).contains(c),
    decreases count,
{
    if count > 0 {
        let p = count - 1;
        let a = listing(phases, p as nat);
        let indices = steps::indices_of_phase(phases, p);
        let b = indices.map_values(|i: usize| i as int);
        let ab = a + b;
        lemma_listing(phases, p as nat);
        steps::lemma_indices_of_phase(phases, p);
        assert forall|t: int| 0 <= t < b.len() implies 0 <= #[trigger] b[t] < phases.len()
            && phases[b[t]].0 == p by {
            assert(b[t] == indices[t]);
        }
        assert forall|t: int|
            #![trigger ab[t]]
            0 <= t < ab.len() implies 0 <= ab[t] < phases.len() && phases[ab[t]].0 < count by {
            if t < a.len() {
                assert(ab[t] == a[t]);
            } else {
                assert(ab[t] == b[t - a.len()]);
            }
        }
        assert forall|t: int, u: int| 0 <= t < u < ab.len() implies comes_first(
            phases,
            #[trigger] ab[t],
            #[trigger] ab[u],
        ) by {
            if u < a.len() {
                assert(ab[t] == a[t] && ab[u] == a[u]);
            } else if t >= a.len() {
                let (x, y) = (t - a.len(), u - a.len());
                assert(ab[t] == b[x] && ab[u] == b[y]);
                assert(indices[x] < indices[y]);
            } else {
                assert(ab[t] == a[t] && ab[u] == b[u - a.len()]);
            }
        }
        assert forall|c: int| 0 <= c < phases.len() && phases[c].0 < count implies
            #[trigger] ab.contains(c) by {
            if phases[c].0 < p {
                assert(a.contains(c));
                let t = choose|t: int| 0 <= t < a.len() && a[t] == c;
                assert(ab[t] == c);
            } else {
                assert(phases[c].0 == p);
                assert(indices.contains(c as usize));
                let t = choose|t: int| 0 <= t < indices.len() && indices[t] == c as usize;
                assert(b[t] == c);
                assert(ab[a.len() + t] == c);
            }
        }
    }
}

/// Columns are listed before others exactly if they are of no later phase.
proof fn lemma_listing_cut(phases: Seq<Phase>, cut: nat, count: nat, u: int)
    requires
        phases.len() <= usize::MAX,
        cut <= count,
        0 <= u < listing(phases, count).len(),
    ensures
        listing(phases, cut).len() <= listing(phases, count).len(),
        u < listing(phases, cut).len() <==> phases[listing(phases, count)[u]].0 < cut,
        u < listing(phases, cut).len() ==> listing(phases, cut)[u] == listing(phases, count)[u],
    decreases count,
{
    lemma_listing(phases, count);
    lemma_listing(phases, cut);
    if cut < count {
        let p = count - 1;
        let a = listing(phases, p as nat);
        let indices = steps::indices_of_phase(phases, p);
        let b = indices.map_values(|i: usize| i as int);
        steps::lemma_indices_of_phase(phases, p);
        lemma_cut_shorter(phases, cut, p as nat);
        if u < a.len() {
            lemma_listing_cut(phases, cut, p as nat, u);
            assert((a + b)[u] == a[u]);
        } else {
            assert((a + b)[u] == b[u - a.len()]);
            assert(b[u - a.len()] == indices[u - a.len()]);
        }
    }
}

proof fn lemma_cut_shorter(phases: Seq<Phase>, cut: nat, count: nat)
    requires
        cut <= count,
    ensures
        listing(phases, cut).len() <= listing(phases, count).len(),
    decreases count,
{
    if cut < count {
        lemma_cut_shorter(phases, cut, (count - 1) as nat);
    }
}

/// The points that are written are commitments to the listed columns, each under its
/// own blind; the challenges that are squeezed are the listed ones. A challenge is
/// squeezed once all columns of its phase and of the phases before are committed to,
/// and none of a later phase.
pub open spec fn commits_listed<F: Field, C: Curve, S: Params<F, C>>(
    params: &S,
    cs: &ConstraintSystem,
    columns: Seq<Polynomial<F, LagrangeCoeff>>,
    blinds: Seq<Blind<F>>,
    challenges: Seq<F>,
    listed: (Seq<int>, Seq<int>),
    steps: Seq<Step<F, C::AffineRepr>>,
) -> bool {
    &&& points_written(steps).len() == listed.0.len()
    &&& account::squeezed(steps).len() == listed.1.len()
    &&& forall|t: int|
        0 <= t < listed.0.len() ==> commitment::commits_to::<F, C, S>(
            params,
            columns[listed.0[t]]@,
            blinds[listed.0[t]].0,
            #[trigger] points_written(steps)[t],
        )
    &&& forall|t: int|
        0 <= t < listed.1.len() ==> #[trigger] account::squeezed(steps)[t]
            == challenges[listed.1[t]]
    &&& forall|k: int, u: int|
        #![trigger steps[k], listed.0[u]]
        0 <= k < steps.len() && steps[k] is Squeeze && 0 <= u < listed.0.len() ==> {
            let t = account::squeezed(steps.take(k)).len() as int;
            u < points_written(steps.take(k)).len() <==> cs.advice_column_phase@[listed.0[u]].0
                <= cs.challenge_phase@[listed.1[t]].0
        }
}

/// The phases are those of a circuit.
pub(crate) open spec fn are_phases<F: Field, C: Curve, S: Params<F, C>>(
    params: &S,
    cs: &ConstraintSystem,
    advice: AdviceCommitted<F, LagrangeCoeff>,
    challenges: Seq<F>,
    phases: Seq<PhaseRecord<F, C::AffineRepr>>,
) -> bool {
    forall|p: int|
        #![trigger phases[p]]
        0 <= p < phases.len() ==> {
            &&& steps::phase_committed::<F, C, S>(params, phases[p])
            &&& witness::phase_matches(cs, p, advice, challenges, phases[p])
        }
}

/// What is written and squeezed in the first phases.
proof fn lemma_phases_write<F: Field, C: Curve, S: Params<F, C>>(
    params: &S,
    cs: &ConstraintSystem,
    advice: AdviceCommitted<F, LagrangeCoeff>,
    challenges: Seq<F>,
    phases: Seq<PhaseRecord<F, C::AffineRepr>>,
    start: int,
)
    requires
        are_phases::<F, C, S>(params, cs, advice, challenges, phases),
    ensures
        ({
            let steps = steps::phases_steps(phases, start);
            let columns = listing(cs.advice_column_phase@, phases.len());
            let indices = listing(cs.challenge_phase@, phases.len());
            &&& points_written(steps).len() == columns.len()
            &&& account::squeezed(steps).len() == indices.len()
            &&& forall|t: int|
                0 <= t < columns.len() ==> commitment::commits_to::<F, C, S>(
                    params,
                    advice.advice_polys@[columns[t]]@,
                    advice.advice_blinds@[columns[t]].0,
                    #[trigger] points_written(steps)[t],
                )
            &&& forall|t: int|
                0 <= t < indices.len() ==> #[trigger] account::squeezed(steps)[t]
                    == challenges[indices[t]]
            &&& points_absorbed(steps) == Seq::<C::AffineRepr>::empty()
            &&& scalars_absorbed(steps) == Seq::<F>::empty()
            &&& forall|k: int|
                0 <= k < steps.len() ==> (#[trigger] steps[k]) is Random || steps[k] is WritePoint
                    || steps[k] is Squeeze
        }),
    decreases phases.len(),
{
    if phases.len() > 0 {
        let init = phases.drop_last();
        let p = phases.len() - 1;
        let record = phases.last();
        assert(record == phases[p]);
        assert(are_phases::<F, C, S>(params, cs, advice, challenges, init)) by {
            assert forall|q: int|
                #![trigger init[q]]
                0 <= q < init.len() implies steps::phase_committed::<F, C, S>(params, init[q])
                && witness::phase_matches(cs, q, advice, challenges, init[q]) by {
                assert(init[q] == phases[q]);
            }
        }
        lemma_phases_write::<F, C, S>(params, cs, advice, challenges, init, start);
        let a = steps::phases_steps(init, start);
        let b = commit_steps(record, start);
        let c = steps::squeeze_steps::<F, C::AffineRepr>(record.challenges);
        let steps = steps::phases_steps(phases, start);
        lemma_commit_steps(record, start);
        lemma_no_points(c);
        lemma_squeezes_of::<F, C::AffineRepr>(record.challenges);
        assert(steps =~= a + (b + c));
        lemma_points_concat(b, c);
        lemma_points_concat(a, b + c);
        account::lemma_squeezed_concat(b, c);
        account::lemma_squeezed_concat(a, b + c);
        assert(points_written(steps) =~= points_written(a) + record.points);
        assert(points_absorbed(steps) =~= Seq::empty());
        assert(scalars_absorbed(steps) =~= Seq::empty());
        assert(account::squeezed(steps) =~= account::squeezed(a) + record.challenges);
        let before = listing(cs.advice_column_phase@, p as nat);
        let list = steps::indices_of_phase(cs.advice_column_phase@, p);
        let columns = listing(cs.advice_column_phase@, phases.len());
        assert forall|t: int| 0 <= t < columns.len() implies commitment::commits_to::<F, C, S>(
            params,
            advice.advice_polys@[columns[t]]@,
            advice.advice_blinds@[columns[t]].0,
            #[trigger] points_written(steps)[t],
        ) by {
            if t < before.len() {
                assert(columns[t] == before[t]);
                assert(points_written(steps)[t] == points_written(a)[t]);
            } else {
                let j = t - before.len();
                assert(columns[t] == list[j]);
                assert(points_written(steps)[t] == record.points[j]);
            }
        }
        let known = listing(cs.challenge_phase@, p as nat);
        let more = steps::indices_of_phase(cs.challenge_phase@, p);
        let indices = listing(cs.challenge_phase@, phases.len());
        assert forall|t: int| 0 <= t < indices.len() implies #[trigger] account::squeezed(steps)[t]
            == challenges[indices[t]] by {
            if t < known.len() {
                assert(indices[t] == known[t]);
                assert(account::squeezed(steps)[t] == account::squeezed(a)[t]);
            } else {
                let j = t - known.len();
                assert(indices[t] == more[j]);
                assert(account::squeezed(steps)[t] == record.challenges[j]);
            }
        }
        assert forall|k: int| 0 <= k < steps.len() implies (#[trigger] steps[k]) is Random
            || steps[k] is WritePoint || steps[k] is Squeeze by {
            if k < a.len() {
                assert(steps[k] == a[k]);
            } else if k < a.len() + b.len() {
                assert(steps[k] == b[k - a.len()]);
            } else {
                assert(steps[k] == c[k - a.len() - b.len()]);
            }
        }
    }
}

/// When a challenge is squeezed, its phase and those before it are committed to.
proof fn lemma_phases_squeeze<F: Field, C: Curve, S: Params<F, C>>(
    params: &S,
    cs: &ConstraintSystem,
    advice: AdviceCommitted<F, LagrangeCoeff>,
    challenges: Seq<F>,
    phases: Seq<PhaseRecord<F, C::AffineRepr>>,
    start: int,
    k: int,
)
    requires
        cs.challenge_phase@.len() <= usize::MAX,
        are_phases::<F, C, S>(params, cs, advice, challenges, phases),
        0 <= k < steps::phases_steps(phases, start).len(),
        steps::phases_steps(phases, start)[k] is Squeeze,
    ensures
        ({
            let done = steps::phases_steps(phases, start).take(k);
            let indices = listing(cs.challenge_phase@, phases.len());
            let t = account::squeezed(done).len() as int;
            &&& t < indices.len()
            &&& points_written(done).len() == listing(
                cs.advice_column_phase@,
                (cs.challenge_phase@[indices[t]].0 + 1) as nat,
            ).len()
            &&& cs.challenge_phase@[indices[t]].0 < phases.len()
        }),
    decreases phases.len(),
{
    let init = phases.drop_last();
    let p = phases.len() - 1;
    let record = phases.last();
    assert(record == phases[p]);
    assert(are_phases::<F, C, S>(params, cs, advice, challenges, init)) by {
        assert forall|q: int|
            #![trigger init[q]]
            0 <= q < init.len() implies steps::phase_committed::<F, C, S>(params, init[q])
            && witness::phase_matches(cs, q, advice, challenges, init[q]) by {
            assert(init[q] == phases[q]);
        }
    }
    let a = steps::phases_steps(init, start);
    let b = commit_steps(record, start);
    let c = steps::squeeze_steps::<F, C::AffineRepr>(record.challenges);
    let steps = steps::phases_steps(phases, start);
    lemma_phases_write::<F, C, S>(params, cs, advice, challenges, init, start);
    lemma_commit_steps(record, start);
    assert(steps =~= a + b + c);
    let known = listing(cs.challenge_phase@, p as nat);
    let more = steps::indices_of_phase(cs.challenge_phase@, p);
    let indices = listing(cs.challenge_phase@, phases.len());
    if k < a.len() {
        assert(steps[k] == a[k]);
        assert(steps.take(k) =~= a.take(k));
        lemma_phases_squeeze::<F, C, S>(params, cs, advice, challenges, init, start, k);
        let t = account::squeezed(a.take(k)).len() as int;
        assert(indices[t] == known[t]);
    } else if k < a.len() + b.len() {
        assert(steps[k] == b[k - a.len()]);
    } else {
        let j = k - a.len() - b.len();
        let given = record.challenges.take(j);
        let d = steps::squeeze_steps::<F, C::AffineRepr>(given);
        assert(steps.take(k) =~= a + b + d);
        lemma_squeezes_of::<F, C::AffineRepr>(given);
        lemma_no_points(d);
        lemma_points_concat(a, b);
        lemma_points_concat(a + b, d);
        account::lemma_squeezed_concat(a, b);
        account::lemma_squeezed_concat(a + b, d);
        let t = known.len() + j;
        assert(indices[t] == more[j]);
        steps::lemma_indices_of_phase(cs.challenge_phase@, p);
    }
}

/// The listed columns and challenges of all phases are written and squeezed.
proof fn lemma_phases_listed<F: Field, C: Curve, S: Params<F, C>>(
    params: &S,
    cs: &ConstraintSystem,
    advice: AdviceCommitted<F, LagrangeCoeff>,
    challenges: Seq<F>,
    phases: Seq<PhaseRecord<F, C::AffineRepr>>,
    start: int,
)
    requires
        cs.advice_column_phase@.len() <= usize::MAX,
        cs.challenge_phase@.len() <= usize::MAX,
        are_phases::<F, C, S>(params, cs, advice, challenges, phases),
    ensures
        commits_listed::<F, C, S>(
            params,
            cs,
            advice.advice_polys@,
            advice.advice_blinds@,
            challenges,
            (
                listing(cs.advice_column_phase@, phases.len()),
                listing(cs.challenge_phase@, phases.len()),
            ),
            steps::phases_steps(phases, start),
        ),
{
    let steps = steps::phases_steps(phases, start);
    let columns = listing(cs.advice_column_phase@, phases.len());
    let indices = listing(cs.challenge_phase@, phases.len());
    lemma_phases_write::<F, C, S>(params, cs, advice, challenges, phases, start);
    assert forall|k: int, u: int|
        #![trigger steps[k], columns[u]]
        0 <= k < steps.len() && steps[k] is Squeeze && 0 <= u < columns.len() implies ({
        let t = account::squeezed(steps.take(k)).len() as int;
        u < points_written(steps.take(k)).len() <==> cs.advice_column_phase@[columns[u]].0
            <= cs.challenge_phase@[indices[t]].0
    }) by {
        lemma_phases_squeeze::<F, C, S>(params, cs, advice, challenges, phases, start, k);
        let t = account::squeezed(steps.take(k)).len() as int;
        let cut = (cs.challenge_phase@[indices[t]].0 + 1) as nat;
        lemma_listing_cut(cs.advice_column_phase@, cut, phases.len(), u);
    }
}

/// The step absorbs something that is not written.
pub open spec fn is_absorption<F, P>(step: Step<F, P>) -> bool {
    step is CommonPoint || step is CommonScalar
}

/// The steps absorb the instance columns of a circuit, before anything else: by
/// commitments to them as they are padded, in order, if they are queried, else value by
/// value as they were given.
pub open spec fn absorbs_first<F: Field, C: Curve, S: Params<F, C>>(
    params: &S,
    query_instance: bool,
    instances: Seq<Seq<F>>,
    padded: Seq<Polynomial<F, LagrangeCoeff>>,
    steps: Seq<Step<F, C::AffineRepr>>,
) -> bool {
    &&& forall|k: int, m: int|
        0 <= k < m < steps.len() && is_absorption(#[trigger] steps[m]) ==> is_absorption(
            #[trigger] steps[k],
        )
    &&& query_instance ==> {
        &&& scalars_absorbed(steps).len() == 0
        &&& points_absorbed(steps).len() == padded.len()
        &&& forall|c: int|
            0 <= c < padded.len() ==> commitment::commits_plainly::<F, C, S>(
                params,
                padded[c]@,
                #[trigger] points_absorbed(steps)[c],
            )
    }
    &&& !query_instance ==> {
        &&& points_absorbed(steps).len() == 0
        &&& scalars_absorbed(steps) == account::flattened(instances)
    }
}

/// The steps commit to the witness of a circuit, and do nothing else: its instance
/// columns are absorbed, then every advice column is committed to once, in the order
/// of the phases and of the columns in them, and every challenge is squeezed once, in
/// the order of the phases and of their indices.
pub open spec fn commits_circuit<F: Field, C: Curve, S: Params<F, C>>(
    params: &S,
    cs: &ConstraintSystem,
    query_instance: bool,
    instances: Seq<Seq<F>>,
    padded: Seq<Polynomial<F, LagrangeCoeff>>,
    columns: Seq<Polynomial<F, LagrangeCoeff>>,
    blinds: Seq<Blind<F>>,
    challenges: Seq<F>,
    steps: Seq<Step<F, C::AffineRepr>>,
) -> bool {
    &&& forall|k: int|
        0 <= k < steps.len() ==> is_absorption(#[trigger] steps[k]) || steps[k] is Random
            || steps[k] is WritePoint || steps[k] is Squeeze
    &&& absorbs_first::<F, C, S>(params, query_instance, instances, padded, steps)
    &&& exists|listed: (Seq<int>, Seq<int>)|
        {
            &&& is_listing(cs.advice_column_phase@, listed.0)
            &&& is_listing(cs.challenge_phase@, listed.1)
            &&& #[trigger] commits_listed::<F, C, S>(
                params,
                cs,
                columns,
                blinds,
                challenges,
                listed,
                steps,
            )
        }
}

/// Absorbing something first changes nothing in what is written and squeezed.
proof fn lemma_listed_after<F: Field, C: Curve, S: Params<F, C>>(
    params: &S,
    cs: &ConstraintSystem,
    columns: Seq<Polynomial<F, LagrangeCoeff>>,
    blinds: Seq<Blind<F>>,
    challenges: Seq<F>,
    listed: (Seq<int>, Seq<int>),
    first: Seq<Step<F, C::AffineRepr>>,
    rest: Seq<Step<F, C::AffineRepr>>,
)
    requires
        account::all(first, |s: Step<F, C::AffineRepr>| is_absorption(s)),
        commits_listed::<F, C, S>(params, cs, columns, blinds, challenges, listed, rest),
    ensures
        commits_listed::<F, C, S>(params, cs, columns, blinds, challenges, listed, first + rest),
{
    let steps = first + rest;
    lemma_no_points(first);
    account::lemma_none_squeezed(first);
    lemma_points_concat(first, rest);
    account::lemma_squeezed_concat(first, rest);
    assert(points_written(steps) =~= points_written(rest));
    assert(account::squeezed(steps) =~= account::squeezed(rest));
    assert forall|k: int, u: int|
        #![trigger steps[k], listed.0[u]]
        0 <= k < steps.len() && steps[k] is Squeeze && 0 <= u < listed.0.len() implies ({
        let t = account::squeezed(steps.take(k)).len() as int;
        u < points_written(steps.take(k)).len() <==> cs.advice_column_phase@[listed.0[u]].0
            <= cs.challenge_phase@[listed.1[t]].0
    }) by {
        if k < first.len() {
            assert(steps[k] == first[k]);
        } else {
            let j = k - first.len();
            assert(steps[k] == rest[j]);
            assert(steps.take(k) =~= first + rest.take(j));
            lemma_points_concat(first, rest.take(j));
            account::lemma_squeezed_concat(first, rest.take(j));
        }
    }
}

proof fn lemma_absorbed<F: Field, C: Curve, S: Params<F, C>>(
    params: &S,
    query_instance: bool,
    instances: Seq<Seq<F>>,
    padded: Seq<Polynomial<F, LagrangeCoeff>>,
    points: Seq<C::AffineRepr>,
    rest: Seq<Step<F, C::AffineRepr>>,
)
    requires
        query_instance ==> steps::instances_committed::<F, C, S>(
            params,
            channel::values_of(padded),
            points,
        ),
        points_absorbed(rest) == Seq::<C::AffineRepr>::empty(),
        scalars_absorbed(rest) == Seq::<F>::empty(),
        account::all(rest, |s: Step<F, C::AffineRepr>| !is_absorption(s)),
    ensures
        account::all(
            steps::absorb_steps(query_instance, instances, points),
            |s: Step<F, C::AffineRepr>| is_absorption(s),
        ),
        absorbs_first::<F, C, S>(
            params,
            query_instance,
            instances,
            padded,
            steps::absorb_steps(query_instance, instances, points) + rest,
        ),
{
    let first = steps::absorb_steps::<F, C::AffineRepr>(query_instance, instances, points);
    let steps = first + rest;
    if query_instance {
        lemma_points_of_writes::<F, C::AffineRepr>(points);
    } else {
        lemma_scalars_of_columns::<F, C::AffineRepr>(instances);
    }
    lemma_no_points(first);
    lemma_points_concat(first, rest);
    let absorbs = |s: Step<F, C::AffineRepr>| is_absorption(s);
    let others = |s: Step<F, C::AffineRepr>| !is_absorption(s);
    assert forall|k: int, m: int|
        0 <= k < m < steps.len() && is_absorption(#[trigger] steps[m]) implies is_absorption(
        #[trigger] steps[k],
    ) by {
        if m >= first.len() {
            assert(steps[m] == rest[m - first.len()]);
            assert(others(rest[m - first.len()]));
        } else {
            assert(steps[k] == first[k]);
        }
    }
    assert(points_absorbed(steps) =~= points_absorbed(first));
    assert(scalars_absorbed(steps) =~= scalars_absorbed(first));
    if query_instance {
        assert forall|c: int| 0 <= c < padded.len() implies commitment::commits_plainly::<F, C, S>(
            params,
            padded[c]@,
            #[trigger] points_absorbed(steps)[c],
        ) by {
            assert(points_absorbed(steps)[c] == points[c]);
            assert(channel::values_of(padded)[c] == padded[c]@);
        }
    }
}

proof fn lemma_circuit_commits<F: Field, C: Curve, S: Params<F, C>>(
    params: &S,
    cs: &ConstraintSystem,
    query_instance: bool,
    instances: Seq<Seq<F>>,
    single: InstanceSingle<F>,
    advice: AdviceCommitted<F, LagrangeCoeff>,
    challenges: Seq<F>,
    record: CircuitRecord<F, C::AffineRepr>,
    start: int,
)
    requires
        cs.wf(),
        witness::circuit_recorded::<F, C, S>(
            params,
            cs,
            query_instance,
            single,
            advice,
            challenges,
            record,
        ),
    ensures
        commits_circuit::<F, C, S>(
            params,
            cs,
            query_instance,
            instances,
            single.instance_values@,
            advice.advice_polys@,
            advice.advice_blinds@,
            challenges,
            steps::circuit_steps(record, query_instance, instances, start),
        ),
{
    let count = record.phases.len();
    circuit::lemma_phases_spanned(cs.advice_column_phase@, circuit::MAX_PHASES as int);
    assert(are_phases::<F, C, S>(params, cs, advice, challenges, record.phases));
    let first = steps::absorb_steps::<F, C::AffineRepr>(
        query_instance,
        instances,
        record.instance_points,
    );
    let rest = steps::phases_steps(record.phases, start);
    let steps = steps::circuit_steps(record, query_instance, instances, start);
    lemma_phases_write::<F, C, S>(params, cs, advice, challenges, record.phases, start);
    lemma_phases_listed::<F, C, S>(params, cs, advice, challenges, record.phases, start);
    let others = |s: Step<F, C::AffineRepr>| !is_absorption(s);
    assert(account::all(rest, others));
    lemma_absorbed::<F, C, S>(
        params,
        query_instance,
        instances,
        single.instance_values@,
        record.instance_points,
        rest,
    );
    let listed = (
        listing(cs.advice_column_phase@, count),
        listing(cs.challenge_phase@, count),
    );
    lemma_listing(cs.advice_column_phase@, count);
    lemma_listing(cs.challenge_phase@, count);
    assert(is_listing(cs.advice_column_phase@, listed.0));
    assert(is_listing(cs.challenge_phase@, listed.1));
    lemma_listed_after::<F, C, S>(
        params,
        cs,
        advice.advice_polys@,
        advice.advice_blinds@,
        challenges,
        listed,
        first,
        rest,
    );
    assert forall|k: int| 0 <= k < steps.len() implies is_absorption(#[trigger] steps[k])
        || steps[k] is Random || steps[k] is WritePoint || steps[k] is Squeeze by {
        let absorbs = |s: Step<F, C::AffineRepr>| is_absorption(s);
        if k < first.len() {
            assert(steps[k] == first[k]);
            assert(absorbs(first[k]));
        } else {
            assert(steps[k] == rest[k - first.len()]);
        }
    }
}

/// Each of the lists of steps commits to the witness of one circuit, in order.
pub open spec fn are_commitments<F: Field, C: Curve, S: Params<F, C>>(
    params: &S,
    cs: &ConstraintSystem,
    query_instance: bool,
    instances: Seq<Seq<Seq<F>>>,
    instance: Seq<InstanceSingle<F>>,
    advice: Seq<AdviceCommitted<F, LagrangeCoeff>>,
    challenges: Seq<F>,
    parts: Seq<Seq<Step<F, C::AffineRepr>>>,
) -> bool {
    &&& parts.len() == instances.len()
    &&& advice.len() == instances.len()
    &&& challenges.len() == cs.num_challenges
    &&& forall|i: int|
        0 <= i < parts.len() ==> {
            &&& (#[trigger] advice[i]).advice_polys@.len() == cs.num_advice_columns
            &&& advice[i].advice_blinds@.len() == cs.num_advice_columns
            &&& commits_circuit::<F, C, S>(
                params,
                cs,
                query_instance,
                instances[i],
                instance[i].instance_values@,
                advice[i].advice_polys@,
                advice[i].advice_blinds@,
                challenges,
                parts[i],
            )
        }
}

proof fn lemma_circuits_flattened<F, P>(
    records: Seq<CircuitRecord<F, P>>,
    query_instance: bool,
    instances: Seq<Seq<Seq<F>>>,
    start: int,
    parts: Seq<Seq<Step<F, P>>>,
)
    requires
        parts.len() == records.len(),
        forall|i: int|
            0 <= i < records.len() ==> #[trigger] parts[i] == steps::circuit_steps(
                records[i],
                query_instance,
                instances[i],
                start,
            ),
    ensures
        steps::circuits_steps(records, query_instance, instances, start) == account::flattened(
            parts,
        ),
    decreases records.len(),
{
    if records.len() > 0 {
        let (r, p) = (records.drop_last(), parts.drop_last());
        assert forall|i: int| 0 <= i < r.len() implies #[trigger] p[i] == steps::circuit_steps(
            r[i],
            query_instance,
            instances[i],
            start,
        ) by {
            assert(p[i] == parts[i]);
        }
        lemma_circuits_flattened(r, query_instance, instances, start, p);
        assert(parts.last() == parts[parts.len() - 1]);
    }
}

/// The steps of witness generation commit to the witness of one circuit after the
/// other: see [`commits_circuit`].
pub proof fn lemma_commitments_of_circuits<F: Field, C: Curve, S: Params<F, C>>(
    params: &S,
    pk: &ProvingKey<F>,
    query_instance: bool,
    instances: Seq<Seq<Seq<F>>>,
    instance: Seq<InstanceSingle<F>>,
    advice: Seq<AdviceCommitted<F, LagrangeCoeff>>,
    challenges: Seq<F>,
    before: Seq<Step<F, C::AffineRepr>>,
    after: Seq<Step<F, C::AffineRepr>>,
)
    requires
        pk.vk.cs.wf(),
        witness::is_phase1::<F, C, S>(
            params,
            pk,
            query_instance,
            instances,
            instance,
            advice,
            challenges,
            before,
            after,
        ),
    ensures
        exists|parts: Seq<Seq<Step<F, C::AffineRepr>>>|
            after == before + account::flattened(parts) && #[trigger] are_commitments::<F, C, S>(
                params,
                &pk.vk.cs,
                query_instance,
                instances,
                instance,
                advice,
                challenges,
                parts,
            ),
{
    let cs = &pk.vk.cs;
    let start = pk.unusable_rows_start();
    let records = choose|records: Seq<CircuitRecord<F, C::AffineRepr>>|
        {
            &&& #[trigger] witness::all_recorded::<F, C, S>(
                params,
                cs,
                query_instance,
                instance,
                advice,
                challenges,
                records,
            )
            &&& after == before + steps::circuits_steps(records, query_instance, instances, start)
        };
    let parts = Seq::new(
        records.len(),
        |i: int| steps::circuit_steps(records[i], query_instance, instances[i], start),
    );
    lemma_circuits_flattened(records, query_instance, instances, start, parts);
    assert forall|i: int| 0 <= i < parts.len() implies {
        &&& (#[trigger] advice[i]).advice_polys@.len() == cs.num_advice_columns
        &&& advice[i].advice_blinds@.len() == cs.num_advice_columns
        &&& commits_circuit::<F, C, S>(
            params,
            cs,
            query_instance,
            instances[i],
            instance[i].instance_values@,
            advice[i].advice_polys@,
            advice[i].advice_blinds@,
            challenges,
            parts[i],
        )
    } by {
        assert(witness::circuit_recorded::<F, C, S>(
            params,
            cs,
            query_instance,
            instance[i],
            advice[i],
            challenges,
            records[i],
        ));
        lemma_circuit_commits::<F, C, S>(
            params,
            cs,
            query_instance,
            instances[i],
            instance[i],
            advice[i],
            challenges,
            records[i],
            start,
        );
    }
    assert(are_commitments::<F, C, S>(
        params,
        cs,
        query_instance,
        instances,
        instance,
        advice,
        challenges,
        parts,
    ));
}

} // verus!
