//! Commitments to the columns of a circuit.

use super::channel;
use super::channel::{Channel, Step};
use super::steps;
use super::steps::PhaseRecord;
use super::witness::AdviceCommitted;
use super::Error;
use crate::curve::Curve;
use crate::field::Field;
use crate::poly::commitment;
use crate::poly::commitment::{Blind, Params};
use crate::poly::{LagrangeCoeff, Polynomial};
use crate::rng::RandomSource;
use crate::transcript::TranscriptWrite;
use std::collections::HashMap;
use vstd::prelude::*;

verus! {

broadcast use {channel::group_channel, channel::lemma_stops_at};

/// The columns differ only in the rows from `start` on.
pub open spec fn same_above<F>(before: Seq<Seq<F>>, after: Seq<Seq<F>>, start: int) -> bool {
    &&& after.len() == before.len()
    &&& forall|i: int|
        0 <= i < after.len() ==> {
            &&& (#[trigger] after[i]).len() == before[i].len()
            &&& after[i].take(start) == before[i].take(start)
        }
}

/// Commits to each of the polynomials.
fn commit_all<F: Field, C: Curve, S: Params<F, C>>(
    params: &S,
    polys: &Vec<Polynomial<F, LagrangeCoeff>>,
    blinds: &Vec<Blind<F>>,
) -> (r: Vec<C::AffineRepr>)
    requires
        polys@.len() == blinds@.len(),
    ensures
        r@.len() == polys@.len(),
        forall|j: int|
            0 <= j < polys@.len() ==> commitment::commits_to::<F, C, S>(
                params,
                polys@[j]@,
                blinds@[j].0,
                #[trigger] r@[j],
            ),
{
    let mut projective: Vec<C> = Vec::new();
    let mut i: usize = 0;
    while i < polys.len()
        invariant
            polys@.len() == blinds@.len(),
            i <= polys@.len(),
            projective@.len() == i,
            forall|j: int|
                0 <= j < i ==> params.is_commitment(
                    &polys@[j],
                    blinds@[j],
                    #[trigger] projective@[j],
                ),
        decreases polys@.len() - i,
    {
        projective.push(params.commit_lagrange(&polys[i], blinds[i]));
        i += 1;
    }
    let r = C::batch_normalize(&projective);
    assert forall|j: int| 0 <= j < polys@.len() implies commitment::commits_to::<F, C, S>(
        params,
        polys@[j]@,
        blinds@[j].0,
        #[trigger] r@[j],
    ) by {
        assert(params.is_commitment(&polys@[j], Blind(blinds@[j].0), projective@[j]));
    }
    r
}

/// Absorbs the instance columns of a circuit into the transcript value by value.
fn absorb_values<F, P, T, R>(instances: &[&[F]], channel: &mut Channel<F, P, T, R>) -> (r: Result<
    (),
    Error,
>) where F: Field, T: TranscriptWrite<F, P>, R: RandomSource<F>
    ensures
        r is Ok ==> {
            &&& final(channel).trace() == old(channel).trace() + steps::column_scalar_steps(
                steps::slices_of(instances@),
            )
            &&& old(channel).goes_on(final(channel), channel::plainly())
        },
        r matches Err(e) ==> {
            &&& e is Transcript
            &&& old(channel).breaks_off(final(channel), channel::plainly(), e)
            &&& channel::stops_in(
                old(channel).trace(),
                steps::column_scalar_steps(steps::slices_of(instances@)),
                final(channel).trace(),
            )
        },
{
    let ghost before = channel.trace();
    let ghost columns = steps::slices_of(instances@);
    let mut i: usize = 0;
    assert(before + steps::column_scalar_steps(columns.take(0)) =~= before);
    while i < instances.len()
        invariant
            before == old(channel).trace(),
            old(channel).goes_on(channel, channel::plainly()),
            columns == steps::slices_of(instances@),
            i <= instances@.len(),
            channel.trace() == before + steps::column_scalar_steps(columns.take(i as int)),
        decreases instances@.len() - i,
    {
        let values = instances[i];
        let ghost start = channel.trace();
        let ghost part = steps::scalar_steps::<F, P>(values@);
        let mut j: usize = 0;
        assert(start + part.take(0) =~= start);
        while j < values.len()
            invariant
                before == old(channel).trace(),
                old(channel).goes_on(channel, channel::plainly()),
                columns == steps::slices_of(instances@),
                i < instances@.len(),
                values@ == columns[i as int],
                start == before + steps::column_scalar_steps(columns.take(i as int)),
                part == steps::scalar_steps::<F, P>(values@),
                j <= values@.len(),
                channel.trace() == start + part.take(j as int),
            decreases values@.len() - j,
        {
            if let Err(e) = channel.common_scalar(values[j]) {
                proof {
                    let done = steps::column_scalar_steps::<F, P>(columns.take(i as int));
                    assert(channel::stops_in(start, part, channel.trace()));
                    channel::lemma_stops_later(before, done, part, channel.trace());
                    assert(columns.take(i + 1).drop_last() =~= columns.take(i as int));
                    lemma_stops_in_columns(before, columns, i + 1, channel.trace());
                }
                return Err(e);
            }
            assert(start + part.take(j + 1) =~= (start + part.take(j as int)).push(
                part[j as int],
            ));
            j += 1;
        }
        proof {
            assert(part.take(j as int) =~= part);
            assert(columns.take(i + 1).drop_last() =~= columns.take(i as int));
            assert(channel.trace() =~= before + steps::column_scalar_steps(columns.take(i + 1)));
        }
        i += 1;
    }
    assert(columns.take(i as int) =~= columns);
    Ok(())
}

/// Stopping in the first columns is stopping in all of them.
proof fn lemma_stops_in_columns<F, P>(
    before: Seq<Step<F, P>>,
    columns: Seq<Seq<F>>,
    count: int,
    after: Seq<Step<F, P>>,
)
    requires
        0 <= count <= columns.len(),
        channel::stops_in(before, steps::column_scalar_steps(columns.take(count)), after),
    ensures
        channel::stops_in(before, steps::column_scalar_steps(columns), after),
    decreases columns.len() - count,
{
    if count == columns.len() {
        assert(columns.take(count) =~= columns);
    } else {
        let next = columns.take(count + 1);
        assert(next.drop_last() =~= columns.take(count));
        channel::lemma_stops_earlier(
            before,
            steps::column_scalar_steps(columns.take(count)),
            steps::scalar_steps(next.last()),
            after,
        );
        lemma_stops_in_columns(before, columns, count + 1, after);
    }
}

/// The points are commitments to the instance columns, if they are queried.
pub open spec fn absorbs<F: Field, C: Curve, S: Params<F, C>>(
    params: &S,
    query_instance: bool,
    values: Seq<Seq<F>>,
    points: Seq<C::AffineRepr>,
) -> bool {
    query_instance ==> steps::instances_committed::<F, C, S>(params, values, points)
}

/// Absorbs the instance columns of a circuit into the transcript.
pub(crate) fn absorb_instances<F, C, S, T, R>(
    params: &S,
    query_instance: bool,
    instances: &[&[F]],
    instance_values: &Vec<Polynomial<F, LagrangeCoeff>>,
    channel: &mut Channel<F, C::AffineRepr, T, R>,
) -> (r: Result<Ghost<Seq<C::AffineRepr>>, Error>) where
    F: Field,
    C: Curve,
    S: Params<F, C>,
    T: TranscriptWrite<F, C::AffineRepr>,
    R: RandomSource<F>,

    ensures
        r matches Ok(points) ==> {
            &&& absorbs::<F, C, S>(
                params,
                query_instance,
                channel::values_of(instance_values@),
                points@,
            )
            &&& final(channel).trace() == old(channel).trace() + steps::absorb_steps(
                query_instance,
                steps::slices_of(instances@),
                points@,
            )
            &&& old(channel).goes_on(final(channel), channel::plainly())
        },
        r matches Err(e) ==> {
            &&& e is Transcript
            &&& old(channel).breaks_off(final(channel), channel::plainly(), e)
            &&& exists|points: Seq<C::AffineRepr>|
                {
                    &&& #[trigger] absorbs::<F, C, S>(
                        params,
                        query_instance,
                        channel::values_of(instance_values@),
                        points,
                    )
                    &&& channel::stops_in(
                        old(channel).trace(),
                        steps::absorb_steps(
                            query_instance,
                            steps::slices_of(instances@),
                            points,
                        ),
                        final(channel).trace(),
                    )
                }
        },
{
    let ghost before = channel.trace();
    if !query_instance {
        let r = absorb_values(instances, channel);
        assert(absorbs::<F, C, S>(
            params,
            query_instance,
            channel::values_of(instance_values@),
            Seq::empty(),
        ));
        r?;
        return Ok(Ghost(Seq::empty()));
    }
    let mut blinds: Vec<Blind<F>> = Vec::new();
    while blinds.len() < instance_values.len()
        invariant
            blinds@.len() <= instance_values@.len(),
            forall|j: int| 0 <= j < blinds@.len() ==> (#[trigger] blinds@[j]).0.value() == 1,
        decreases instance_values@.len() - blinds@.len(),
    {
        blinds.push(Blind::default());
    }
    let commitments = commit_all::<F, C, S>(params, instance_values, &blinds);
    let ghost points = commitments@;
    let ghost part = steps::point_steps::<F, C::AffineRepr>(points);
    proof {
        let values = channel::values_of(instance_values@);
        assert forall|j: int| 0 <= j < values.len() implies commitment::commits_plainly::<F, C, S>(
            params,
            values[j],
            #[trigger] points[j],
        ) by {
            assert(blinds@[j].0.value() == 1);
            assert(commitment::commits_to::<F, C, S>(params, values[j], blinds@[j].0, points[j]));
        }
        assert(absorbs::<F, C, S>(params, query_instance, values, points));
    }
    let mut i: usize = 0;
    assert(before + part.take(0) =~= before);
    while i < commitments.len()
        invariant
            query_instance,
            before == old(channel).trace(),
            old(channel).goes_on(channel, channel::plainly()),
            points == commitments@,
            absorbs::<F, C, S>(
                params,
                query_instance,
                channel::values_of(instance_values@),
                points,
            ),
            part == steps::point_steps::<F, C::AffineRepr>(points),
            i <= points.len(),
            channel.trace() == before + part.take(i as int),
        decreases points.len() - i,
    {
        channel.common_point(commitments[i])?;
        assert(before + part.take(i + 1) =~= (before + part.take(i as int)).push(part[i as int]));
        i += 1;
    }
    assert(part.take(i as int) =~= part);
    Ok(Ghost(points))
}

/// Fills the rows of the columns from `start` on with random values, column by
/// column, and then draws a blind for each column.
fn blind_columns<F, P, T, R>(
    columns: Vec<Polynomial<F, LagrangeCoeff>>,
    start: usize,
    channel: &mut Channel<F, P, T, R>,
) -> (r: (Vec<Polynomial<F, LagrangeCoeff>>, Vec<Blind<F>>)) where
    F: Field,
    T: TranscriptWrite<F, P>,
    R: RandomSource<F>,

    requires
        forall|i: int| 0 <= i < columns@.len() ==> start <= (#[trigger] columns@[i])@.len(),
    ensures
        same_above(channel::values_of(columns@), channel::values_of(r.0@), start as int),
        r.1@.len() == columns@.len(),
        old(channel).goes_on(final(channel), channel::plainly()),
        final(channel).trace() == old(channel).trace() + steps::tail_steps(
            channel::values_of(r.0@),
            start as int,
        ) + steps::random_steps(steps::blinds_of(r.1@)),
{
    let ghost before = channel.trace();
    let ghost given = channel::values_of(columns@);
    let mut columns = columns;
    let count = columns.len();
    let mut i: usize = 0;
    assert(before + steps::tail_steps(given.take(0), start as int) =~= before);
    while i < count
        invariant
            old(channel).goes_on(channel, channel::plainly()),
            count == columns@.len() == given.len(),
            forall|k: int| 0 <= k < given.len() ==> start <= (#[trigger] given[k]).len(),
            i <= count,
            same_above(given, channel::values_of(columns@), start as int),
            forall|k: int| i <= k < count ==> (#[trigger] columns@[k])@ == given[k],
            channel.trace() == before + steps::tail_steps(
                channel::values_of(columns@).take(i as int),
                start as int,
            ),
        decreases count - i,
    {
        let ghost done = channel::values_of(columns@).take(i as int);
        let ghost drawn = channel.trace();
        let ghost column = columns@[i as int]@;
        let ghost others = columns@;
        assert(column == given[i as int]);
        let length = columns[i].values().len();
        let mut j: usize = start;
        assert(drawn + steps::random_steps(columns@[i as int]@.subrange(start as int, j as int))
            =~= drawn);
        while j < length
            invariant
                old(channel).goes_on(channel, channel::plainly()),
                count == columns@.len() == others.len(),
                i < count,
                start <= j <= length == column.len(),
                columns@[i as int]@.len() == length,
                columns@[i as int]@.take(start as int) == column.take(start as int),
                forall|k: int|
                    0 <= k < count && k != i ==> #[trigger] columns@[k] == others[k],
                channel.trace() == drawn + steps::random_steps(
                    columns@[i as int]@.subrange(start as int, j as int),
                ),
            decreases length - j,
        {
            let ghost old_column = columns@[i as int]@;
            let value = channel.random();
            let poly = &mut columns[i];
            *poly.index_mut(j) = value;
            proof {
                let new_column = columns@[i as int]@;
                assert(new_column =~= old_column.update(j as int, value));
                assert(new_column.take(start as int) =~= old_column.take(start as int));
                assert(new_column.subrange(start as int, j + 1) =~= old_column.subrange(
                    start as int,
                    j as int,
                ).push(value));
                assert(drawn + steps::random_steps(new_column.subrange(start as int, j + 1))
                    =~= (drawn + steps::random_steps(
                    old_column.subrange(start as int, j as int),
                )).push(channel::Step::Random(value)));
            }
            j += 1;
        }
        proof {
            let all = channel::values_of(columns@);
            let new_column = columns@[i as int]@;
            assert(new_column.subrange(start as int, j as int) =~= new_column.skip(start as int));
            let prior = channel::values_of(others);
            assert forall|k: int| 0 <= k < all.len() implies (#[trigger] all[k]).len()
                == given[k].len() && all[k].take(start as int) == given[k].take(start as int) by {
                if k != i {
                    assert(all[k] == prior[k]);
                }
            }
            assert(all.take(i + 1).drop_last() =~= done);
            assert(all.take(i + 1).last() == new_column);
            assert(channel.trace() =~= before + steps::tail_steps(all.take(i + 1), start as int));
        }
        i += 1;
    }
    let ghost tails = channel.trace();
    let mut blinds: Vec<Blind<F>> = Vec::new();
    assert(channel::values_of(columns@).take(i as int) =~= channel::values_of(columns@));
    assert(tails + steps::random_steps(steps::blinds_of(blinds@)) =~= tails);
    while blinds.len() < count
        invariant
            blinds@.len() <= count,
            old(channel).goes_on(channel, channel::plainly()),
            channel.trace() == tails + steps::random_steps(steps::blinds_of(blinds@)),
        decreases count - blinds@.len(),
    {
        let ghost old_blinds = blinds@;
        let value = channel.random();
        blinds.push(Blind(value));
        assert(tails + steps::random_steps(steps::blinds_of(blinds@)) =~= (tails + steps::random_steps(
            steps::blinds_of(old_blinds),
        )).push(channel::Step::Random(value)));
    }
    (columns, blinds)
}

/// The record is that of a phase with these columns, but for the rows that blind
/// them, and without challenges.
pub open spec fn commits_columns<F: Field, C: Curve, S: Params<F, C>>(
    params: &S,
    columns: Seq<Seq<F>>,
    start: int,
    record: PhaseRecord<F, C::AffineRepr>,
) -> bool {
    &&& same_above(columns, record.values, start)
    &&& steps::phase_committed::<F, C, S>(params, record)
    &&& record.challenges.len() == 0
}

/// Blinds the columns of a phase, commits to them and writes the commitments
/// to the transcript.
pub(crate) fn commit_columns<F, C, S, T, R>(
    params: &S,
    columns: Vec<Polynomial<F, LagrangeCoeff>>,
    start: usize,
    channel: &mut Channel<F, C::AffineRepr, T, R>,
) -> (r: Result<
    (Vec<Polynomial<F, LagrangeCoeff>>, Vec<Blind<F>>, Ghost<PhaseRecord<F, C::AffineRepr>>),
    Error,
>) where
    F: Field,
    C: Curve,
    S: Params<F, C>,
    T: TranscriptWrite<F, C::AffineRepr>,
    R: RandomSource<F>,

    requires
        forall|i: int| 0 <= i < columns@.len() ==> start <= (#[trigger] columns@[i])@.len(),
    ensures
        r matches Ok((values, blinds, record)) ==> {
            &&& commits_columns::<F, C, S>(
                params,
                channel::values_of(columns@),
                start as int,
                record@,
            )
            &&& record@.values == channel::values_of(values@)
            &&& record@.blinds == steps::blinds_of(blinds@)
            &&& final(channel).trace() == old(channel).trace() + steps::phase_steps(
                record@,
                start as int,
            )
            &&& old(channel).goes_on(final(channel), channel::plainly())
        },
        r matches Err(e) ==> {
            &&& e is Transcript
            &&& old(channel).breaks_off(final(channel), channel::plainly(), e)
            &&& exists|record: PhaseRecord<F, C::AffineRepr>|
                {
                    &&& #[trigger] commits_columns::<F, C, S>(
                        params,
                        channel::values_of(columns@),
                        start as int,
                        record,
                    )
                    &&& channel::stops_in(
                        old(channel).trace(),
                        steps::phase_steps(record, start as int),
                        final(channel).trace(),
                    )
                }
        },
{
    let ghost before = channel.trace();
    let ghost given = channel::values_of(columns@);
    let (values, blinds) = blind_columns(columns, start, channel);
    let commitments = commit_all::<F, C, S>(params, &values, &blinds);
    let ghost points = commitments@;
    let ghost record = PhaseRecord {
        values: channel::values_of(values@),
        blinds: steps::blinds_of(blinds@),
        points,
        challenges: Seq::empty(),
    };
    let ghost part = steps::write_steps::<F, C::AffineRepr>(points);
    let ghost draws = steps::tail_steps::<F, C::AffineRepr>(record.values, start as int)
        + steps::random_steps(record.blinds);
    let ghost drawn = channel.trace();
    proof {
        assert forall|j: int| 0 <= j < record.values.len() implies commitment::commits_to::<
            F,
            C,
            S,
        >(params, record.values[j], record.blinds[j], #[trigger] record.points[j]) by {
            assert(commitment::commits_to::<F, C, S>(
                params,
                values@[j]@,
                blinds@[j].0,
                commitments@[j],
            ));
        }
        assert(drawn =~= before + draws);
        assert(steps::phase_steps(record, start as int) =~= draws + part);
        assert(drawn + part.take(0) =~= drawn);
    }
    let mut i: usize = 0;
    while i < commitments.len()
        invariant
            before == old(channel).trace(),
            old(channel).goes_on(channel, channel::plainly()),
            given == channel::values_of(columns@),
            commits_columns::<F, C, S>(params, given, start as int, record),
            drawn == before + draws,
            steps::phase_steps(record, start as int) == draws + part,
            points == commitments@,
            part == steps::write_steps::<F, C::AffineRepr>(points),
            i <= points.len(),
            channel.trace() == drawn + part.take(i as int),
        decreases points.len() - i,
    {
        if let Err(e) = channel.write_point(commitments[i]) {
            proof {
                assert(channel::stops_in(drawn, part, channel.trace()));
                channel::lemma_stops_later(before, draws, part, channel.trace());
            }
            return Err(e);
        }
        assert(drawn + part.take(i + 1) =~= (drawn + part.take(i as int)).push(part[i as int]));
        i += 1;
    }
    proof {
        assert(part.take(i as int) =~= part);
        assert(channel.trace() =~= before + steps::phase_steps(record, start as int));
    }
    Ok((values, blinds, Ghost(record)))
}

/// Squeezes a challenge for each of the indices, in order, and enters it in
/// the map.
pub(crate) fn squeeze_challenges<F, P, T, R>(
    indices: &Vec<usize>,
    challenges: &mut HashMap<usize, F>,
    channel: &mut Channel<F, P, T, R>,
) -> (r: Ghost<Seq<F>>) where F: Field, T: TranscriptWrite<F, P>, R: RandomSource<F>
    requires
        indices@.no_duplicates(),
        forall|j: int|
            0 <= j < indices@.len() ==> !old(challenges)@.contains_key(#[trigger] indices@[j]),
    ensures
        r@.len() == indices@.len(),
        forall|j: int|
            0 <= j < indices@.len() ==> final(challenges)@.contains_key(#[trigger] indices@[j])
                && final(challenges)@[indices@[j]] == r@[j],
        forall|k: usize| #[trigger]
            final(challenges)@.contains_key(k) <==> old(challenges)@.contains_key(k)
                || indices@.contains(k),
        forall|k: usize|
            old(challenges)@.contains_key(k) ==> #[trigger] final(challenges)@[k]
                == old(challenges)@[k],
        old(channel).goes_on(final(channel), channel::plainly()),
        final(channel).trace() == old(channel).trace() + steps::squeeze_steps(r@),
{
    broadcast use vstd::std_specs::hash::group_hash_axioms;

    let ghost before = channel.trace();
    let ghost known = challenges@;
    let mut squeezed: Ghost<Seq<F>> = Ghost(Seq::empty());
    let mut i: usize = 0;
    assert(before + steps::squeeze_steps(squeezed@) =~= before);
    while i < indices.len()
        invariant
            old(channel).goes_on(channel, channel::plainly()),
            known == old(challenges)@,
            indices@.no_duplicates(),
            forall|j: int|
                0 <= j < indices@.len() ==> !known.contains_key(#[trigger] indices@[j]),
            i <= indices@.len(),
            squeezed@.len() == i,
            forall|j: int|
                0 <= j < i ==> challenges@.contains_key(#[trigger] indices@[j])
                    && challenges@[indices@[j]] == squeezed@[j],
            forall|k: usize| #[trigger]
                challenges@.contains_key(k) <==> known.contains_key(k) || exists|j: int|
                    0 <= j < i && #[trigger] indices@[j] == k,
            forall|k: usize| known.contains_key(k) ==> #[trigger] challenges@[k] == known[k],
            channel.trace() == before + steps::squeeze_steps(squeezed@),
        decreases indices@.len() - i,
    {
        let ghost old_squeezed = squeezed@;
        let challenge = channel.squeeze_challenge_scalar();
        challenges.insert(indices[i], challenge);
        proof {
            squeezed@ = squeezed@.push(challenge);
            assert(before + steps::squeeze_steps(squeezed@) =~= (before + steps::squeeze_steps(
                old_squeezed,
            )).push(channel::Step::Squeeze(challenge)));
        }
        i += 1;
    }
    squeezed
}

/// Puts the columns and blinds of a phase at their indices.
pub(crate) fn store_columns<F: Field>(
    indices: &Vec<usize>,
    values: Vec<Polynomial<F, LagrangeCoeff>>,
    blinds: &Vec<Blind<F>>,
    single: &mut AdviceCommitted<F, LagrangeCoeff>,
)
    requires
        indices@.no_duplicates(),
        values@.len() == indices@.len(),
        blinds@.len() == indices@.len(),
        old(single).advice_polys@.len() == old(single).advice_blinds@.len(),
        forall|j: int|
            0 <= j < indices@.len() ==> #[trigger] indices@[j] < old(single).advice_polys@.len(),
    ensures
        final(single).advice_polys@.len() == old(single).advice_polys@.len(),
        final(single).advice_blinds@.len() == old(single).advice_blinds@.len(),
        forall|j: int|
            #![trigger indices@[j]]
            0 <= j < indices@.len() ==> final(single).advice_polys@[indices@[j] as int] == values@[j]
                && final(single).advice_blinds@[indices@[j] as int] == blinds@[j],
        forall|k: usize|
            #![trigger final(single).advice_polys@[k as int]]
            #![trigger final(single).advice_blinds@[k as int]]
            k < old(single).advice_polys@.len() && !indices@.contains(k)
                ==> final(single).advice_polys@[k as int] == old(single).advice_polys@[k as int]
                && final(single).advice_blinds@[k as int] == old(single).advice_blinds@[k as int],
{
    let ghost given = values@;
    let mut values = values;
    let mut j: usize = indices.len();
    while j > 0
        invariant
            indices@.no_duplicates(),
            j <= indices@.len(),
            given.len() == indices@.len(),
            blinds@.len() == indices@.len(),
            values@ == given.take(j as int),
            single.advice_polys@.len() == old(single).advice_polys@.len(),
            single.advice_blinds@.len() == old(single).advice_polys@.len(),
            forall|k: int|
                0 <= k < indices@.len() ==> #[trigger] indices@[k] < single.advice_polys@.len(),
            forall|k: int|
                #![trigger indices@[k]]
                j <= k < indices@.len() ==> single.advice_polys@[indices@[k] as int] == given[k]
                    && single.advice_blinds@[indices@[k] as int] == blinds@[k],
            forall|k: usize|
                #![trigger single.advice_polys@[k as int]]
                #![trigger single.advice_blinds@[k as int]]
                k < old(single).advice_polys@.len() && !indices@.contains(k)
                    ==> single.advice_polys@[k as int] == old(single).advice_polys@[k as int]
                    && single.advice_blinds@[k as int] == old(single).advice_blinds@[k as int],
        decreases j,
    {
        j -= 1;
        let index = indices[j];
        assert(indices@.contains(index));
        if let Some(poly) = values.pop() {
            single.advice_polys[index] = poly;
            single.advice_blinds[index] = blinds[j];
        }
        assert(values@ =~= given.take(j as int));
    }
}

} // verus!
