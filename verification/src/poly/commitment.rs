//! Commitments to polynomials, and their openings.

use super::{Coeff, Error, LagrangeCoeff, Polynomial};
use crate::curve::Curve;
use crate::field::Field;
use vstd::prelude::*;

verus! {

/// Wrapper for a scalar that blinds a commitment.
#[derive(Debug)]
pub struct Blind<F>(pub F);

impl<F: Copy> Clone for Blind<F> {
    fn clone(&self) -> (r: Self)
        ensures
            r == *self,
    {
        *self
    }
}

impl<F: Copy> Copy for Blind<F> {

}

/// The blind of commitments that need not hide anything is one.
impl<F: Field> Default for Blind<F> {
    fn default() -> (r: Blind<F>)
        ensures
            r.0.value() == 1,
    {
        Blind(F::one())
    }
}

/// The parameters of a commitment scheme over the field `F` and the curve `C`.
pub trait Params<F: Field, C: Curve> {
    /// The binary logarithm of [`Params::spec_n`].
    spec fn spec_k(&self) -> u32;

    /// The number of values of the polynomials that can be committed to.
    spec fn spec_n(&self) -> usize;

    /// `point` is a commitment to the polynomial under the given blind.
    spec fn is_commitment(
        &self,
        poly: &Polynomial<F, LagrangeCoeff>,
        blind: Blind<F>,
        point: C,
    ) -> bool;

    /// The binary logarithm of the number of values.
    fn k(&self) -> (k: u32)
        ensures
            k == self.spec_k(),
    ;

    /// The number of values of the polynomials that can be committed to.
    fn n(&self) -> (n: usize)
        ensures
            n == self.spec_n(),
    ;

    /// Commits to a polynomial in the Lagrange basis.
    fn commit_lagrange(&self, poly: &Polynomial<F, LagrangeCoeff>, blind: Blind<F>) -> (point: C)
        ensures
            self.is_commitment(poly, blind, point),
    ;
}

/// `point` is the affine form of a commitment to the polynomial with the given
/// values, under the given blind.
pub open spec fn commits_to<F: Field, C: Curve, S: Params<F, C>>(
    params: &S,
    values: Seq<F>,
    blind: F,
    point: C::AffineRepr,
) -> bool {
    exists|poly: Polynomial<F, LagrangeCoeff>, c: C|
        poly@ == values && #[trigger] params.is_commitment(&poly, Blind(blind), c)
            && c.is_affine_form(point)
}

/// `point` is the affine form of a commitment to the polynomial with the given
/// values, under the default blind.
pub open spec fn commits_plainly<F: Field, C: Curve, S: Params<F, C>>(
    params: &S,
    values: Seq<F>,
    point: C::AffineRepr,
) -> bool {
    exists|blind: F|
        blind.value() == 1 && #[trigger] commits_to::<F, C, S>(params, values, blind, point)
}

/// A point that commits to values is the affine form of what the parameters make of the
/// polynomial with these values and of this very blind. Without a blind that hides
/// anything, the blind is one.
pub proof fn lemma_commitment<F: Field, C: Curve, S: Params<F, C>>(
    params: &S,
    values: Seq<F>,
    blind: F,
    point: C::AffineRepr,
)
    ensures
        commits_to::<F, C, S>(params, values, blind, point) <==> exists|
            poly: Polynomial<F, LagrangeCoeff>,
            c: C,
        |
            {
                &&& poly@ == values
                &&& #[trigger] params.is_commitment(&poly, Blind(blind), c)
                &&& c.is_affine_form(point)
            },
        commits_plainly::<F, C, S>(params, values, point) <==> exists|
            poly: Polynomial<F, LagrangeCoeff>,
            one: Blind<F>,
            c: C,
        |
            {
                &&& poly@ == values
                &&& one.0.value() == 1
                &&& #[trigger] params.is_commitment(&poly, one, c)
                &&& c.is_affine_form(point)
            },
{
    if commits_plainly::<F, C, S>(params, values, point) {
        let one = choose|one: F|
            one.value() == 1 && #[trigger] commits_to::<F, C, S>(params, values, one, point);
        let (poly, c) = choose|poly: Polynomial<F, LagrangeCoeff>, c: C|
            poly@ == values && #[trigger] params.is_commitment(&poly, Blind(one), c)
                && c.is_affine_form(point);
        assert(params.is_commitment(&poly, Blind(one), c));
    }
    if exists|poly: Polynomial<F, LagrangeCoeff>, one: Blind<F>, c: C|
        {
            &&& poly@ == values
            &&& one.0.value() == 1
            &&& #[trigger] params.is_commitment(&poly, one, c)
            &&& c.is_affine_form(point)
        } {
        let (poly, one, c) = choose|poly: Polynomial<F, LagrangeCoeff>, one: Blind<F>, c: C|
            {
                &&& poly@ == values
                &&& one.0.value() == 1
                &&& #[trigger] params.is_commitment(&poly, one, c)
                &&& c.is_affine_form(point)
            };
        assert(one == Blind(one.0));
        assert(params.is_commitment(&poly, Blind(one.0), c));
        assert(commits_to::<F, C, S>(params, values, one.0, point));
    }
}

/// A polynomial to be opened at a point.
pub struct ProverQuery<'a, F> {
    /// Where the polynomial is opened.
    pub point: F,
    /// The coefficients of the polynomial.
    pub poly: &'a Polynomial<F, Coeff>,
    /// The blind of the commitment to it.
    pub blind: Blind<F>,
}

/// What a [`ProverQuery`] holds.
pub struct Query<F> {
    /// Where the polynomial is opened.
    pub point: F,
    /// The coefficients of the polynomial.
    pub poly: Seq<F>,
    /// The blind of the commitment to it.
    pub blind: F,
}

impl<'a, F> View for ProverQuery<'a, F> {
    type V = Query<F>;

    open spec fn view(&self) -> Query<F> {
        Query { point: self.point, poly: self.poly@, blind: self.blind.0 }
    }
}

/// The queries that a list of [`ProverQuery`] holds.
pub open spec fn queries_of<'a, F>(queries: Seq<ProverQuery<'a, F>>) -> Seq<Query<F>> {
    queries.map_values(|q: ProverQuery<'a, F>| q@)
}

/// A query is for the polynomial that it holds, at the point and under the blind that it
/// holds, and a list of queries is for these in its order.
pub proof fn lemma_queries<'a, F>(queries: Seq<ProverQuery<'a, F>>, i: int)
    requires
        0 <= i < queries.len(),
    ensures
        queries_of(queries).len() == queries.len(),
        queries_of(queries)[i].point == queries[i].point,
        queries_of(queries)[i].poly == queries[i].poly@,
        queries_of(queries)[i].blind == queries[i].blind.0,
{
}

/// A multi-point opening argument, over transcripts `T` and randomness `R`.
pub trait Prover<F, T, R> {
    /// Whether instance columns are committed to and opened like advice
    /// columns, rather than absorbed value by value.
    const QUERY_INSTANCE: bool;

    /// Opening these polynomials can take the randomness and the transcript from
    /// what they were before to what they were after, with this outcome. By
    /// default it can do anything.
    open spec fn opens(
        &self,
        queries: Seq<Query<F>>,
        before: (R, T),
        after: (R, T),
        outcome: Result<(), Error>,
    ) -> bool {
        true
    }

    /// Opens the queried polynomials.
    fn create_proof<'a>(
        &self,
        rng: &mut R,
        transcript: &mut T,
        queries: Vec<ProverQuery<'a, F>>,
    ) -> (r: Result<(), Error>)
        ensures
            self.opens(
                queries_of(queries@),
                (*old(rng), *old(transcript)),
                (*final(rng), *final(transcript)),
                r,
            ),
    ;
}

} // verus!
