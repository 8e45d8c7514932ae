//! Contains utilities for performing arithmetic over univariate polynomials in
//! various forms.

use std::fmt::Debug;
use std::marker::PhantomData;
use std::ops::{Deref, DerefMut, Index, Range};
use vstd::prelude::*;

pub mod codec;
pub mod commitment;
pub mod domain;
pub mod invert;
pub mod laws;
pub mod ops;
pub mod text;

pub use domain::EvaluationDomain;
pub use invert::batch_invert_assigned;

verus! {

/// This is an error that could occur during proving or circuit synthesis.
#[derive(Debug)]
pub enum Error {
    /// OpeningProof is not well-formed
    OpeningError,
    /// Caller needs to re-sample a point
    SamplingError,
}

/// The basis over which a polynomial is described.
pub trait Basis: Copy + Debug + Send + Sync {

}

/// The polynomial is defined as coefficients
#[derive(Clone, Copy, Debug)]
pub struct Coeff;

impl Basis for Coeff {

}

/// The polynomial is defined as coefficients of Lagrange basis polynomials
#[derive(Clone, Copy, Debug)]
pub struct LagrangeCoeff;

impl Basis for LagrangeCoeff {

}

/// The polynomial is defined as coefficients of Lagrange basis polynomials in
/// an extended size domain which supports multiplication
#[derive(Clone, Copy, Debug)]
pub struct ExtendedLagrangeCoeff;

impl Basis for ExtendedLagrangeCoeff {

}

/// Residency marker for a [`Polynomial`] over `F`. Implementors associate the
/// backing container type via [`Storage::Backing`]: `Vec<F>` for [`Host`].
pub trait Storage<F>: 'static {
    /// Backing container holding the polynomial's coefficients.
    type Backing;

    /// Length of the backing container in elements.
    spec fn spec_backing_len(b: &Self::Backing) -> nat;

    /// Compile-time tag distinguishing the storage flavours.
    const IS_DEVICE: bool;

    /// Length of the backing container in elements.
    fn backing_len(b: &Self::Backing) -> (n: usize)
        ensures
            n == Self::spec_backing_len(b),
    ;
}

/// Marker indicating a host-resident polynomial whose coefficients live in a
/// `Vec<F>`.
#[derive(Clone, Copy, Debug)]
pub struct Host;

impl<F> Storage<F> for Host {
    type Backing = Vec<F>;

    open spec fn spec_backing_len(b: &Vec<F>) -> nat {
        b@.len()
    }

    const IS_DEVICE: bool = false;

    fn backing_len(b: &Vec<F>) -> (n: usize) {
        b.len()
    }
}

/// Represents a univariate polynomial defined over a field and a particular
/// basis, parameterised by its storage residency.
///
/// The view of a host-resident polynomial is the sequence of its values.
pub struct Polynomial<F, B, S: Storage<F> = Host> {
    storage: S::Backing,
    _marker: PhantomData<B>,
}

impl<F, B> View for Polynomial<F, B, Host> {
    type V = Seq<F>;

    closed spec fn view(&self) -> Seq<F> {
        self.storage@
    }
}

impl<F: Clone, B> Clone for Polynomial<F, B, Host> {
    fn clone(&self) -> (r: Self)
        ensures
            r@.len() == self@.len(),
            forall|i: int| 0 <= i < self@.len() ==> cloned(self@[i], #[trigger] r@[i]),
    {
        let storage = self.storage.clone();
        proof {
            assert forall|i: int| 0 <= i < self@.len() implies cloned(
                self@[i],
                #[trigger] storage@[i],
            ) by {
                assert(cloned(self.storage[i], storage[i]));
            }
        }
        Polynomial { storage, _marker: PhantomData }
    }
}

impl<F, B, S: Storage<F>> Polynomial<F, B, S> {
    /// The backing container.
    pub closed spec fn spec_backing(&self) -> S::Backing {
        self.storage
    }

    /// Construct a polynomial directly from its backing container. This is the
    /// generic seam that lets out-of-crate storage backends build a
    /// `Polynomial` for any `S`.
    pub fn from_backing(backing: S::Backing) -> (r: Self)
        ensures
            r.spec_backing() == backing,
    {
        Polynomial { storage: backing, _marker: PhantomData }
    }

    /// Borrow the backing container.
    pub fn backing(&self) -> (r: &S::Backing)
        ensures
            *r == self.spec_backing(),
    {
        &self.storage
    }

    /// Mutably borrow the backing container.
    pub fn backing_mut(&mut self) -> (r: &mut S::Backing)
        ensures
            *r == old(self).spec_backing(),
            final(self).spec_backing() == *final(r),
    {
        &mut self.storage
    }

    /// Consume the polynomial and return the owned backing container.
    pub fn into_backing(self) -> (r: S::Backing)
        ensures
            r == self.spec_backing(),
    {
        self.storage
    }

    /// Number of coefficients.
    pub fn len(&self) -> (n: usize)
        ensures
            n == S::spec_backing_len(&self.spec_backing()),
    {
        S::backing_len(&self.storage)
    }

    /// `true` if there are no coefficients.
    pub fn is_empty(&self) -> (r: bool)
        ensures
            r == (S::spec_backing_len(&self.spec_backing()) == 0),
    {
        self.len() == 0
    }

    /// Gets the size of this polynomial in terms of the number of
    /// coefficients used to describe it.
    pub fn num_coeffs(&self) -> (n: usize)
        ensures
            n == S::spec_backing_len(&self.spec_backing()),
    {
        self.len()
    }
}

impl<F, B> Polynomial<F, B, Host> {
    /// The backing container of a host-resident polynomial holds its values.
    pub broadcast proof fn lemma_host_backing(p: Self)
        ensures
            (#[trigger] p.spec_backing())@ == p@,
    {
    }

    /// Construct a host-resident polynomial directly from `Vec<F>`.
    pub fn new(values: Vec<F>) -> (r: Self)
        ensures
            r@ == values@,
    {
        Polynomial { storage: values, _marker: PhantomData }
    }

    /// Direct host slice accessor.
    pub fn values(&self) -> (r: &[F])
        ensures
            r@ == self@,
    {
        self.storage.as_slice()
    }

    /// Direct mutable host slice accessor.
    pub fn values_mut(&mut self) -> (r: &mut [F])
        ensures
            r@ == old(self)@,
            final(self)@ == final(r)@,
    {
        self.storage.as_mut_slice()
    }

    /// Consume the polynomial and return the owned `Vec<F>` of host
    /// coefficients.
    pub fn into_values(self) -> (r: Vec<F>)
        ensures
            r@ == self@,
    {
        self.storage
    }

    /// Iterate over the values, which are either in coefficient or evaluation
    /// form depending on the basis `B`.
    pub fn iter(&self) -> (r: impl Iterator<Item = &F>)
        ensures
            vstd::std_specs::iter::IteratorSpec::obeys_prophetic_iter_laws(&r),
            vstd::std_specs::iter::IteratorSpec::remaining(&r) == self@.as_ref(),
            vstd::std_specs::iter::IteratorSpec::decrease(&r) is Some,
            vstd::std_specs::iter::IteratorSpec::initial_value_relation(&r, &r),
    {
        self.storage.iter()
    }

    /// The values as a mutable slice to iterate over, which are either in
    /// coefficient or evaluation form depending on the basis `B`.
    pub fn iter_mut(&mut self) -> (r: &mut [F])
        ensures
            r@ == old(self)@,
            final(self)@ == final(r)@,
    {
        self.values_mut()
    }

    /// Borrow the values from `start` on.
    pub fn index_from(&self, start: usize) -> (r: &[F])
        requires
            start <= self@.len(),
        ensures
            r@ == self@.skip(start as int),
    {
        vstd::slice::slice_subrange(self.values(), start, self.storage.len())
    }

    /// Mutably borrow the values from `start` on.
    pub fn index_from_mut(&mut self, start: usize) -> (r: &mut [F])
        requires
            start <= old(self)@.len(),
        ensures
            r@ == old(self)@.skip(start as int),
            final(self)@ == old(self)@.take(start as int) + final(r)@,
    {
        let (_, tail) = self.storage.as_mut_slice().split_at_mut(start);
        tail
    }

    /// Mutably borrow the values in `start..end`.
    pub fn index_range_mut(&mut self, start: usize, end: usize) -> (r: &mut [F])
        requires
            start <= end <= old(self)@.len(),
        ensures
            r@ == old(self)@.subrange(start as int, end as int),
            final(self)@ == old(self)@.take(start as int) + final(r)@ + old(self)@.skip(end as int),
    {
        let (head, _) = self.storage.as_mut_slice().split_at_mut(end);
        let (_, middle) = head.split_at_mut(start);
        middle
    }

    /// Mutably borrow the value at `index`.
    pub fn index_mut(&mut self, index: usize) -> (r: &mut F)
        requires
            index < old(self)@.len(),
        ensures
            *r == old(self)@[index as int],
            final(self)@ == old(self)@.update(index as int, *final(r)),
    {
        &mut self.storage[index]
    }
}

impl<F, B> vstd::std_specs::core::IndexSpecImpl<usize> for Polynomial<F, B, Host> {
    open spec fn index_req(&self, index: &usize) -> bool {
        *index < self@.len()
    }
}

impl<F, B> Index<usize> for Polynomial<F, B, Host> {
    type Output = F;

    fn index(&self, index: usize) -> (r: &F)
        ensures
            *r == self@[index as int],
    {
        &self.storage[index]
    }
}

impl<F, B> vstd::std_specs::core::IndexSpecImpl<Range<usize>> for Polynomial<F, B, Host> {
    open spec fn index_req(&self, index: &Range<usize>) -> bool {
        index.start <= index.end <= self@.len()
    }
}

impl<F, B> Index<Range<usize>> for Polynomial<F, B, Host> {
    type Output = [F];

    fn index(&self, index: Range<usize>) -> (r: &[F])
        ensures
            r@ == self@.subrange(index.start as int, index.end as int),
    {
        vstd::slice::slice_subrange(self.values(), index.start, index.end)
    }
}

impl<F, B> Deref for Polynomial<F, B, Host> {
    type Target = [F];

    fn deref(&self) -> (r: &[F])
        ensures
            r@ == self@,
    {
        self.values()
    }
}

impl<F, B> DerefMut for Polynomial<F, B, Host> {
    fn deref_mut(&mut self) -> (r: &mut [F])
        ensures
            r@ == old(self)@,
            final(self)@ == final(r)@,
    {
        self.values_mut()
    }
}

/// Describes the relative rotation of a vector. Negative numbers represent
/// reverse (leftmost) rotations and positive numbers represent forward (rightmost)
/// rotations. Zero represents no rotation.
#[derive(Copy, Clone, Debug, PartialEq, Eq, Structural)]
pub struct Rotation(pub i32);

impl Rotation {
    /// The current location in the evaluation domain
    pub fn cur() -> (r: Rotation)
        ensures
            r.0 == 0,
    {
        Rotation(0)
    }

    /// The previous location in the evaluation domain
    pub fn prev() -> (r: Rotation)
        ensures
            r.0 == -1,
    {
        Rotation(-1)
    }

    /// The next location in the evaluation domain
    pub fn next() -> (r: Rotation)
        ensures
            r.0 == 1,
    {
        Rotation(1)
    }
}

} // verus!
