//! Values of advice cells before their denominators have been inverted.

use crate::field;
use crate::field::Field;
use vstd::prelude::*;

verus! {

/// A value assigned to a cell, held as a fraction.
///
/// A denominator of zero, if present, maps the value to zero, so that
/// inversion can be deferred and done for many cells at once.
#[derive(Debug)]
pub enum Assigned<F> {
    /// The field element zero.
    Zero,
    /// A value that does not require inversion.
    Trivial(F),
    /// A value stored as a numerator and a denominator.
    Rational(F, F),
}

impl<F: Copy> Clone for Assigned<F> {
    fn clone(&self) -> (r: Self)
        ensures
            r == *self,
    {
        *self
    }
}

impl<F: Copy> Copy for Assigned<F> {

}

impl<F: Field> Assigned<F> {
    /// The representative of the numerator.
    pub open spec fn numerator_value(self) -> int {
        match self {
            Assigned::Zero => 0,
            Assigned::Trivial(x) => x.value(),
            Assigned::Rational(numerator, _) => numerator.value(),
        }
    }

    /// `v` is the representative of the field element that this fraction
    /// stands for.
    pub open spec fn evaluates_to(self, v: int) -> bool {
        match self {
            Assigned::Zero => v == 0,
            Assigned::Trivial(x) => v == x.value(),
            Assigned::Rational(numerator, denominator) => exists|inv: int|
                0 <= inv < F::modulus() && #[trigger] field::is_inverse_or_zero(
                    denominator.value(),
                    inv,
                    F::modulus(),
                ) && v == (numerator.value() * inv) % F::modulus(),
        }
    }

    /// The numerator.
    pub fn numerator(&self) -> (r: F)
        ensures
            r.value() == self.numerator_value(),
            self matches Assigned::Trivial(x) ==> r == x,
            self matches Assigned::Rational(x, _) ==> r == x,
    {
        match self {
            Assigned::Zero => F::zero(),
            Assigned::Trivial(x) => *x,
            Assigned::Rational(numerator, _) => *numerator,
        }
    }

    /// The denominator, if it is not trivially one.
    pub fn denominator(&self) -> (r: Option<F>)
        ensures
            r == (match *self {
                Assigned::Rational(_, denominator) => Some(denominator),
                _ => None::<F>,
            }),
    {
        match self {
            Assigned::Zero => None,
            Assigned::Trivial(_) => None,
            Assigned::Rational(_, denominator) => Some(*denominator),
        }
    }
}

} // verus!
