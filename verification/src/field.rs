//! Prime field elements as the polynomial code sees them: integers modulo a
//! fixed modulus, with the operations that the prover performs on them.

use vstd::arithmetic::power;
use vstd::prelude::*;

verus! {

/// An element of the integers modulo [`Field::modulus`].
///
/// Every contract in this crate speaks of an element through
/// [`Field::value`], its representative in `0..modulus`.
pub trait Field: Sized + Copy {
    /// The modulus of the field.
    spec fn modulus() -> int;

    /// The representative of this element in `0..modulus`.
    spec fn value(&self) -> int;

    /// The modulus is at least two, so zero and one differ.
    proof fn lemma_modulus()
        ensures
            1 < Self::modulus(),
    ;

    /// The representative lies in `0..modulus`.
    proof fn lemma_value(&self)
        ensures
            0 <= self.value() < Self::modulus(),
    ;

    /// The additive identity.
    fn zero() -> (r: Self)
        ensures
            r.value() == 0,
    ;

    /// The multiplicative identity.
    fn one() -> (r: Self)
        ensures
            r.value() == 1,
    ;

    /// Whether two elements are the same.
    fn is_equal(&self, other: &Self) -> (r: bool)
        ensures
            r == (self.value() == other.value()),
    ;

    /// The sum of two elements.
    fn add(&self, rhs: &Self) -> (r: Self)
        ensures
            r.value() == (self.value() + rhs.value()) % Self::modulus(),
    ;

    /// The difference of two elements.
    fn sub(&self, rhs: &Self) -> (r: Self)
        ensures
            r.value() == (self.value() - rhs.value()) % Self::modulus(),
    ;

    /// The product of two elements.
    fn mul(&self, rhs: &Self) -> (r: Self)
        ensures
            r.value() == (self.value() * rhs.value()) % Self::modulus(),
    ;

    /// This element raised to the power `exp`.
    fn pow(&self, exp: u64) -> (r: Self)
        ensures
            r.value() == power::pow(self.value(), exp as nat) % Self::modulus(),
    ;

    /// Inverts every nonzero element of `values`; zeros stay zero.
    fn batch_invert(values: Vec<Self>) -> (r: Vec<Self>)
        ensures
            r@.len() == values@.len(),
            forall|i: int|
                0 <= i < values@.len() ==> is_inverse_or_zero(
                    values@[i].value(),
                    (#[trigger] r@[i]).value(),
                    Self::modulus(),
                ),
    ;
}

/// `inv` is the inverse of `v` modulo `m`, or zero where `v` is zero.
pub open spec fn is_inverse_or_zero(v: int, inv: int, m: int) -> bool {
    if v == 0 {
        inv == 0
    } else {
        (v * inv) % m == 1
    }
}

/// Two integers that differ by a multiple of `m`.
pub open spec fn congruent(a: int, b: int, m: int) -> bool {
    a % m == b % m
}

/// The integer representatives of a sequence of elements.
pub open spec fn values_of<F: Field>(s: Seq<F>) -> Seq<int> {
    s.map_values(|x: F| x.value())
}

/// The representatives of elements stand in the order of the elements.
pub proof fn lemma_values<F: Field>(s: Seq<F>, i: int)
    requires
        0 <= i < s.len(),
    ensures
        values_of(s).len() == s.len(),
        values_of(s)[i] == s[i].value(),
        0 <= values_of(s)[i] < F::modulus(),
{
    s[i].lemma_value();
}

} // verus!
