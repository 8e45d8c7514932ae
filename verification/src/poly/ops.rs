//! Pointwise arithmetic on host-resident polynomials, and rotation.

use super::laws;
use super::{Basis, LagrangeCoeff, Polynomial, Rotation};
use crate::arithmetic;
use crate::field;
use crate::field::Field;
use std::ops::{Add, Mul, Sub};
use vstd::arithmetic::div_mod;
use vstd::prelude::*;

verus! {

/// The values of `lhs + rhs`: values of `lhs` beyond the length of `rhs` stay
/// as they are, and values of `rhs` beyond the length of `lhs` drop out.
pub open spec fn is_sum<F: Field>(lhs: Seq<F>, rhs: Seq<F>, r: Seq<F>) -> bool {
    &&& r.len() == lhs.len()
    &&& forall|i: int|
        0 <= i < lhs.len() && i < rhs.len() ==> (#[trigger] r[i]).value() == (lhs[i].value()
            + rhs[i].value()) % F::modulus()
    &&& forall|i: int| rhs.len() <= i < lhs.len() ==> #[trigger] r[i] == lhs[i]
}

/// The values of `lhs - rhs`, over the same range as [`is_sum`].
pub open spec fn is_difference<F: Field>(lhs: Seq<F>, rhs: Seq<F>, r: Seq<F>) -> bool {
    &&& r.len() == lhs.len()
    &&& forall|i: int|
        0 <= i < lhs.len() && i < rhs.len() ==> (#[trigger] r[i]).value() == (lhs[i].value()
            - rhs[i].value()) % F::modulus()
    &&& forall|i: int| rhs.len() <= i < lhs.len() ==> #[trigger] r[i] == lhs[i]
}

/// The values of `p` times the scalar `c`.
pub open spec fn is_scaled<F: Field>(p: Seq<F>, c: F, r: Seq<F>) -> bool {
    &&& r.len() == p.len()
    &&& forall|i: int|
        0 <= i < p.len() ==> (#[trigger] r[i]).value() == (p[i].value() * c.value())
            % F::modulus()
}

/// The values of `p` moved so that the value `by` places further on comes to
/// stand in each place, counted cyclically.
pub open spec fn rotated<T>(p: Seq<T>, by: int) -> Seq<T> {
    Seq::new(p.len(), |i: int| p[(i + by) % p.len() as int])
}

impl<'a, F: Field, B: Basis> vstd::std_specs::ops::AddSpecImpl<&'a Polynomial<F, B>>
    for Polynomial<F, B> {
    open spec fn obeys_add_spec() -> bool {
        false
    }

    open spec fn add_req(self, rhs: &'a Polynomial<F, B>) -> bool {
        true
    }

    open spec fn add_spec(self, rhs: &'a Polynomial<F, B>) -> Polynomial<F, B> {
        arbitrary()
    }
}

impl<'a, F: Field, B: Basis> Add<&'a Polynomial<F, B>> for Polynomial<F, B> {
    type Output = Polynomial<F, B>;

    fn add(self, rhs: &'a Polynomial<F, B>) -> (r: Polynomial<F, B>)
        ensures
            is_sum(self@, rhs@, r@),
    {
        let mut values = self.into_values();
        let other = rhs.values();
        let ghost lhs = values@;
        let mut i: usize = 0;
        while i < values.len() && i < other.len()
            invariant
                i <= lhs.len(),
                i <= rhs@.len(),
                other@ == rhs@,
                values@.len() == lhs.len(),
                forall|j: int|
                    0 <= j < i ==> (#[trigger] values@[j]).value() == (lhs[j].value()
                        + rhs@[j].value()) % F::modulus(),
                forall|j: int| i <= j < lhs.len() ==> #[trigger] values@[j] == lhs[j],
            decreases lhs.len() - i,
        {
            values[i] = values[i].add(&other[i]);
            i += 1;
        }
        Polynomial::new(values)
    }
}

impl<'a, F: Field, B: Basis> vstd::std_specs::ops::SubSpecImpl<&'a Polynomial<F, B>>
    for Polynomial<F, B> {
    open spec fn obeys_sub_spec() -> bool {
        false
    }

    open spec fn sub_req(self, rhs: &'a Polynomial<F, B>) -> bool {
        true
    }

    open spec fn sub_spec(self, rhs: &'a Polynomial<F, B>) -> Polynomial<F, B> {
        arbitrary()
    }
}

impl<'a, F: Field, B: Basis> Sub<&'a Polynomial<F, B>> for Polynomial<F, B> {
    type Output = Polynomial<F, B>;

    fn sub(self, rhs: &'a Polynomial<F, B>) -> (r: Polynomial<F, B>)
        ensures
            is_difference(self@, rhs@, r@),
    {
        let mut values = self.into_values();
        let other = rhs.values();
        let ghost lhs = values@;
        let mut i: usize = 0;
        while i < values.len() && i < other.len()
            invariant
                i <= lhs.len(),
                i <= rhs@.len(),
                other@ == rhs@,
                values@.len() == lhs.len(),
                forall|j: int|
                    0 <= j < i ==> (#[trigger] values@[j]).value() == (lhs[j].value()
                        - rhs@[j].value()) % F::modulus(),
                forall|j: int| i <= j < lhs.len() ==> #[trigger] values@[j] == lhs[j],
            decreases lhs.len() - i,
        {
            values[i] = values[i].sub(&other[i]);
            i += 1;
        }
        Polynomial::new(values)
    }
}

impl<F: Field, B: Basis> vstd::std_specs::ops::MulSpecImpl<F> for Polynomial<F, B> {
    open spec fn obeys_mul_spec() -> bool {
        false
    }

    open spec fn mul_req(self, rhs: F) -> bool {
        true
    }

    open spec fn mul_spec(self, rhs: F) -> Polynomial<F, B> {
        arbitrary()
    }
}

impl<F: Field, B: Basis> Mul<F> for Polynomial<F, B> {
    type Output = Polynomial<F, B>;

    fn mul(self, rhs: F) -> (r: Polynomial<F, B>)
        ensures
            is_scaled(self@, rhs, r@),
            rhs.value() == 1 ==> r@ == self@,
    {
        let mut values = self.into_values();
        let ghost lhs = values@;
        let n = values.len();
        let mut i: usize = 0;
        if rhs.is_equal(&F::zero()) {
            let zero = F::zero();
            while i < n
                invariant
                    i <= n,
                    n == lhs.len(),
                    values@.len() == n,
                    zero.value() == 0,
                    forall|j: int| 0 <= j < i ==> (#[trigger] values@[j]).value() == 0,
                decreases n - i,
            {
                values[i] = zero;
                i += 1;
            }
            proof {
                F::lemma_modulus();
                div_mod::lemma_small_mod(0, F::modulus() as nat);
                assert forall|j: int| 0 <= j < n implies (#[trigger] values@[j]).value() == (
                lhs[j].value() * rhs.value()) % F::modulus() by {
                    assert(lhs[j].value() * rhs.value() == 0) by (nonlinear_arith)
                        requires
                            rhs.value() == 0,
                    ;
                }
            }
            return Polynomial::new(values);
        }
        if rhs.is_equal(&F::one()) {
            proof {
                assert forall|j: int| 0 <= j < lhs.len() implies (#[trigger] lhs[j]).value() == (
                lhs[j].value() * rhs.value()) % F::modulus() by {
                    lhs[j].lemma_value();
                    div_mod::lemma_small_mod(lhs[j].value() as nat, F::modulus() as nat);
                    assert(lhs[j].value() * rhs.value() == lhs[j].value()) by (nonlinear_arith)
                        requires
                            rhs.value() == 1,
                    ;
                }
            }
            return Polynomial::new(values);
        }
        while i < n
            invariant
                i <= n,
                n == lhs.len(),
                values@.len() == n,
                forall|j: int|
                    0 <= j < i ==> (#[trigger] values@[j]).value() == (lhs[j].value()
                        * rhs.value()) % F::modulus(),
                forall|j: int| i <= j < n ==> #[trigger] values@[j] == lhs[j],
            decreases n - i,
        {
            values[i] = values[i].mul(&rhs);
            i += 1;
        }
        Polynomial::new(values)
    }
}

impl<'a, F: Field, B: Basis> vstd::std_specs::ops::SubSpecImpl<F> for &'a Polynomial<F, B> {
    open spec fn obeys_sub_spec() -> bool {
        false
    }

    open spec fn sub_req(self, rhs: F) -> bool {
        0 < self@.len()
    }

    open spec fn sub_spec(self, rhs: F) -> Polynomial<F, B> {
        arbitrary()
    }
}

impl<'a, F: Field, B: Basis> Sub<F> for &'a Polynomial<F, B> {
    type Output = Polynomial<F, B>;

    fn sub(self, rhs: F) -> (r: Polynomial<F, B>)
        ensures
            r@.len() == self@.len(),
            r@[0].value() == (self@[0].value() - rhs.value()) % F::modulus(),
            forall|i: int| 1 <= i < self@.len() ==> #[trigger] r@[i] == self@[i],
            forall|x: int|
                #[trigger] arithmetic::eval(field::values_of(r@), x) % F::modulus() == (
                arithmetic::eval(field::values_of(self@), x) - rhs.value()) % F::modulus(),
    {
        let mut values = copy_values(self.values());
        values[0] = values[0].sub(&rhs);
        proof {
            assert forall|x: int|
                #[trigger] arithmetic::eval(field::values_of(values@), x) % F::modulus() == (
                arithmetic::eval(field::values_of(self@), x) - rhs.value()) % F::modulus() by {
                laws::lemma_constant_taken(self@, rhs, values@, x);
            }
        }
        Polynomial::new(values)
    }
}

/// The values of a slice in a vector of their own.
pub fn copy_values<T: Copy>(values: &[T]) -> (r: Vec<T>)
    ensures
        r@ == values@,
{
    let mut r: Vec<T> = Vec::new();
    let mut i: usize = 0;
    while i < values.len()
        invariant
            i <= values@.len(),
            r@ == values@.take(i as int),
        decreases values@.len() - i,
    {
        r.push(values[i]);
        i += 1;
        assert(values@.take(i as int) =~= values@.take(i - 1).push(values@[i - 1]));
    }
    assert(values@.take(i as int) =~= values@);
    r
}

impl<F: Field> Polynomial<F, LagrangeCoeff> {
    /// Rotates the values in a Lagrange basis polynomial by `Rotation`
    pub fn rotate(&self, rotation: Rotation) -> (r: Polynomial<F, LagrangeCoeff>)
        requires
            -self@.len() <= rotation.0 <= self@.len(),
        ensures
            r@ == rotated(self@, rotation.0 as int),
    {
        let values = self.values();
        let n = values.len();
        let mut start: usize = 0;
        if n > 0 {
            if rotation.0 < 0 {
                start = n - (-(rotation.0 as i64)) as usize;
            } else if (rotation.0 as usize) < n {
                start = rotation.0 as usize;
            }
        }
        let ghost turns: int = if rotation.0 < 0 {
            1
        } else if rotation.0 == n {
            -1
        } else {
            0
        };
        assert(n * turns == if rotation.0 < 0 {
            n as int
        } else if rotation.0 == n {
            -n
        } else {
            0
        }) by (nonlinear_arith)
            requires
                turns == if rotation.0 < 0 {
                    1int
                } else if rotation.0 == n {
                    -1
                } else {
                    0
                },
        ;
        let mut rotated_values: Vec<F> = Vec::new();
        let mut i: usize = 0;
        let mut from: usize = start;
        while i < n
            invariant
                i <= n,
                n == values@.len(),
                values@ == self@,
                start < n || n == 0,
                start - rotation.0 == n * turns,
                from == if start + i < n {
                    start + i
                } else {
                    start + i - n
                },
                rotated_values@.len() == i,
                forall|j: int|
                    0 <= j < i ==> #[trigger] rotated_values@[j] == self@[(j + rotation.0)
                        % n as int],
            decreases n - i,
        {
            proof {
                let m = n as int;
                let wrap: int = if start + i < n {
                    0
                } else {
                    1
                };
                assert(i + rotation.0 == m * (wrap - turns) + from) by (nonlinear_arith)
                    requires
                        start - rotation.0 == m * turns,
                        from == start + i - wrap * m,
                ;
                div_mod::lemma_fundamental_div_mod_converse(
                    i + rotation.0,
                    m,
                    wrap - turns,
                    from as int,
                );
            }
            rotated_values.push(values[from]);
            from = if from + 1 == n {
                0
            } else {
                from + 1
            };
            i += 1;
        }
        assert(rotated_values@ =~= rotated(self@, rotation.0 as int));
        Polynomial::new(rotated_values)
    }
}

} // verus!
