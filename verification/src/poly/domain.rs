//! Evaluation domains: the powers of a root of unity, and the change between
//! the values of a polynomial on them and its coefficients.

use super::{Coeff, LagrangeCoeff, Polynomial, Rotation};
use crate::arithmetic;
use crate::dft;
use crate::fft;
use crate::field;
use crate::field::Field;
use crate::plonk::Assigned;
use vstd::arithmetic::div_mod;
use vstd::arithmetic::power;
use vstd::prelude::*;

verus! {

/// The `n` powers of a root of unity, with what is needed to interpolate
/// through them.
pub struct EvaluationDomain<F> {
    /// The number of points.
    pub n: usize,
    /// The root of unity.
    pub omega: F,
    /// The inverse of the root.
    pub omega_inv: F,
    /// The inverse of the number of points.
    pub ifft_divisor: F,
}

/// The polynomial with coefficients `coeffs` takes `values` at the powers of
/// `omega`, and has no more coefficients than there are values.
pub open spec fn interpolates(coeffs: Seq<int>, values: Seq<int>, omega: int, m: int) -> bool {
    &&& coeffs.len() == values.len()
    &&& forall|j: int|
        #![trigger values[j]]
        0 <= j < values.len() ==> arithmetic::eval(coeffs, power::pow(omega, j as nat)) % m
            == values[j]
}

/// The factor by which a rotation moves a point of the domain: a power of
/// `omega`, or of its inverse where the rotation goes backwards.
pub open spec fn rotation_factor(omega: int, omega_inv: int, rotation: int) -> int {
    if rotation >= 0 {
        power::pow(omega, rotation as nat)
    } else {
        power::pow(omega_inv, (-rotation) as nat)
    }
}

impl<F: Field> EvaluationDomain<F> {
    /// The root is one for the number of points, and the two inverses are
    /// what they are said to be.
    pub open spec fn wf(&self) -> bool {
        &&& fft::is_root(self.omega.value(), self.n as int, F::modulus())
        &&& (self.omega.value() * self.omega_inv.value()) % F::modulus() == 1
        &&& (self.n * self.ifft_divisor.value()) % F::modulus() == 1
    }

    /// The domain of `2^k` points generated by `omega`. `None` exactly if
    /// `omega` is not a root of unity for that many points, if their number
    /// is zero in the field, or if it takes more than 31 bits.
    pub fn new(k: u32, omega: F) -> (r: Option<Self>)
        ensures
            r is Some <==> k < 31 && fft::is_root(
                omega.value(),
                power::pow(2, k as nat),
                F::modulus(),
            ) && omega.value() != 0 && power::pow(2, k as nat) % F::modulus() != 0,
            r is Some ==> r->0.wf() && r->0.n == power::pow(2, k as nat) && r->0.omega == omega,
    {
        if k >= 31 {
            return None;
        }
        let ghost m = F::modulus();
        let mut n: usize = 1;
        let mut n_element = F::one();
        let mut i: u32 = 0;
        // omega^(n / 2) once n has reached at least two
        let mut half = F::one();
        let mut full = omega;
        proof {
            F::lemma_modulus();
            power::lemma_pow0(2);
            power::lemma_pow1(omega.value());
            omega.lemma_value();
            div_mod::lemma_small_mod(1, m as nat);
            div_mod::lemma_small_mod(omega.value() as nat, m as nat);
        }
        while i < k
            invariant
                i <= k,
                k < 31,
                1 < m,
                m == F::modulus(),
                n == power::pow(2, i as nat),
                1 <= n,
                i < 31 ==> n < 0x8000_0000,
                fft::is_power_of_two(n as int),
                n_element.value() == n as int % m,
                full.value() == power::pow(omega.value(), n as nat) % m,
                i > 0 ==> n > 1 && half.value() == power::pow(omega.value(), (n / 2) as nat) % m,
            decreases k - i,
        {
            proof {
                reveal(power::pow);
                assert(power::pow(2, (i + 1) as nat) == 2 * n);
                lemma_pow2_bound((i + 1) as nat);
                let w = power::pow(omega.value(), n as nat);
                power::lemma_pow_adds(omega.value(), n as nat, n as nat);
                assert((2 * n) as nat == n as nat + n as nat);
                arithmetic::lemma_congruent_mod(w, m);
                arithmetic::lemma_congruent_mul(w % m, w, w % m, w, m);
                arithmetic::lemma_congruent_mod(n as int, m);
                arithmetic::lemma_congruent_add(n as int % m, n as int, n as int % m, n as int, m);
                assert((2 * n) / 2 == n);
                assert(fft::is_power_of_two(2 * n));
            }
            half = full;
            full = full.mul(&full);
            n = 2 * n;
            n_element = n_element.add(&n_element);
            i += 1;
        }
        let zero = F::zero();
        let minus_one = zero.sub(&F::one());
        proof {
            assert(field::congruent(minus_one.value(), -1, m)) by {
                arithmetic::lemma_congruent_mod(0 - 1, m);
            }
            if k > 0 {
                let w = power::pow(omega.value(), (n / 2) as nat);
                arithmetic::lemma_congruent_mod(w, m);
                half.lemma_value();
                minus_one.lemma_value();
                div_mod::lemma_small_mod(half.value() as nat, m as nat);
                div_mod::lemma_small_mod(minus_one.value() as nat, m as nat);
                assert(half.value() == minus_one.value() <==> field::congruent(w, -1, m));
            }
        }
        if k > 0 && !half.is_equal(&minus_one) {
            return None;
        }
        if k == 0 && !omega.is_equal(&F::one()) {
            return None;
        }
        if omega.is_equal(&zero) || n_element.is_equal(&zero) {
            return None;
        }
        let mut elements: Vec<F> = Vec::new();
        elements.push(omega);
        elements.push(n_element);
        let inverses = F::batch_invert(elements);
        let domain = EvaluationDomain {
            n,
            omega,
            omega_inv: inverses[0],
            ifft_divisor: inverses[1],
        };
        proof {
            assert(field::is_inverse_or_zero(elements@[0].value(), inverses@[0].value(), m));
            assert(field::is_inverse_or_zero(elements@[1].value(), inverses@[1].value(), m));
            let d = domain.ifft_divisor.value();
            arithmetic::lemma_congruent_mod(n as int, m);
            arithmetic::lemma_congruent_mul(n as int % m, n as int, d, d, m);
            if k == 0 {
                assert(n == 1);
            }
        }
        Some(domain)
    }

    /// The zero polynomial in the Lagrange basis.
    pub fn empty_lagrange(&self) -> (r: Polynomial<F, LagrangeCoeff>)
        ensures
            r@.len() == self.n,
            forall|i: int| 0 <= i < self.n ==> (#[trigger] r@[i]).value() == 0,
    {
        let mut values: Vec<F> = Vec::new();
        let mut i: usize = 0;
        while i < self.n
            invariant
                i <= self.n,
                values@.len() == i,
                forall|j: int| 0 <= j < i ==> (#[trigger] values@[j]).value() == 0,
            decreases self.n - i,
        {
            values.push(F::zero());
            i += 1;
        }
        Polynomial::new(values)
    }

    /// A column of unassigned cells, which count as zero.
    pub fn empty_lagrange_assigned(&self) -> (r: Polynomial<Assigned<F>, LagrangeCoeff>)
        ensures
            r@ == Seq::new(self.n as nat, |i: int| Assigned::<F>::Zero),
    {
        let mut values: Vec<Assigned<F>> = Vec::new();
        let mut i: usize = 0;
        while i < self.n
            invariant
                i <= self.n,
                values@ == Seq::new(i as nat, |i: int| Assigned::<F>::Zero),
            decreases self.n - i,
        {
            values.push(Assigned::Zero);
            i += 1;
            assert(values@ =~= Seq::new(i as nat, |i: int| Assigned::<F>::Zero));
        }
        Polynomial::new(values)
    }

    /// The polynomial whose values on the domain are `values`.
    pub fn lagrange_from_vec(&self, values: Vec<F>) -> (r: Polynomial<F, LagrangeCoeff>)
        requires
            values@.len() == self.n,
        ensures
            r@ == values@,
    {
        Polynomial::new(values)
    }

    /// The coefficients of the polynomial whose values on the domain are
    /// given.
    pub fn lagrange_to_coeff(&self, a: Polynomial<F, LagrangeCoeff>) -> (r: Polynomial<F, Coeff>)
        requires
            self.wf(),
            a@.len() == self.n,
        ensures
            interpolates(
                field::values_of(r@),
                field::values_of(a@),
                self.omega.value(),
                F::modulus(),
            ),
    {
        let ghost m = F::modulus();
        let ghost w = self.omega.value();
        let ghost inverse = self.omega_inv.value();
        let ghost divisor = self.ifft_divisor.value();
        let ghost v = field::values_of(a@);
        proof {
            F::lemma_modulus();
            div_mod::lemma_small_mod(1, m as nat);
            dft::lemma_inverse_root(w, inverse, self.n as int, m);
        }
        let mut coeffs = fft::fft(a.values(), self.omega_inv);
        let ghost transformed = coeffs@;
        let n = coeffs.len();
        let mut i: usize = 0;
        while i < n
            invariant
                i <= n,
                n == transformed.len(),
                coeffs@.len() == n,
                m == F::modulus(),
                divisor == self.ifft_divisor.value(),
                forall|j: int|
                    0 <= j < i ==> (#[trigger] coeffs@[j]).value() == (transformed[j].value()
                        * divisor) % m,
                forall|j: int| i <= j < n ==> #[trigger] coeffs@[j] == transformed[j],
            decreases n - i,
        {
            coeffs[i] = coeffs[i].mul(&self.ifft_divisor);
            i += 1;
        }
        proof {
            let c = field::values_of(coeffs@);
            assert forall|k: int| 0 <= k < v.len() implies field::congruent(
                #[trigger] c[k],
                divisor * arithmetic::eval(v, power::pow(inverse, k as nat)),
                m,
            ) by {
                let e = arithmetic::eval(v, power::pow(inverse, k as nat));
                assert(c[k] == coeffs@[k].value());
                assert(transformed[k].value() == e % m);
                arithmetic::lemma_congruent_mod(e, m);
                arithmetic::lemma_congruent_mul(e % m, e, divisor, divisor, m);
                arithmetic::lemma_congruent_mod((e % m) * divisor, m);
                assert(e * divisor == divisor * e) by (nonlinear_arith);
            }
            assert forall|j: int|
                #![trigger v[j]]
                0 <= j < v.len() implies arithmetic::eval(c, power::pow(w, j as nat)) % m
                == v[j] by {
                dft::lemma_inverse_transform(v, c, w, inverse, divisor, m, j);
                a@[j].lemma_value();
                div_mod::lemma_small_mod(v[j] as nat, m as nat);
            }
        }
        Polynomial::new(coeffs)
    }

    /// The point that `rotation` moves `value` to.
    pub fn rotate_omega(&self, value: F, rotation: Rotation) -> (r: F)
        ensures
            r.value() == (value.value() * rotation_factor(
                self.omega.value(),
                self.omega_inv.value(),
                rotation.0 as int,
            )) % F::modulus(),
    {
        let ghost m = F::modulus();
        let ghost f = rotation_factor(
            self.omega.value(),
            self.omega_inv.value(),
            rotation.0 as int,
        );
        let factor = if rotation.0 >= 0 {
            self.omega.pow(rotation.0 as u64)
        } else {
            self.omega_inv.pow((-(rotation.0 as i64)) as u64)
        };
        proof {
            F::lemma_modulus();
            arithmetic::lemma_congruent_mod(f, m);
            arithmetic::lemma_congruent_mul(value.value(), value.value(), f % m, f, m);
        }
        value.mul(&factor)
    }
}

proof fn lemma_pow2_bound(k: nat)
    requires
        k <= 31,
    ensures
        1 <= power::pow(2, k) <= 0x8000_0000,
        k < 31 ==> power::pow(2, k) < 0x8000_0000,
{
    reveal(power::pow);
    power::lemma_pow_increases(2, k, 31);
    power::lemma_pow_positive(2, k);
    assert(power::pow(2, 31) == 0x8000_0000) by {
        reveal_with_fuel(power::pow, 32);
    }
    if k < 31 {
        power::lemma_pow_strictly_increases(2, k, 31);
    }
}

} // verus!
