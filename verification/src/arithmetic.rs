//! Evaluation of polynomials in coefficient form, and the fast Fourier
//! transform.

use crate::field;
use crate::field::Field;
use vstd::arithmetic::div_mod;
use vstd::prelude::*;

verus! {

/// The value at `x` of the polynomial with the given coefficients, lowest
/// degree first.
pub open spec fn eval(coeffs: Seq<int>, x: int) -> int
    decreases coeffs.len(),
{
    if coeffs.len() == 0 {
        0
    } else {
        coeffs[0] + x * eval(coeffs.skip(1), x)
    }
}

/// Sums of congruent integers are congruent.
pub proof fn lemma_congruent_add(a: int, b: int, c: int, d: int, m: int)
    requires
        0 < m,
        field::congruent(a, b, m),
        field::congruent(c, d, m),
    ensures
        field::congruent(a + c, b + d, m),
{
    div_mod::lemma_add_mod_noop(a, c, m);
    div_mod::lemma_add_mod_noop(b, d, m);
}

/// Products of congruent integers are congruent.
pub proof fn lemma_congruent_mul(a: int, b: int, c: int, d: int, m: int)
    requires
        0 < m,
        field::congruent(a, b, m),
        field::congruent(c, d, m),
    ensures
        field::congruent(a * c, b * d, m),
{
    div_mod::lemma_mul_mod_noop(a, c, m);
    div_mod::lemma_mul_mod_noop(b, d, m);
}

/// An integer is congruent to its remainder.
pub proof fn lemma_congruent_mod(a: int, m: int)
    requires
        0 < m,
    ensures
        field::congruent(a % m, a, m),
{
    div_mod::lemma_mod_twice(a, m);
}

/// Polynomials take congruent values at congruent points.
pub proof fn lemma_eval_congruent(coeffs: Seq<int>, x: int, y: int, m: int)
    requires
        0 < m,
        field::congruent(x, y, m),
    ensures
        field::congruent(eval(coeffs, x), eval(coeffs, y), m),
    decreases coeffs.len(),
{
    if coeffs.len() > 0 {
        let rest = coeffs.skip(1);
        lemma_eval_congruent(rest, x, y, m);
        lemma_congruent_mul(x, y, eval(rest, x), eval(rest, y), m);
        lemma_congruent_add(coeffs[0], coeffs[0], x * eval(rest, x), y * eval(rest, y), m);
    }
}

/// Evaluates a polynomial given by its coefficients, lowest degree first, at
/// `point`.
pub fn eval_polynomial<F: Field>(poly: &[F], point: F) -> (r: F)
    ensures
        r.value() == eval(field::values_of(poly@), point.value()) % F::modulus(),
{
    let ghost coeffs = field::values_of(poly@);
    let ghost x = point.value();
    let ghost m = F::modulus();
    let mut acc = F::zero();
    let mut i: usize = poly.len();
    proof {
        F::lemma_modulus();
        assert(coeffs.skip(i as int).len() == 0);
        div_mod::lemma_small_mod(0, m as nat);
    }
    while i > 0
        invariant
            i <= poly@.len(),
            1 < m,
            m == F::modulus(),
            x == point.value(),
            coeffs == field::values_of(poly@),
            acc.value() == eval(coeffs.skip(i as int), x) % m,
        decreases i,
    {
        i -= 1;
        let ghost rest = coeffs.skip(i + 1);
        acc = acc.mul(&point).add(&poly[i]);
        proof {
            let here = coeffs.skip(i as int);
            assert(here.skip(1) =~= rest);
            assert(here[0] == poly@[i as int].value());
            let tail = eval(rest, x);
            lemma_congruent_mod(tail, m);
            lemma_congruent_mul(tail % m, tail, x, x, m);
            lemma_congruent_mod((tail % m) * x, m);
            lemma_congruent_add(((tail % m) * x) % m, tail * x, here[0], here[0], m);
            assert(tail * x == x * tail) by (nonlinear_arith);
        }
    }
    assert(coeffs.skip(0) =~= coeffs);
    acc
}

} // verus!
