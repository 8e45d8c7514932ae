//! Laws of polynomial arithmetic, rotation and interpolation.

use super::domain;
use super::invert;
use super::ops;
use super::{EvaluationDomain, LagrangeCoeff, Polynomial};
use crate::arithmetic;
use crate::dft;
use crate::fft;
use crate::field;
use crate::field::Field;
use crate::plonk::Assigned;
use vstd::arithmetic::div_mod;
use vstd::arithmetic::power;
use vstd::prelude::*;

verus! {

/// The values stand for the same field elements.
pub open spec fn same_values<F: Field>(a: Seq<F>, b: Seq<F>) -> bool {
    &&& a.len() == b.len()
    &&& forall|i: int| 0 <= i < a.len() ==> (#[trigger] a[i]).value() == b[i].value()
}

/// Subtracting a polynomial that was added gives back the polynomial that it
/// was added to.
pub proof fn lemma_add_then_subtract<F: Field>(p: Seq<F>, q: Seq<F>, sum: Seq<F>, r: Seq<F>)
    requires
        ops::is_sum(p, q, sum),
        ops::is_difference(sum, q, r),
    ensures
        same_values(r, p),
{
    let m = F::modulus();
    F::lemma_modulus();
    assert forall|i: int| 0 <= i < r.len() implies (#[trigger] r[i]).value() == p[i].value() by {
        if i < q.len() {
            let (a, b) = (p[i].value(), q[i].value());
            p[i].lemma_value();
            assert(sum[i].value() == (a + b) % m);
            arithmetic::lemma_congruent_mod(a + b, m);
            arithmetic::lemma_congruent_add((a + b) % m, a + b, -b, -b, m);
            div_mod::lemma_small_mod(a as nat, m as nat);
        } else {
            assert(sum[i] == p[i]);
        }
    }
}

/// Adding a polynomial that was subtracted gives back the polynomial that it
/// was subtracted from.
pub proof fn lemma_subtract_then_add<F: Field>(p: Seq<F>, q: Seq<F>, difference: Seq<F>, r: Seq<F>)
    requires
        ops::is_difference(p, q, difference),
        ops::is_sum(difference, q, r),
    ensures
        same_values(r, p),
{
    let m = F::modulus();
    F::lemma_modulus();
    assert forall|i: int| 0 <= i < r.len() implies (#[trigger] r[i]).value() == p[i].value() by {
        if i < q.len() {
            let (a, b) = (p[i].value(), q[i].value());
            p[i].lemma_value();
            assert(difference[i].value() == (a - b) % m);
            arithmetic::lemma_congruent_mod(a - b, m);
            arithmetic::lemma_congruent_add((a - b) % m, a - b, b, b, m);
            div_mod::lemma_small_mod(a as nat, m as nat);
        } else {
            assert(difference[i] == p[i]);
        }
    }
}

/// Addition of polynomials of the same length commutes.
pub proof fn lemma_add_commutes<F: Field>(p: Seq<F>, q: Seq<F>, r: Seq<F>, s: Seq<F>)
    requires
        p.len() == q.len(),
        ops::is_sum(p, q, r),
        ops::is_sum(q, p, s),
    ensures
        same_values(r, s),
{
    assert forall|i: int| 0 <= i < r.len() implies (#[trigger] r[i]).value() == s[i].value() by {
        assert(s[i].value() == (q[i].value() + p[i].value()) % F::modulus());
    }
}

/// Scaling a sum is the same as adding what was scaled.
pub proof fn lemma_scale_distributes<F: Field>(
    p: Seq<F>,
    q: Seq<F>,
    c: F,
    sum: Seq<F>,
    scaled_sum: Seq<F>,
    scaled_p: Seq<F>,
    scaled_q: Seq<F>,
    sum_of_scaled: Seq<F>,
)
    requires
        p.len() == q.len(),
        ops::is_sum(p, q, sum),
        ops::is_scaled(sum, c, scaled_sum),
        ops::is_scaled(p, c, scaled_p),
        ops::is_scaled(q, c, scaled_q),
        ops::is_sum(scaled_p, scaled_q, sum_of_scaled),
    ensures
        same_values(scaled_sum, sum_of_scaled),
{
    let m = F::modulus();
    F::lemma_modulus();
    assert forall|i: int| 0 <= i < p.len() implies (#[trigger] scaled_sum[i]).value()
        == sum_of_scaled[i].value() by {
        let (a, b, k) = (p[i].value(), q[i].value(), c.value());
        assert(sum[i].value() == (a + b) % m);
        assert(scaled_p[i].value() == (a * k) % m);
        assert(scaled_q[i].value() == (b * k) % m);
        assert(sum_of_scaled[i].value() == ((a * k) % m + (b * k) % m) % m);
        arithmetic::lemma_congruent_mod(a + b, m);
        arithmetic::lemma_congruent_mul((a + b) % m, a + b, k, k, m);
        arithmetic::lemma_congruent_mod(a * k, m);
        arithmetic::lemma_congruent_mod(b * k, m);
        arithmetic::lemma_congruent_add((a * k) % m, a * k, (b * k) % m, b * k, m);
        assert((a + b) * k == a * k + b * k) by (nonlinear_arith);
    }
}

/// Scaling by one changes nothing, and scaling by zero leaves nothing.
pub proof fn lemma_scale_trivial<F: Field>(p: Seq<F>, c: F, r: Seq<F>)
    requires
        ops::is_scaled(p, c, r),
    ensures
        c.value() == 1 ==> same_values(r, p),
        c.value() == 0 ==> forall|i: int| 0 <= i < r.len() ==> (#[trigger] r[i]).value() == 0,
{
    F::lemma_modulus();
    assert forall|i: int| 0 <= i < r.len() implies (c.value() == 1 ==> (#[trigger] r[i]).value()
        == p[i].value()) && (c.value() == 0 ==> r[i].value() == 0) by {
        p[i].lemma_value();
        div_mod::lemma_small_mod(p[i].value() as nat, F::modulus() as nat);
        div_mod::lemma_small_mod(0, F::modulus() as nat);
        assert(p[i].value() * 1 == p[i].value());
        assert(p[i].value() * 0 == 0);
    }
}

/// Rotating twice is rotating once by the sum.
pub proof fn lemma_rotate_twice<T>(p: Seq<T>, a: int, b: int)
    ensures
        ops::rotated(ops::rotated(p, a), b) == ops::rotated(p, a + b),
{
    let n = p.len() as int;
    assert forall|i: int| 0 <= i < n implies #[trigger] ops::rotated(ops::rotated(p, a), b)[i]
        == ops::rotated(p, a + b)[i] by {
        div_mod::lemma_mod_bound(i + b, n);
        div_mod::lemma_add_mod_noop_right(a, i + b, n);
        assert(((i + b) % n + a) % n == (i + (a + b)) % n);
    }
    assert(ops::rotated(ops::rotated(p, a), b) =~= ops::rotated(p, a + b));
}

/// Rotating by nothing changes nothing, nor does rotating all the way round.
pub proof fn lemma_rotate_trivial<T>(p: Seq<T>)
    ensures
        ops::rotated(p, 0) == p,
        ops::rotated(p, p.len() as int) == p,
        ops::rotated(p, -(p.len() as int)) == p,
{
    let n = p.len() as int;
    assert forall|i: int| 0 <= i < n implies #[trigger] ops::rotated(p, 0)[i] == p[i]
        && ops::rotated(p, n)[i] == p[i] && ops::rotated(p, -n)[i] == p[i] by {
        div_mod::lemma_small_mod(i as nat, n as nat);
        div_mod::lemma_mod_add_multiples_vanish(i, n);
        div_mod::lemma_mod_sub_multiples_vanish(i, n);
        assert(n + i == i + n);
        assert(-n + i == i + -n);
    }
    assert(ops::rotated(p, 0) =~= p);
    assert(ops::rotated(p, n) =~= p);
    assert(ops::rotated(p, -n) =~= p);
}

/// Rotating back undoes a rotation.
pub proof fn lemma_rotate_back<T>(p: Seq<T>, by: int)
    ensures
        ops::rotated(ops::rotated(p, by), -by) == p,
{
    lemma_rotate_twice(p, by, -by);
    lemma_rotate_trivial(p);
    assert(by + -by == 0);
    assert(ops::rotated(p, by + -by) == ops::rotated(p, 0));
}

/// A root raised to the number of points is one.
proof fn lemma_root_full(omega: int, n: int, m: int)
    requires
        0 < m,
        fft::is_root(omega, n, m),
    ensures
        n >= 1,
        field::congruent(power::pow(omega, n as nat), 1, m),
{
    if n == 1 {
        power::lemma_pow1(omega);
    } else {
        let h = (n / 2) as nat;
        let w = power::pow(omega, h);
        power::lemma_pow_adds(omega, h, h);
        assert(n as nat == h + h);
        arithmetic::lemma_congruent_mul(w, -1, w, -1, m);
    }
}

/// A power of a root depends only on the remainder of the exponent.
proof fn lemma_root_remainder(omega: int, n: int, m: int, e: nat)
    requires
        0 < m,
        fft::is_root(omega, n, m),
    ensures
        n >= 1,
        field::congruent(power::pow(omega, e), power::pow(omega, (e as int % n) as nat), m),
{
    lemma_root_full(omega, n, m);
    let q = (e as int / n) as nat;
    let rest = (e as int % n) as nat;
    div_mod::lemma_fundamental_div_mod(e as int, n);
    div_mod::lemma_mod_bound(e as int, n);
    assert(q >= 0 && e == n as nat * q + rest) by {
        div_mod::lemma_div_pos_is_pos(e as int, n);
    }
    let full = power::pow(omega, n as nat);
    power::lemma_pow_multiplies(omega, n as nat, q);
    power::lemma_pow_adds(omega, n as nat * q, rest);
    fft::lemma_pow_congruent(full, 1, q, m);
    power::lemma1_pow(q);
    let r = power::pow(omega, rest);
    arithmetic::lemma_congruent_mul(power::pow(full, q), 1, r, r, m);
    assert(1 * r == r);
}

/// A power of a root times the factor of a rotation is the power that is as
/// many places further on.
proof fn lemma_rotation_factor(omega: int, inverse: int, n: int, m: int, j: int, by: int)
    requires
        0 < m,
        fft::is_root(omega, n, m),
        field::congruent(omega * inverse, 1, m),
        0 <= j,
    ensures
        n >= 1,
        field::congruent(
            power::pow(omega, j as nat) * domain::rotation_factor(omega, inverse, by),
            power::pow(omega, ((j + by) % n) as nat),
            m,
        ),
{
    lemma_root_full(omega, n, m);
    let a = power::pow(omega, j as nat);
    if by >= 0 {
        power::lemma_pow_adds(omega, j as nat, by as nat);
        lemma_root_remainder(omega, n, m, (j + by) as nat);
    } else {
        // raise j to a multiple of n above it, so that the inverse cancels
        let back = -by;
        let e = (j + by + n * back) as nat;
        assert(n * back >= back) by (nonlinear_arith)
            requires
                n >= 1,
                back >= 0,
        ;
        let b = power::pow(inverse, back as nat);
        let p = power::pow(omega, back as nat);
        let w = power::pow(omega, e);
        power::lemma_pow_adds(omega, e, back as nat);
        assert(e + back == j + n * back);
        // a is congruent to omega^(j + n * back), which is w * p
        lemma_root_remainder(omega, n, m, j as nat);
        lemma_root_remainder(omega, n, m, (j + n * back) as nat);
        div_mod::lemma_mod_multiples_vanish(back, j, n);
        assert(n * back + j == j + n * back);
        assert(field::congruent(a, w * p, m));
        // p * b is congruent to one
        power::lemma_pow_distributes(omega, inverse, back as nat);
        fft::lemma_pow_congruent(omega * inverse, 1, back as nat, m);
        power::lemma1_pow(back as nat);
        arithmetic::lemma_congruent_mul(a, w * p, b, b, m);
        assert(w * p * b == w * (p * b)) by (nonlinear_arith);
        arithmetic::lemma_congruent_mul(w, w, p * b, 1, m);
        assert(w * 1 == w);
        lemma_root_remainder(omega, n, m, e);
        div_mod::lemma_mod_multiples_vanish(back, j + by, n);
        assert(n * back + (j + by) == e);
    }
}

/// Rotating the values of a polynomial on the domain gives its values at the
/// rotated points.
pub proof fn lemma_rotation_moves_points<F: Field>(
    domain: EvaluationDomain<F>,
    coeffs: Seq<F>,
    values: Seq<F>,
    by: int,
    j: int,
)
    requires
        domain.wf(),
        values.len() == domain.n,
        domain::interpolates(
            field::values_of(coeffs),
            field::values_of(values),
            domain.omega.value(),
            F::modulus(),
        ),
        0 <= j < domain.n,
    ensures
        ops::rotated(values, by)[j].value() == arithmetic::eval(
            field::values_of(coeffs),
            (power::pow(domain.omega.value(), j as nat) * domain::rotation_factor(
                domain.omega.value(),
                domain.omega_inv.value(),
                by,
            )) % F::modulus(),
        ) % F::modulus(),
{
    let m = F::modulus();
    let n = domain.n as int;
    let omega = domain.omega.value();
    let inverse = domain.omega_inv.value();
    let c = field::values_of(coeffs);
    let v = field::values_of(values);
    F::lemma_modulus();
    div_mod::lemma_small_mod(1, m as nat);
    let i = (j + by) % n;
    div_mod::lemma_mod_bound(j + by, n);
    let point = power::pow(omega, j as nat) * domain::rotation_factor(omega, inverse, by);
    lemma_rotation_factor(omega, inverse, n, m, j, by);
    arithmetic::lemma_congruent_mod(point, m);
    arithmetic::lemma_eval_congruent(c, point % m, power::pow(omega, i as nat), m);
    assert(v[i] == values[i].value());
}

/// There is only one polynomial with no more coefficients than the domain has
/// points that takes given values on it.
pub proof fn lemma_interpolation_unique<F: Field>(
    domain: EvaluationDomain<F>,
    values: Seq<F>,
    a: Seq<F>,
    b: Seq<F>,
)
    requires
        domain.wf(),
        values.len() == domain.n,
        domain::interpolates(
            field::values_of(a),
            field::values_of(values),
            domain.omega.value(),
            F::modulus(),
        ),
        domain::interpolates(
            field::values_of(b),
            field::values_of(values),
            domain.omega.value(),
            F::modulus(),
        ),
    ensures
        same_values(a, b),
{
    let m = F::modulus();
    F::lemma_modulus();
    assert forall|j: int| 0 <= j < a.len() implies (#[trigger] a[j]).value() == b[j].value() by {
        lemma_coefficient(domain, values, a, j);
        lemma_coefficient(domain, values, b, j);
        a[j].lemma_value();
        b[j].lemma_value();
        div_mod::lemma_small_mod(a[j].value() as nat, m as nat);
        div_mod::lemma_small_mod(b[j].value() as nat, m as nat);
    }
}

/// A coefficient is determined by the values on the domain.
proof fn lemma_coefficient<F: Field>(
    domain: EvaluationDomain<F>,
    values: Seq<F>,
    coeffs: Seq<F>,
    j: int,
)
    requires
        domain.wf(),
        values.len() == domain.n,
        domain::interpolates(
            field::values_of(coeffs),
            field::values_of(values),
            domain.omega.value(),
            F::modulus(),
        ),
        0 <= j < domain.n,
    ensures
        field::congruent(
            arithmetic::eval(
                Seq::new(
                    values.len(),
                    |k: int| domain.ifft_divisor.value() * values[k].value(),
                ),
                power::pow(domain.omega_inv.value(), j as nat),
            ),
            coeffs[j].value(),
            F::modulus(),
        ),
{
    let m = F::modulus();
    let n = domain.n as int;
    let omega = domain.omega.value();
    let inverse = domain.omega_inv.value();
    let divisor = domain.ifft_divisor.value();
    let c = field::values_of(coeffs);
    let scaled = Seq::new(values.len(), |k: int| divisor * values[k].value());
    F::lemma_modulus();
    div_mod::lemma_small_mod(1, m as nat);
    assert(inverse * omega == omega * inverse) by (nonlinear_arith);
    dft::lemma_inverse_root(omega, inverse, n, m);
    assert forall|k: int| 0 <= k < c.len() implies field::congruent(
        #[trigger] scaled[k],
        divisor * arithmetic::eval(c, power::pow(omega, k as nat)),
        m,
    ) by {
        let e = arithmetic::eval(c, power::pow(omega, k as nat));
        assert(field::values_of(values)[k] == values[k].value());
        assert(e % m == values[k].value());
        values[k].lemma_value();
        div_mod::lemma_small_mod(values[k].value() as nat, m as nat);
        arithmetic::lemma_congruent_mul(divisor, divisor, values[k].value(), e, m);
    }
    dft::lemma_inverse_transform(c, scaled, inverse, omega, divisor, m, j);
    assert(c[j] == coeffs[j].value());
}

/// A fraction stands for only one field element.
pub proof fn lemma_fraction_unique<F: Field>(a: Assigned<F>, v: int, w: int)
    requires
        a.evaluates_to(v),
        a.evaluates_to(w),
    ensures
        v == w,
{
    let m = F::modulus();
    if let Assigned::Rational(numerator, denominator) = a {
        let d = denominator.value();
        let s = choose|s: int|
            0 <= s < m && #[trigger] field::is_inverse_or_zero(d, s, m) && v == (numerator.value()
                * s) % m;
        let t = choose|t: int|
            0 <= t < m && #[trigger] field::is_inverse_or_zero(d, t, m) && w == (numerator.value()
                * t) % m;
        F::lemma_modulus();
        if d != 0 {
            // s = s * (d * t) = (d * s) * t = t
            div_mod::lemma_small_mod(1, m as nat);
            arithmetic::lemma_congruent_mul(s, s, d * t, 1, m);
            arithmetic::lemma_congruent_mul(d * s, 1, t, t, m);
            assert(s * (d * t) == d * s * t) by (nonlinear_arith);
            assert(s * 1 == s && 1 * t == t);
            div_mod::lemma_small_mod(s as nat, m as nat);
            div_mod::lemma_small_mod(t as nat, m as nat);
        }
    }
}

/// A fraction with a denominator of zero stands for zero.
pub proof fn lemma_zero_denominator<F: Field>(numerator: F, denominator: F, v: int)
    requires
        denominator.value() == 0,
        Assigned::Rational(numerator, denominator).evaluates_to(v),
    ensures
        v == 0,
{
    F::lemma_modulus();
    div_mod::lemma_small_mod(0, F::modulus() as nat);
    assert(numerator.value() * 0 == 0);
}

/// The value of a polynomial is the sum of its coefficients times powers of the
/// point: one more coefficient adds itself times the next power.
pub proof fn lemma_eval_of_one_more(coeffs: Seq<int>, c: int, x: int)
    ensures
        arithmetic::eval(Seq::<int>::empty(), x) == 0,
        arithmetic::eval(coeffs.push(c), x) == arithmetic::eval(coeffs, x) + c * power::pow(
            x,
            coeffs.len(),
        ),
    decreases coeffs.len(),
{
    let all = coeffs.push(c);
    if coeffs.len() == 0 {
        power::lemma_pow0(x);
        assert(all.skip(1) =~= Seq::empty());
        assert(arithmetic::eval(all.skip(1), x) == 0);
        assert(all[0] == c);
        assert(x * 0 == 0);
        assert(c * 1 == c);
    } else {
        let rest = coeffs.skip(1);
        lemma_eval_of_one_more(rest, c, x);
        assert(all.skip(1) =~= rest.push(c));
        assert(all[0] == coeffs[0]);
        let (e, p) = (arithmetic::eval(rest, x), power::pow(x, rest.len()));
        let n = coeffs.len();
        assert(rest.len() == n - 1);
        assert(power::pow(x, n) == x * power::pow(x, (n - 1) as nat)) by {
            reveal(power::pow);
        }
        assert(x * (e + c * p) == x * e + c * (x * p)) by (nonlinear_arith);
    }
}

/// Values that are combined coefficient by coefficient combine in the same way:
/// `r` is `p` times `a` plus `q` times `b`, where coefficients that `q` lacks count
/// as zero.
proof fn lemma_combined_evaluates(
    p: Seq<int>,
    q: Seq<int>,
    r: Seq<int>,
    a: int,
    b: int,
    x: int,
    m: int,
)
    requires
        0 < m,
        q.len() <= p.len(),
        r.len() == p.len(),
        forall|i: int|
            0 <= i < p.len() ==> field::congruent(
                #[trigger] r[i],
                p[i] * a + (if i < q.len() {
                    q[i] * b
                } else {
                    0
                }),
                m,
            ),
    ensures
        field::congruent(
            arithmetic::eval(r, x),
            arithmetic::eval(p, x) * a + arithmetic::eval(q, x) * b,
            m,
        ),
    decreases p.len(),
{
    if p.len() > 0 {
        let (p1, r1) = (p.skip(1), r.skip(1));
        let q1 = if q.len() > 0 {
            q.skip(1)
        } else {
            q
        };
        assert forall|i: int| 0 <= i < p1.len() implies field::congruent(
            #[trigger] r1[i],
            p1[i] * a + (if i < q1.len() {
                q1[i] * b
            } else {
                0
            }),
            m,
        ) by {
            assert(r1[i] == r[i + 1]);
        }
        lemma_combined_evaluates(p1, q1, r1, a, b, x, m);
        let (ep, eq, er) = (
            arithmetic::eval(p1, x),
            arithmetic::eval(q1, x),
            arithmetic::eval(r1, x),
        );
        let q0 = if q.len() > 0 {
            q[0]
        } else {
            0
        };
        assert(field::congruent(r[0], p[0] * a + q0 * b, m)) by {
            assert(0 * b == 0);
        }
        assert(arithmetic::eval(q, x) == q0 + x * eq) by {
            if q.len() == 0 {
                assert(x * 0 == 0);
            }
        }
        arithmetic::lemma_congruent_mul(x, x, er, ep * a + eq * b, m);
        arithmetic::lemma_congruent_add(
            r[0],
            p[0] * a + q0 * b,
            x * er,
            x * (ep * a + eq * b),
            m,
        );
        let p0 = p[0];
        assert(x * (ep * a + eq * b) == (x * ep) * a + (x * eq) * b) by (nonlinear_arith);
        assert((p0 + x * ep) * a == p0 * a + (x * ep) * a) by (nonlinear_arith);
        assert((q0 + x * eq) * b == q0 * b + (x * eq) * b) by (nonlinear_arith);
    } else {
        assert(0 * a + 0 * b == 0);
    }
}

/// The sum of two polynomials takes at every point the sum of their values there,
/// if the second has no more coefficients than the first.
pub proof fn lemma_sum_evaluates<F: Field>(p: Seq<F>, q: Seq<F>, r: Seq<F>, x: int)
    requires
        q.len() <= p.len(),
        ops::is_sum(p, q, r),
    ensures
        arithmetic::eval(field::values_of(r), x) % F::modulus() == (arithmetic::eval(
            field::values_of(p),
            x,
        ) + arithmetic::eval(field::values_of(q), x)) % F::modulus(),
{
    let m = F::modulus();
    F::lemma_modulus();
    let (vp, vq, vr) = (field::values_of(p), field::values_of(q), field::values_of(r));
    assert forall|i: int| 0 <= i < vp.len() implies field::congruent(
        #[trigger] vr[i],
        vp[i] * 1 + (if i < vq.len() {
            vq[i] * 1
        } else {
            0
        }),
        m,
    ) by {
        assert(vr[i] == r[i].value());
        if i < vq.len() {
            arithmetic::lemma_congruent_mod(p[i].value() + q[i].value(), m);
        }
    }
    lemma_combined_evaluates(vp, vq, vr, 1, 1, x, m);
}

/// The difference of two polynomials takes at every point the difference of their
/// values there, if the second has no more coefficients than the first.
pub proof fn lemma_difference_evaluates<F: Field>(p: Seq<F>, q: Seq<F>, r: Seq<F>, x: int)
    requires
        q.len() <= p.len(),
        ops::is_difference(p, q, r),
    ensures
        arithmetic::eval(field::values_of(r), x) % F::modulus() == (arithmetic::eval(
            field::values_of(p),
            x,
        ) - arithmetic::eval(field::values_of(q), x)) % F::modulus(),
{
    let m = F::modulus();
    F::lemma_modulus();
    let (vp, vq, vr) = (field::values_of(p), field::values_of(q), field::values_of(r));
    assert forall|i: int| 0 <= i < vp.len() implies field::congruent(
        #[trigger] vr[i],
        vp[i] * 1 + (if i < vq.len() {
            vq[i] * -1
        } else {
            0
        }),
        m,
    ) by {
        assert(vr[i] == r[i].value());
        if i < vq.len() {
            arithmetic::lemma_congruent_mod(p[i].value() - q[i].value(), m);
        }
    }
    lemma_combined_evaluates(vp, vq, vr, 1, -1, x, m);
}

/// A scaled polynomial takes at every point the scaled value.
pub proof fn lemma_scaled_evaluates<F: Field>(p: Seq<F>, c: F, r: Seq<F>, x: int)
    requires
        ops::is_scaled(p, c, r),
    ensures
        arithmetic::eval(field::values_of(r), x) % F::modulus() == (arithmetic::eval(
            field::values_of(p),
            x,
        ) * c.value()) % F::modulus(),
{
    let m = F::modulus();
    F::lemma_modulus();
    let (vp, vr) = (field::values_of(p), field::values_of(r));
    let none = Seq::<int>::empty();
    assert forall|i: int| 0 <= i < vp.len() implies field::congruent(
        #[trigger] vr[i],
        vp[i] * c.value() + (if i < none.len() {
            none[i] * 0
        } else {
            0
        }),
        m,
    ) by {
        assert(vr[i] == r[i].value());
        arithmetic::lemma_congruent_mod(p[i].value() * c.value(), m);
    }
    lemma_combined_evaluates(vp, none, vr, c.value(), 0, x, m);
}

/// Sums, differences and multiples are taken place by place, in any basis. Places that
/// the second operand does not have stay as they are, and those that the first does
/// not have drop out.
pub proof fn lemma_place_by_place<F: Field>(p: Seq<F>, q: Seq<F>, c: F, r: Seq<F>, i: int)
    requires
        0 <= i < p.len(),
    ensures
        ops::is_sum(p, q, r) || ops::is_difference(p, q, r) || ops::is_scaled(p, c, r) ==> r.len()
            == p.len(),
        ops::is_sum(p, q, r) && i < q.len() ==> r[i].value() == (p[i].value() + q[i].value())
            % F::modulus(),
        ops::is_difference(p, q, r) && i < q.len() ==> r[i].value() == (p[i].value()
            - q[i].value()) % F::modulus(),
        ops::is_sum(p, q, r) || ops::is_difference(p, q, r) ==> i >= q.len() ==> r[i] == p[i],
        ops::is_scaled(p, c, r) ==> r[i].value() == (p[i].value() * c.value()) % F::modulus(),
{
}

/// A scalar that is taken from the first coefficient is taken from the value at
/// every point.
pub proof fn lemma_constant_taken<F: Field>(p: Seq<F>, c: F, r: Seq<F>, x: int)
    requires
        0 < p.len(),
        r.len() == p.len(),
        r[0].value() == (p[0].value() - c.value()) % F::modulus(),
        forall|i: int| 1 <= i < p.len() ==> #[trigger] r[i] == p[i],
    ensures
        arithmetic::eval(field::values_of(r), x) % F::modulus() == (arithmetic::eval(
            field::values_of(p),
            x,
        ) - c.value()) % F::modulus(),
{
    let m = F::modulus();
    F::lemma_modulus();
    let (vp, vr) = (field::values_of(p), field::values_of(r));
    let one = seq![c.value()];
    assert forall|i: int| 0 <= i < vp.len() implies field::congruent(
        #[trigger] vr[i],
        vp[i] * 1 + (if i < one.len() {
            one[i] * -1
        } else {
            0
        }),
        m,
    ) by {
        assert(vr[i] == r[i].value());
        if i == 0 {
            arithmetic::lemma_congruent_mod(p[0].value() - c.value(), m);
        }
    }
    lemma_combined_evaluates(vp, one, vr, 1, -1, x, m);
    assert(arithmetic::eval(one, x) == c.value()) by {
        assert(one.skip(1) =~= Seq::empty());
        assert(arithmetic::eval(one.skip(1), x) == 0);
        assert(x * 0 == 0);
    }
}

/// Rotating by one place brings every value one place forward, and the first one to
/// the end. With the fact that rotations compose this tells what every rotation does.
pub proof fn lemma_rotate_once<T>(p: Seq<T>)
    requires
        0 < p.len(),
    ensures
        ops::rotated(p, 1).len() == p.len(),
        forall|i: int| 0 <= i < p.len() - 1 ==> #[trigger] ops::rotated(p, 1)[i] == p[i + 1],
        ops::rotated(p, 1)[p.len() - 1] == p[0],
        ops::rotated(p, -1)[0] == p[p.len() - 1],
{
    let n = p.len() as int;
    assert forall|i: int| 0 <= i < n - 1 implies #[trigger] ops::rotated(p, 1)[i] == p[i + 1] by {
        div_mod::lemma_small_mod((i + 1) as nat, n as nat);
    }
    div_mod::lemma_mod_self_0(n);
    div_mod::lemma_mod_add_multiples_vanish(-1, n);
    div_mod::lemma_small_mod((n - 1) as nat, n as nat);
    assert((n - 1 + 1) % n == 0);
    assert((0 + -1) % n == n - 1);
}

/// No rotation leaves a point where it is, and one place further on multiplies it
/// by the root once more. This tells where every rotation moves a point.
pub proof fn lemma_rotation_steps<F: Field>(domain: EvaluationDomain<F>, by: int)
    requires
        domain.wf(),
    ensures
        domain::rotation_factor(domain.omega.value(), domain.omega_inv.value(), 0) == 1,
        domain::rotation_factor(domain.omega.value(), domain.omega_inv.value(), by + 1)
            % F::modulus() == (domain::rotation_factor(
            domain.omega.value(),
            domain.omega_inv.value(),
            by,
        ) * domain.omega.value()) % F::modulus(),
{
    let m = F::modulus();
    let (w, v) = (domain.omega.value(), domain.omega_inv.value());
    F::lemma_modulus();
    power::lemma_pow0(w);
    if by >= 0 {
        power::lemma_pow_adds(w, by as nat, 1);
        power::lemma_pow1(w);
    } else {
        let k = (-by) as nat;
        let p = power::pow(v, (k - 1) as nat);
        power::lemma_pow_adds(v, (k - 1) as nat, 1);
        power::lemma_pow1(v);
        assert(power::pow(v, k) == p * v);
        assert(p * v * w == p * (w * v)) by (nonlinear_arith);
        div_mod::lemma_small_mod(1, m as nat);
        arithmetic::lemma_congruent_mul(p, p, w * v, 1, m);
        power::lemma_pow0(v);
    }
}

/// The points of a domain: going round it once comes back to one, and going half
/// way round, where there is a half, comes to minus one. The two inverses are what
/// they are said to be.
pub proof fn lemma_domain_points<F: Field>(domain: EvaluationDomain<F>)
    requires
        domain.wf(),
    ensures
        1 <= domain.n,
        power::pow(domain.omega.value(), domain.n as nat) % F::modulus() == 1,
        domain.n > 1 ==> power::pow(domain.omega.value(), (domain.n / 2) as nat) % F::modulus()
            == F::modulus() - 1,
        (domain.omega.value() * domain.omega_inv.value()) % F::modulus() == 1,
        (domain.n * domain.ifft_divisor.value()) % F::modulus() == 1,
{
    let m = F::modulus();
    F::lemma_modulus();
    lemma_root_full(domain.omega.value(), domain.n as int, m);
    div_mod::lemma_small_mod(1, m as nat);
    div_mod::lemma_small_mod((m - 1) as nat, m as nat);
    div_mod::lemma_mod_add_multiples_vanish(-1, m);
}

/// The coefficients of a polynomial that takes given values on the domain: at the
/// `j`-th power of the root it takes the `j`-th value, and there are no more
/// coefficients than values.
pub proof fn lemma_interpolation_takes_values<F: Field>(
    domain: EvaluationDomain<F>,
    coeffs: Seq<F>,
    values: Seq<F>,
    j: int,
)
    requires
        domain::interpolates(
            field::values_of(coeffs),
            field::values_of(values),
            domain.omega.value(),
            F::modulus(),
        ),
        0 <= j < values.len(),
    ensures
        coeffs.len() == values.len(),
        arithmetic::eval(
            field::values_of(coeffs),
            power::pow(domain.omega.value(), j as nat),
        ) % F::modulus() == values[j].value(),
{
    assert(field::values_of(coeffs).len() == coeffs.len());
    assert(field::values_of(values)[j] == values[j].value());
}

/// What a fraction stands for, multiplied by the denominator, is the numerator. A
/// value without a denominator stands for itself, and nothing stands for zero.
pub proof fn lemma_fraction<F: Field>(a: Assigned<F>, v: int)
    requires
        a.evaluates_to(v),
    ensures
        0 <= v < F::modulus(),
        a is Zero ==> v == 0,
        a matches Assigned::Trivial(x) ==> v == x.value(),
        a matches Assigned::Rational(numerator, denominator) ==> denominator.value() != 0 ==> (v
            * denominator.value()) % F::modulus() == numerator.value(),
{
    let m = F::modulus();
    F::lemma_modulus();
    match a {
        Assigned::Zero => {},
        Assigned::Trivial(x) => {
            x.lemma_value();
        },
        Assigned::Rational(numerator, denominator) => {
            let d = denominator.value();
            let a = numerator.value();
            let s = choose|s: int|
                0 <= s < m && #[trigger] field::is_inverse_or_zero(d, s, m) && v == (a * s) % m;
            if d != 0 {
                numerator.lemma_value();
                arithmetic::lemma_congruent_mod(a * s, m);
                arithmetic::lemma_congruent_mul((a * s) % m, a * s, d, d, m);
                div_mod::lemma_small_mod(1, m as nat);
                arithmetic::lemma_congruent_mul(a, a, d * s, 1, m);
                assert(a * s * d == a * (d * s)) by (nonlinear_arith);
                div_mod::lemma_small_mod(a as nat, m as nat);
            }
        },
    }
}

/// The columns that are inverted are the given ones, in their order.
pub proof fn lemma_inverted_columns<F>(assigned: Seq<&[Assigned<F>]>, i: int)
    requires
        0 <= i < assigned.len(),
    ensures
        invert::columns_of(assigned).len() == assigned.len(),
        invert::columns_of(assigned)[i] == assigned[i]@,
{
}

/// Every cell comes back in its own place, as the field element that its fraction
/// stands for: times the denominator it is the numerator, and it is zero if the
/// denominator is.
pub proof fn lemma_inverted_cells<F: Field>(
    columns: Seq<Seq<Assigned<F>>>,
    r: Seq<Polynomial<F, LagrangeCoeff>>,
    i: int,
    j: int,
)
    requires
        invert::all_evaluated(columns, r),
        0 <= i < columns.len(),
        0 <= j < columns[i].len(),
    ensures
        r.len() == columns.len(),
        r[i]@.len() == columns[i].len(),
        match columns[i][j] {
            Assigned::Zero => r[i]@[j].value() == 0,
            Assigned::Trivial(x) => r[i]@[j].value() == x.value(),
            Assigned::Rational(numerator, denominator) => if denominator.value() == 0 {
                r[i]@[j].value() == 0
            } else {
                (r[i]@[j].value() * denominator.value()) % F::modulus() == numerator.value()
            },
        },
{
    let v = r[i]@[j].value();
    assert(invert::column_evaluated(columns[i], r[i]@));
    assert(columns[i][j].evaluates_to(v));
    lemma_fraction(columns[i][j], v);
    if let Assigned::Rational(numerator, denominator) = columns[i][j] {
        if denominator.value() == 0 {
            lemma_zero_denominator(numerator, denominator, v);
        }
    }
}

} // verus!
