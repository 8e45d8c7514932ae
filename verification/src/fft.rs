//! The radix-two fast Fourier transform.

use crate::arithmetic;
use crate::field;
use crate::field::Field;
use vstd::arithmetic::div_mod;
use vstd::arithmetic::power;
use vstd::prelude::*;

verus! {

/// The terms of even index.
pub open spec fn evens<T>(a: Seq<T>) -> Seq<T> {
    Seq::new(((a.len() + 1) / 2) as nat, |i: int| a[2 * i])
}

/// The terms of odd index.
pub open spec fn odds<T>(a: Seq<T>) -> Seq<T> {
    Seq::new((a.len() / 2) as nat, |i: int| a[2 * i + 1])
}

/// `n` is a power of two.
pub open spec fn is_power_of_two(n: int) -> bool
    decreases n,
{
    n == 1 || (n > 1 && n % 2 == 0 && is_power_of_two(n / 2))
}

/// `n` is a power of two, and `omega` raised to half of it is minus one, or
/// `omega` is one where `n` is: the powers of `omega` below `n` are then the
/// `n`-th roots of unity.
pub open spec fn is_root(omega: int, n: int, m: int) -> bool {
    &&& is_power_of_two(n)
    &&& n == 1 ==> field::congruent(omega, 1, m)
    &&& n > 1 ==> field::congruent(power::pow(omega, (n / 2) as nat), -1, m)
}

/// Powers of congruent integers are congruent.
pub proof fn lemma_pow_congruent(a: int, b: int, e: nat, m: int)
    requires
        0 < m,
        field::congruent(a, b, m),
    ensures
        field::congruent(power::pow(a, e), power::pow(b, e), m),
    decreases e,
{
    reveal(power::pow);
    if e > 0 {
        let e1 = (e - 1) as nat;
        lemma_pow_congruent(a, b, e1, m);
        arithmetic::lemma_congruent_mul(a, b, power::pow(a, e1), power::pow(b, e1), m);
    }
}

/// The square of a root for `n` is a root for half of `n`.
pub proof fn lemma_root_square(omega: int, square: int, n: int, m: int)
    requires
        0 < m,
        n > 1,
        is_root(omega, n, m),
        field::congruent(square, omega * omega, m),
    ensures
        is_root(square, n / 2, m),
{
    reveal_with_fuel(is_power_of_two, 3);
    let h = n / 2;
    if h > 1 {
        let q = (h / 2) as nat;
        power::lemma_square_is_pow2(omega);
        assert(omega * omega == power::pow(omega, 2));
        power::lemma_pow_multiplies(omega, 2, q);
        assert(2 * q == h);
        lemma_pow_congruent(square, omega * omega, q, m);
    } else {
        power::lemma_pow1(omega);
        arithmetic::lemma_congruent_mul(omega, -1, omega, -1, m);
    }
}

proof fn lemma_eval_split(a: Seq<int>, x: int)
    ensures
        arithmetic::eval(a, x) == arithmetic::eval(evens(a), x * x) + x * arithmetic::eval(
            odds(a),
            x * x,
        ),
    decreases a.len(),
{
    reveal_with_fuel(arithmetic::eval, 3);
    if a.len() == 0 {
    } else if a.len() == 1 {
        assert(evens(a) =~= a);
        assert(a.skip(1).len() == 0);
    } else {
        let rest = a.skip(1).skip(1);
        lemma_eval_split(rest, x);
        assert(evens(a).skip(1) =~= evens(rest));
        assert(odds(a).skip(1) =~= odds(rest));
        let e = arithmetic::eval(evens(rest), x * x);
        let o = arithmetic::eval(odds(rest), x * x);
        assert(a[0] + x * (a[1] + x * (e + x * o)) == (a[0] + (x * x) * e) + x * (a[1] + (x * x)
            * o)) by (nonlinear_arith);
    }
}

/// One pair of outputs from the transforms of the two halves: `e` and `o` are
/// the values of the even and odd parts at the square of `x = omega^i`, and
/// `omega^(i + h)` is `-x`.
proof fn lemma_butterfly(
    a: Seq<int>,
    omega: int,
    square: int,
    i: nat,
    h: nat,
    e: int,
    o: int,
    m: int,
)
    requires
        0 < m,
        field::congruent(square, omega * omega, m),
        field::congruent(power::pow(omega, h), -1, m),
        field::congruent(e, arithmetic::eval(evens(a), power::pow(square, i)), m),
        field::congruent(o, arithmetic::eval(odds(a), power::pow(square, i)), m),
    ensures
        field::congruent(e + power::pow(omega, i) * o, arithmetic::eval(a, power::pow(omega, i)), m),
        field::congruent(
            e - power::pow(omega, i) * o,
            arithmetic::eval(a, power::pow(omega, i + h)),
            m,
        ),
{
    let x = power::pow(omega, i);
    let y = power::pow(omega, i + h);
    let s = power::pow(square, i);
    lemma_pow_congruent(square, omega * omega, i, m);
    power::lemma_pow_distributes(omega, omega, i);
    assert(field::congruent(s, x * x, m));
    let ev = arithmetic::eval(evens(a), s);
    let od = arithmetic::eval(odds(a), s);

    // At x.
    let ex = arithmetic::eval(evens(a), x * x);
    let ox = arithmetic::eval(odds(a), x * x);
    arithmetic::lemma_eval_congruent(evens(a), s, x * x, m);
    arithmetic::lemma_eval_congruent(odds(a), s, x * x, m);
    lemma_eval_split(a, x);
    arithmetic::lemma_congruent_mul(x, x, o, ox, m);
    arithmetic::lemma_congruent_add(e, ex, x * o, x * ox, m);

    // At y, which is congruent to -x.
    power::lemma_pow_adds(omega, i, h);
    arithmetic::lemma_congruent_mul(x, x, power::pow(omega, h), -1, m);
    assert(x * -1 == -x) by (nonlinear_arith);
    assert(field::congruent(y, -x, m));
    arithmetic::lemma_congruent_mul(y, -x, y, -x, m);
    assert((-x) * (-x) == x * x) by (nonlinear_arith);
    let ey = arithmetic::eval(evens(a), y * y);
    let oy = arithmetic::eval(odds(a), y * y);
    arithmetic::lemma_eval_congruent(evens(a), y * y, s, m);
    arithmetic::lemma_eval_congruent(odds(a), y * y, s, m);
    lemma_eval_split(a, y);
    arithmetic::lemma_congruent_mul(-x, y, o, oy, m);
    assert((-x) * o == -(x * o)) by (nonlinear_arith);
    arithmetic::lemma_congruent_add(e, ey, -(x * o), y * oy, m);
}

/// Evaluates the polynomial with coefficients `a` at the powers of `omega`.
pub fn fft<F: Field>(a: &[F], omega: F) -> (r: Vec<F>)
    requires
        is_root(omega.value(), a@.len() as int, F::modulus()),
    ensures
        r@.len() == a@.len(),
        forall|i: int|
            0 <= i < a@.len() ==> (#[trigger] r@[i]).value() == arithmetic::eval(
                field::values_of(a@),
                power::pow(omega.value(), i as nat),
            ) % F::modulus(),
    decreases a@.len(),
{
    let n = a.len();
    let ghost m = F::modulus();
    let ghost coeffs = field::values_of(a@);
    proof {
        F::lemma_modulus();
    }
    if n == 1 {
        let mut r: Vec<F> = Vec::new();
        r.push(a[0]);
        proof {
            let x = power::pow(omega.value(), 0);
            assert(coeffs.skip(1).len() == 0);
            assert(arithmetic::eval(coeffs.skip(1), x) == 0);
            assert(x * 0 == 0);
            a@[0].lemma_value();
            div_mod::lemma_small_mod(a@[0].value() as nat, m as nat);
        }
        return r;
    }
    let h = n / 2;
    let mut even: Vec<F> = Vec::new();
    let mut odd: Vec<F> = Vec::new();
    let mut i: usize = 0;
    while i < h
        invariant
            i <= h,
            2 * h == n,
            n == a@.len(),
            even@.len() == i,
            odd@.len() == i,
            forall|j: int| 0 <= j < i ==> #[trigger] even@[j] == a@[2 * j],
            forall|j: int| 0 <= j < i ==> #[trigger] odd@[j] == a@[2 * j + 1],
        decreases h - i,
    {
        even.push(a[2 * i]);
        odd.push(a[2 * i + 1]);
        i += 1;
    }
    let square = omega.mul(&omega);
    proof {
        arithmetic::lemma_congruent_mod(omega.value() * omega.value(), m);
        lemma_root_square(omega.value(), square.value(), n as int, m);
        assert(field::values_of(even@) =~= evens(coeffs));
        assert(field::values_of(odd@) =~= odds(coeffs));
    }
    let e = fft(&even, square);
    let o = fft(&odd, square);
    let mut r: Vec<F> = Vec::new();
    let mut upper: Vec<F> = Vec::new();
    let mut x = F::one();
    let mut i: usize = 0;
    proof {
        power::lemma_pow0(omega.value());
        div_mod::lemma_small_mod(1, m as nat);
    }
    while i < h
        invariant
            i <= h,
            2 * h == n,
            1 < m,
            m == F::modulus(),
            e@.len() == h,
            o@.len() == h,
            field::congruent(square.value(), omega.value() * omega.value(), m),
            field::congruent(power::pow(omega.value(), h as nat), -1, m),
            x.value() == power::pow(omega.value(), i as nat) % m,
            forall|j: int|
                0 <= j < h ==> (#[trigger] e@[j]).value() == arithmetic::eval(
                    evens(coeffs),
                    power::pow(square.value(), j as nat),
                ) % m,
            forall|j: int|
                0 <= j < h ==> (#[trigger] o@[j]).value() == arithmetic::eval(
                    odds(coeffs),
                    power::pow(square.value(), j as nat),
                ) % m,
            r@.len() == i,
            upper@.len() == i,
            forall|j: int|
                0 <= j < i ==> (#[trigger] r@[j]).value() == arithmetic::eval(
                    coeffs,
                    power::pow(omega.value(), j as nat),
                ) % m,
            forall|j: int|
                0 <= j < i ==> (#[trigger] upper@[j]).value() == arithmetic::eval(
                    coeffs,
                    power::pow(omega.value(), (j + h) as nat),
                ) % m,
        decreases h - i,
    {
        let t = x.mul(&o[i]);
        let lower_value = e[i].add(&t);
        let upper_value = e[i].sub(&t);
        proof {
            let w = omega.value();
            let wi = power::pow(w, i as nat);
            let ev = e@[i as int].value();
            let ov = o@[i as int].value();
            arithmetic::lemma_congruent_mod(
                arithmetic::eval(evens(coeffs), power::pow(square.value(), i as nat)),
                m,
            );
            arithmetic::lemma_congruent_mod(
                arithmetic::eval(odds(coeffs), power::pow(square.value(), i as nat)),
                m,
            );
            lemma_butterfly(coeffs, w, square.value(), i as nat, h as nat, ev, ov, m);
            arithmetic::lemma_congruent_mod(wi, m);
            arithmetic::lemma_congruent_mul(x.value(), wi, ov, ov, m);
            arithmetic::lemma_congruent_mod(x.value() * ov, m);
            arithmetic::lemma_congruent_add(ev, ev, t.value(), wi * ov, m);
            div_mod::lemma_sub_mod_noop(ev, t.value(), m);
            div_mod::lemma_sub_mod_noop(ev, wi * ov, m);
            assert((i + h) as nat == i as nat + h as nat);
        }
        r.push(lower_value);
        upper.push(upper_value);
        let ghost before = x;
        x = x.mul(&omega);
        proof {
            let w = omega.value();
            let wi = power::pow(w, i as nat);
            reveal(power::pow);
            assert(power::pow(w, (i + 1) as nat) == w * wi);
            arithmetic::lemma_congruent_mod(wi, m);
            arithmetic::lemma_congruent_mul(before.value(), wi, w, w, m);
            assert(wi * w == w * wi) by (nonlinear_arith);
        }
        i += 1;
    }
    let ghost lower = r@;
    let ghost higher = upper@;
    r.append(&mut upper);
    proof {
        assert forall|i: int| 0 <= i < n implies (#[trigger] r@[i]).value() == arithmetic::eval(
            coeffs,
            power::pow(omega.value(), i as nat),
        ) % m by {
            if i < h {
                assert(r@[i] == lower[i]);
            } else {
                assert(r@[i] == higher[i - h]);
                assert((i - h + h) as nat == i as nat);
            }
        }
    }
    r
}

} // verus!
