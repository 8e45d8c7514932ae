//! Why the Fourier transform at the inverse root undoes the transform at the
//! root: the powers of a root of unity other than one add up to zero.

use crate::arithmetic;
use crate::fft;
use crate::field;
use vstd::arithmetic::power;
use vstd::prelude::*;

verus! {

/// `f(0) + ... + f(n - 1)`.
pub open spec fn sum(n: nat, f: spec_fn(int) -> int) -> int
    decreases n,
{
    if n == 0 {
        0
    } else {
        sum((n - 1) as nat, f) + f(n - 1)
    }
}

/// `1 + r + ... + r^(n - 1)`.
pub open spec fn geometric(r: int, n: nat) -> int {
    sum(n, |k: int| power::pow(r, k as nat))
}

proof fn lemma_sum_congruent(n: nat, f: spec_fn(int) -> int, g: spec_fn(int) -> int, m: int)
    requires
        0 < m,
        forall|k: int| 0 <= k < n ==> field::congruent(#[trigger] f(k), g(k), m),
    ensures
        field::congruent(sum(n, f), sum(n, g), m),
    decreases n,
{
    if n > 0 {
        let n1 = (n - 1) as nat;
        lemma_sum_congruent(n1, f, g, m);
        assert(field::congruent(f(n - 1), g(n - 1), m));
        arithmetic::lemma_congruent_add(sum(n1, f), sum(n1, g), f(n - 1), g(n - 1), m);
    }
}

proof fn lemma_sum_equal(n: nat, f: spec_fn(int) -> int, g: spec_fn(int) -> int)
    requires
        forall|k: int| 0 <= k < n ==> #[trigger] f(k) == g(k),
    ensures
        sum(n, f) == sum(n, g),
    decreases n,
{
    if n > 0 {
        lemma_sum_equal((n - 1) as nat, f, g);
        assert(f(n - 1) == g(n - 1));
    }
}

proof fn lemma_sum_add(n: nat, f: spec_fn(int) -> int, g: spec_fn(int) -> int)
    ensures
        sum(n, |k: int| f(k) + g(k)) == sum(n, f) + sum(n, g),
    decreases n,
{
    if n > 0 {
        lemma_sum_add((n - 1) as nat, f, g);
    }
}

proof fn lemma_sum_scale(n: nat, c: int, f: spec_fn(int) -> int)
    ensures
        sum(n, |k: int| c * f(k)) == c * sum(n, f),
    decreases n,
{
    if n > 0 {
        let n1 = (n - 1) as nat;
        lemma_sum_scale(n1, c, f);
        assert(c * (sum(n1, f) + f(n - 1)) == c * sum(n1, f) + c * f(n - 1)) by (nonlinear_arith);
    }
}

proof fn lemma_sum_zero(n: nat)
    ensures
        sum(n, |k: int| 0int) == 0,
    decreases n,
{
    if n > 0 {
        lemma_sum_zero((n - 1) as nat);
    }
}

proof fn lemma_sum_split(h: nat, p: nat, f: spec_fn(int) -> int)
    ensures
        sum(h + p, f) == sum(h, f) + sum(p, |k: int| f(h + k)),
    decreases p,
{
    if p > 0 {
        lemma_sum_split(h, (p - 1) as nat, f);
        assert((h + p - 1) as nat == h + (p - 1) as nat);
    }
}

proof fn lemma_sum_swap(n: nat, p: nat, f: spec_fn(int, int) -> int)
    ensures
        sum(n, |k: int| sum(p, |i: int| f(k, i))) == sum(p, |i: int| sum(n, |k: int| f(k, i))),
    decreases n,
{
    if n == 0 {
        lemma_sum_zero(p);
        lemma_sum_equal(p, |i: int| sum(n, |k: int| f(k, i)), |i: int| 0int);
    } else {
        let n1 = (n - 1) as nat;
        lemma_sum_swap(n1, p, f);
        let column = |i: int| sum(n1, |k: int| f(k, i));
        let row = |i: int| f(n - 1, i);
        lemma_sum_add(p, column, row);
        lemma_sum_equal(
            p,
            |i: int| sum(n, |k: int| f(k, i)),
            |i: int| column(i) + row(i),
        );
    }
}

/// All terms of a sum but one vanish.
proof fn lemma_sum_single(n: nat, f: spec_fn(int) -> int, j: int, m: int)
    requires
        0 < m,
        0 <= j < n,
        forall|i: int| 0 <= i < n && i != j ==> field::congruent(#[trigger] f(i), 0, m),
    ensures
        field::congruent(sum(n, f), f(j), m),
    decreases n,
{
    let n1 = (n - 1) as nat;
    if j == n - 1 {
        lemma_sum_congruent(n1, f, |i: int| 0int, m);
        lemma_sum_zero(n1);
        arithmetic::lemma_congruent_add(sum(n1, f), 0, f(j), f(j), m);
    } else {
        lemma_sum_single(n1, f, j, m);
        assert(field::congruent(f(n - 1), 0, m));
        arithmetic::lemma_congruent_add(sum(n1, f), f(j), f(n - 1), 0, m);
    }
}

proof fn lemma_eval_last(a: Seq<int>, x: int)
    requires
        a.len() > 0,
    ensures
        arithmetic::eval(a, x) == arithmetic::eval(a.drop_last(), x) + a.last() * power::pow(
            x,
            (a.len() - 1) as nat,
        ),
    decreases a.len(),
{
    reveal(power::pow);
    let rest = a.skip(1);
    if a.len() == 1 {
        assert(arithmetic::eval(rest, x) == 0);
        assert(arithmetic::eval(a.drop_last(), x) == 0);
        assert(x * 0 == 0);
        assert(a.last() * 1 == a.last());
    } else {
        lemma_eval_last(rest, x);
        assert(rest.drop_last() =~= a.drop_last().skip(1));
        let e = arithmetic::eval(rest.drop_last(), x);
        let p = power::pow(x, (rest.len() - 1) as nat);
        assert(power::pow(x, (a.len() - 1) as nat) == x * p);
        assert(a[0] + x * (e + a.last() * p) == (a[0] + x * e) + a.last() * (x * p))
            by (nonlinear_arith);
    }
}

/// A polynomial's value is the sum of its terms.
pub proof fn lemma_eval_is_sum(a: Seq<int>, x: int)
    ensures
        arithmetic::eval(a, x) == sum(a.len(), |k: int| a[k] * power::pow(x, k as nat)),
    decreases a.len(),
{
    if a.len() > 0 {
        let before = a.drop_last();
        lemma_eval_last(a, x);
        lemma_eval_is_sum(before, x);
        lemma_sum_equal(
            before.len(),
            |k: int| before[k] * power::pow(x, k as nat),
            |k: int| a[k] * power::pow(x, k as nat),
        );
    }
}

proof fn lemma_geometric_double(r: int, h: nat)
    ensures
        geometric(r, h + h) == (1 + power::pow(r, h)) * geometric(r, h),
{
    let f = |k: int| power::pow(r, k as nat);
    lemma_sum_split(h, h, f);
    let c = power::pow(r, h);
    lemma_sum_scale(h, c, f);
    let shifted = |k: int| f(h + k);
    assert forall|k: int| 0 <= k < h implies #[trigger] shifted(k) == c * f(k) by {
        power::lemma_pow_adds(r, h, k as nat);
        assert((h + k) as nat == h + k as nat);
    }
    lemma_sum_equal(h, shifted, |k: int| c * f(k));
    let g = geometric(r, h);
    assert(g + c * g == (1 + c) * g) by (nonlinear_arith);
}

/// The powers of a root of unity other than one add up to zero.
proof fn lemma_geometric_vanishes(zeta: int, d: nat, n: int, m: int)
    requires
        0 < m,
        0 < d < n,
        fft::is_root(zeta, n, m),
    ensures
        field::congruent(geometric(power::pow(zeta, d), n as nat), 0, m),
    decreases n,
{
    reveal_with_fuel(fft::is_power_of_two, 3);
    let h = (n / 2) as nat;
    let r = power::pow(zeta, d);
    assert(n as nat == h + h);
    lemma_geometric_double(r, h);
    let factor = 1 + power::pow(r, h);
    let g = geometric(r, h);
    if d % 2 == 1 {
        power::lemma_pow_multiplies(zeta, d, h);
        power::lemma_pow_multiplies(zeta, h, d);
        assert(d * h == h * d) by (nonlinear_arith);
        fft::lemma_pow_congruent(power::pow(zeta, h), -1, d, m);
        lemma_pow_minus_one(d);
        arithmetic::lemma_congruent_add(1, 1, power::pow(r, h), -1, m);
        arithmetic::lemma_congruent_mul(factor, 0, g, g, m);
        assert(0 * g == 0);
    } else {
        let e = (d / 2) as nat;
        let square = zeta * zeta;
        fft::lemma_root_square(zeta, square, n, m);
        lemma_geometric_vanishes(square, e, n / 2, m);
        power::lemma_square_is_pow2(zeta);
        power::lemma_pow_multiplies(zeta, 2, e);
        assert(2 * e == d);
        arithmetic::lemma_congruent_mul(factor, factor, g, 0, m);
        assert(factor * 0 == 0);
    }
}

proof fn lemma_pow_minus_one(d: nat)
    ensures
        power::pow(-1, d) == if d % 2 == 1 {
            -1int
        } else {
            1
        },
    decreases d,
{
    reveal(power::pow);
    if d > 0 {
        lemma_pow_minus_one((d - 1) as nat);
    }
}

/// The inverse of a root is a root.
pub proof fn lemma_inverse_root(omega: int, inverse: int, n: int, m: int)
    requires
        0 < m,
        fft::is_root(omega, n, m),
        field::congruent(omega * inverse, 1, m),
    ensures
        fft::is_root(inverse, n, m),
{
    if n > 1 {
        let h = (n / 2) as nat;
        let a = power::pow(omega, h);
        let b = power::pow(inverse, h);
        power::lemma_pow_distributes(omega, inverse, h);
        fft::lemma_pow_congruent(omega * inverse, 1, h, m);
        power::lemma1_pow(h);
        arithmetic::lemma_congruent_mul(a, -1, b, b, m);
        assert(-1 * b == -b) by (nonlinear_arith);
        arithmetic::lemma_congruent_mul(-1, -1, -b, 1, m);
        assert(-1 * -b == b) by (nonlinear_arith);
    } else {
        arithmetic::lemma_congruent_mul(omega, 1, inverse, inverse, m);
    }
}

/// `omega^d * inverse^d` is one.
proof fn lemma_powers_cancel(omega: int, inverse: int, d: nat, m: int)
    requires
        0 < m,
        field::congruent(omega * inverse, 1, m),
    ensures
        field::congruent(power::pow(omega, d) * power::pow(inverse, d), 1, m),
{
    power::lemma_pow_distributes(omega, inverse, d);
    fft::lemma_pow_congruent(omega * inverse, 1, d, m);
    power::lemma1_pow(d);
}

/// `inverse^i * omega^j` is the power `j - i` of `omega`, or the power `i - j`
/// of its inverse.
proof fn lemma_quotient_of_powers(omega: int, inverse: int, i: nat, j: nat, m: int)
    requires
        0 < m,
        field::congruent(omega * inverse, 1, m),
    ensures
        i <= j ==> field::congruent(
            power::pow(inverse, i) * power::pow(omega, j),
            power::pow(omega, (j - i) as nat),
            m,
        ),
{
    if i <= j {
        let d = (j - i) as nat;
        power::lemma_pow_adds(omega, i, d);
        assert(i + d == j);
        lemma_powers_cancel(omega, inverse, i, m);
        let a = power::pow(omega, i);
        let b = power::pow(inverse, i);
        let c = power::pow(omega, d);
        assert(b * (a * c) == (a * b) * c) by (nonlinear_arith);
        arithmetic::lemma_congruent_mul(a * b, 1, c, c, m);
        assert(1 * c == c);
    }
}

/// The sum over `k` of `(inverse^k)^i * (omega^j)^k` is `n` where `i` and `j`
/// agree, and zero otherwise.
proof fn lemma_orthogonal(omega: int, inverse: int, n: int, m: int, i: int, j: int)
    requires
        0 < m,
        fft::is_root(omega, n, m),
        field::congruent(omega * inverse, 1, m),
        0 <= i < n,
        0 <= j < n,
    ensures
        field::congruent(
            sum(
                n as nat,
                |k: int|
                    power::pow(power::pow(inverse, k as nat), i as nat) * power::pow(
                        power::pow(omega, j as nat),
                        k as nat,
                    ),
            ),
            if i == j {
                n
            } else {
                0
            },
            m,
        ),
{
    let (i, j) = (i as nat, j as nat);
    let r = power::pow(inverse, i) * power::pow(omega, j);
    let term = |k: int|
        power::pow(power::pow(inverse, k as nat), i) * power::pow(
            power::pow(omega, j),
            k as nat,
        );
    assert forall|k: int| 0 <= k < n implies #[trigger] term(k) == power::pow(r, k as nat) by {
        let k = k as nat;
        power::lemma_pow_multiplies(inverse, k, i);
        power::lemma_pow_multiplies(inverse, i, k);
        assert(k * i == i * k) by (nonlinear_arith);
        power::lemma_pow_distributes(power::pow(inverse, i), power::pow(omega, j), k);
    }
    lemma_sum_equal(n as nat, term, |k: int| power::pow(r, k as nat));
    assert(sum(n as nat, term) == geometric(r, n as nat));
    let base = if i <= j {
        power::pow(omega, (j - i) as nat)
    } else {
        power::pow(inverse, (i - j) as nat)
    };
    if i <= j {
        lemma_quotient_of_powers(omega, inverse, i, j, m);
    } else {
        assert(inverse * omega == omega * inverse) by (nonlinear_arith);
        lemma_quotient_of_powers(inverse, omega, j, i, m);
        assert(r == power::pow(omega, j) * power::pow(inverse, i)) by (nonlinear_arith)
            requires
                r == power::pow(inverse, i) * power::pow(omega, j),
        ;
    }
    let powers = |k: int| power::pow(r, k as nat);
    let base_powers = |k: int| power::pow(base, k as nat);
    assert forall|k: int| 0 <= k < n implies field::congruent(
        #[trigger] powers(k),
        base_powers(k),
        m,
    ) by {
        fft::lemma_pow_congruent(r, base, k as nat, m);
    }
    lemma_sum_congruent(n as nat, powers, base_powers, m);
    if i < j {
        lemma_geometric_vanishes(omega, (j - i) as nat, n, m);
    } else if j < i {
        lemma_inverse_root(omega, inverse, n, m);
        lemma_geometric_vanishes(inverse, (i - j) as nat, n, m);
    } else {
        power::lemma_pow0(omega);
        assert(base == 1);
        lemma_geometric_one(n as nat);
    }
}

proof fn lemma_geometric_one(n: nat)
    ensures
        geometric(1, n) == n,
    decreases n,
{
    if n > 0 {
        lemma_geometric_one((n - 1) as nat);
        power::lemma1_pow((n - 1) as nat);
    }
}

/// Where `c` is the transform of `v` at the inverse of `omega`, divided by
/// `n`, the polynomial with coefficients `c` takes the value `v[j]` at
/// `omega^j`.
pub proof fn lemma_inverse_transform(
    v: Seq<int>,
    c: Seq<int>,
    omega: int,
    inverse: int,
    divisor: int,
    m: int,
    j: int,
)
    requires
        0 < m,
        c.len() == v.len(),
        0 <= j < v.len(),
        fft::is_root(omega, v.len() as int, m),
        field::congruent(omega * inverse, 1, m),
        field::congruent(v.len() * divisor, 1, m),
        forall|k: int|
            0 <= k < v.len() ==> field::congruent(
                #[trigger] c[k],
                divisor * arithmetic::eval(v, power::pow(inverse, k as nat)),
                m,
            ),
    ensures
        field::congruent(arithmetic::eval(c, power::pow(omega, j as nat)), v[j], m),
{
    let n = v.len();
    let x = power::pow(omega, j as nat);
    let term = |k: int, i: int|
        divisor * v[i] * (power::pow(power::pow(inverse, k as nat), i as nat) * power::pow(
            x,
            k as nat,
        ));
    lemma_eval_is_sum(c, x);
    let lhs = |k: int| c[k] * power::pow(x, k as nat);
    let rows = |k: int| sum(n, |i: int| term(k, i));
    assert forall|k: int| 0 <= k < n implies field::congruent(#[trigger] lhs(k), rows(k), m) by {
        let y = power::pow(inverse, k as nat);
        let xk = power::pow(x, k as nat);
        let e = arithmetic::eval(v, y);
        assert(field::congruent(c[k], divisor * e, m));
        arithmetic::lemma_congruent_mul(c[k], divisor * e, xk, xk, m);
        lemma_eval_is_sum(v, y);
        let f = |i: int| v[i] * power::pow(y, i as nat);
        let s = divisor * xk;
        lemma_sum_scale(n, s, f);
        assert(divisor * e * xk == s * e) by (nonlinear_arith)
            requires
                s == divisor * xk,
        ;
        assert forall|i: int| 0 <= i < n implies s * #[trigger] f(i) == term(k, i) by {
            let p = power::pow(y, i as nat);
            assert((divisor * xk) * (v[i] * p) == divisor * v[i] * (p * xk)) by (nonlinear_arith);
        }
        lemma_sum_equal(n, |i: int| s * f(i), |i: int| term(k, i));
    }
    lemma_sum_congruent(n, lhs, rows, m);
    lemma_sum_swap(n, n, term);
    let columns = |i: int| sum(n, |k: int| term(k, i));
    lemma_sum_equal(n, rows, |k: int| sum(n, |i: int| term(k, i)));
    lemma_sum_equal(n, columns, |i: int| sum(n, |k: int| term(k, i)));
    assert forall|i: int| 0 <= i < n implies field::congruent(
        #[trigger] columns(i),
        if i == j {
            v[j]
        } else {
            0
        },
        m,
    ) by {
        let inner = |k: int|
            power::pow(power::pow(inverse, k as nat), i as nat) * power::pow(x, k as nat);
        let d = divisor * v[i];
        lemma_sum_scale(n, d, inner);
        lemma_sum_equal(n, |k: int| term(k, i), |k: int| d * inner(k));
        lemma_orthogonal(omega, inverse, n as int, m, i, j);
        let t: int = if i == j {
            n as int
        } else {
            0
        };
        arithmetic::lemma_congruent_mul(d, d, sum(n, inner), t, m);
        if i == j {
            assert(d * n == (n * divisor) * v[i]) by (nonlinear_arith)
                requires
                    d == divisor * v[i],
            ;
            arithmetic::lemma_congruent_mul(n * divisor, 1, v[i], v[i], m);
            assert(1 * v[i] == v[i]);
        } else {
            assert(d * 0 == 0);
        }
    }
    assert forall|i: int| 0 <= i < n && i != j implies field::congruent(
        #[trigger] columns(i),
        0,
        m,
    ) by {
    }
    lemma_sum_single(n, columns, j, m);
    assert(field::congruent(columns(j), v[j], m));
}

} // verus!
