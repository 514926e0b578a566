//! Evaluation respects the arithmetic of polynomials, and what follows
//! from that: the interpolating polynomial passes through its points, and
//! `x^n - 1` takes the value `x^n - 1`.

use crate::modular::{
    add_mod, inv_mod, invertible, is_prime, lemma_inv_mod_is_inverse, lemma_prime_no_zero_divisors,
    mul_mod, neg_mod, pow_mod, sub_mod,
};
use crate::poly_math::{
    canonical, coeff, conv, conv_upto, horner, is_zero, lagrange_denominator, lagrange_numerator,
    lagrange_sum, lagrange_term, lagrange_term_defined, lemma_canonical_unique, lemma_conv_beyond,
    lemma_division_identity, lemma_trim_coeff, lemma_trim_len, lemma_trim_unique, linear_factor,
    linear_quotient, poly_add, poly_eval, poly_mul, poly_scale, poly_sub, trim, vanishing,
    vanishing_coeffs,
};
use vstd::arithmetic::div_mod::{
    lemma_add_mod_noop, lemma_add_mod_noop_right, lemma_mod_equivalence, lemma_mod_twice,
    lemma_mul_mod_noop_general, lemma_small_mod, lemma_sub_mod_noop,
};
use vstd::arithmetic::power::{lemma_pow0, lemma_pow1, lemma_pow_adds, pow};
use vstd::prelude::*;

verus! {

/// The sum of `p[i] * x^i` over `i < n`.
pub open spec fn power_sum(p: Seq<int>, x: int, n: int) -> int
    decreases n,
{
    if n <= 0 {
        0
    } else {
        power_sum(p, x, n - 1) + p[n - 1] * pow(x, (n - 1) as nat)
    }
}

/// Horner's rule from index `i` up, times `x^i`, is the part of the sum of
/// powers from `i` up.
proof fn lemma_horner_tail(p: Seq<int>, x: int, i: int)
    requires
        0 <= i <= p.len(),
    ensures
        power_sum(p, x, i) + pow(x, i as nat) * horner(p, x, i) == power_sum(p, x, p.len() as int),
    decreases p.len() - i,
{
    if i == p.len() {
        assert(pow(x, i as nat) * 0 == 0);
    } else {
        lemma_horner_tail(p, x, i + 1);
        lemma_pow_adds(x, i as nat, 1);
        lemma_pow1(x);
        let xi = pow(x, i as nat);
        let h = horner(p, x, i + 1);
        assert(xi * (p[i] + x * h) == p[i] * xi + (xi * x) * h) by (nonlinear_arith);
    }
}

/// Horner's rule computes the sum of the powers.
pub proof fn lemma_horner_is_power_sum(p: Seq<int>, x: int)
    ensures
        horner(p, x, 0) == power_sum(p, x, p.len() as int),
{
    lemma_horner_tail(p, x, 0);
    lemma_pow0(x);
    assert(1 * horner(p, x, 0) == horner(p, x, 0));
}

/// The sum of powers reads only the first `n` coefficients.
proof fn lemma_power_sum_prefix(p: Seq<int>, q: Seq<int>, x: int, n: int)
    requires
        n <= p.len(),
        n <= q.len(),
        forall|i: int| 0 <= i < n ==> p[i] == q[i],
    ensures
        power_sum(p, x, n) == power_sum(q, x, n),
    decreases n,
{
    if n > 0 {
        lemma_power_sum_prefix(p, q, x, n - 1);
    }
}

/// Zero coefficients add nothing to the sum of powers.
proof fn lemma_power_sum_zeros(p: Seq<int>, x: int, from: int, n: int)
    requires
        0 <= from <= n <= p.len(),
        forall|i: int| from <= i < n ==> p[i] == 0,
    ensures
        power_sum(p, x, n) == power_sum(p, x, from),
    decreases n - from,
{
    if n > from {
        lemma_power_sum_zeros(p, x, from, n - 1);
        assert(0 * pow(x, (n - 1) as nat) == 0);
    }
}

/// The sum of powers is linear in the coefficients.
proof fn lemma_power_sum_linear(c: Seq<int>, u: Seq<int>, t: int, v: Seq<int>, x: int, n: int)
    requires
        0 <= n <= c.len(),
        n <= u.len(),
        n <= v.len(),
        forall|i: int| 0 <= i < n ==> c[i] == u[i] + t * v[i],
    ensures
        power_sum(c, x, n) == power_sum(u, x, n) + t * power_sum(v, x, n),
    decreases n,
{
    if n > 0 {
        lemma_power_sum_linear(c, u, t, v, x, n - 1);
        let w = pow(x, (n - 1) as nat);
        let before = power_sum(v, x, n - 1);
        assert((u[n - 1] + t * v[n - 1]) * w == u[n - 1] * w + t * (v[n - 1] * w))
            by (nonlinear_arith);
        assert(t * (before + v[n - 1] * w) == t * before + t * (v[n - 1] * w))
            by (nonlinear_arith);
    } else {
        assert(t * 0 == 0);
    }
}

/// Coefficients congruent modulo `m` give congruent sums of powers.
proof fn lemma_power_sum_congruent(p: Seq<int>, q: Seq<int>, x: int, n: int, m: int)
    requires
        m > 0,
        0 <= n <= p.len(),
        n <= q.len(),
        forall|i: int| 0 <= i < n ==> p[i] % m == q[i] % m,
    ensures
        power_sum(p, x, n) % m == power_sum(q, x, n) % m,
    decreases n,
{
    if n > 0 {
        lemma_power_sum_congruent(p, q, x, n - 1, m);
        let w = pow(x, (n - 1) as nat);
        lemma_mul_mod_noop_general(p[n - 1], w, m);
        lemma_mul_mod_noop_general(q[n - 1], w, m);
        lemma_add_mod_noop(power_sum(p, x, n - 1), p[n - 1] * w, m);
        lemma_add_mod_noop(power_sum(q, x, n - 1), q[n - 1] * w, m);
    }
}

/// Shifting the coefficients up by `k` places multiplies the sum of powers
/// by `x^k`.
proof fn lemma_power_sum_shift(b: Seq<int>, v: Seq<int>, x: int, k: int, n: int)
    requires
        0 <= k,
        0 <= n <= v.len(),
        forall|i: int| 0 <= i < n ==> v[i] == coeff(b, i - k),
    ensures
        power_sum(v, x, n) == pow(x, k as nat) * power_sum(
            b,
            x,
            if n - k <= 0 {
                0
            } else if n - k >= b.len() {
                b.len() as int
            } else {
                n - k
            },
        ),
    decreases n,
{
    let xk = pow(x, k as nat);
    if n <= 0 {
        assert(xk * 0 == 0);
    } else {
        lemma_power_sum_shift(b, v, x, k, n - 1);
        let j = n - 1 - k;
        if 0 <= j < b.len() {
            lemma_pow_adds(x, k as nat, j as nat);
            let xj = pow(x, j as nat);
            let before = power_sum(b, x, j);
            assert(xk * (before + b[j] * xj) == xk * before + b[j] * (xk * xj))
                by (nonlinear_arith);
        } else {
            assert(0 * pow(x, (n - 1) as nat) == 0);
        }
    }
}

/// The sum of powers of a product is the product of the sums of powers:
/// the convolution of the coefficients is the product of the polynomials.
proof fn lemma_power_sum_product(a: Seq<int>, b: Seq<int>, x: int, n: int, len: int)
    requires
        0 <= n <= a.len(),
        b.len() >= 1,
        len >= a.len() + b.len() - 1,
    ensures
        power_sum(Seq::new(len as nat, |k: int| conv_upto(a, b, k, n)), x, len) == power_sum(
            a,
            x,
            n,
        ) * power_sum(b, x, b.len() as int),
    decreases n,
{
    let whole = power_sum(b, x, b.len() as int);
    let now = Seq::new(len as nat, |k: int| conv_upto(a, b, k, n));
    if n == 0 {
        lemma_power_sum_zeros(now, x, 0, len);
        assert(0 * whole == 0);
    } else {
        let before = Seq::new(len as nat, |k: int| conv_upto(a, b, k, n - 1));
        let shifted = Seq::new(len as nat, |k: int| coeff(b, k - (n - 1)));
        lemma_power_sum_product(a, b, x, n - 1, len);
        lemma_power_sum_linear(now, before, a[n - 1], shifted, x, len);
        lemma_power_sum_shift(b, shifted, x, n - 1, len);
        let xn = pow(x, (n - 1) as nat);
        let head = power_sum(a, x, n - 1);
        assert((head + a[n - 1] * xn) * whole == head * whole + a[n - 1] * (xn * whole))
            by (nonlinear_arith);
    }
}

/// Trimming does not change the sum of powers.
proof fn lemma_power_sum_trim(p: Seq<int>, x: int)
    ensures
        power_sum(trim(p), x, trim(p).len() as int) == power_sum(p, x, p.len() as int),
    decreases p.len(),
{
    if p.len() == 0 {
        let zero = seq![0int];
        assert(power_sum(zero, x, 0) == 0);
        assert(0 * pow(x, 0) == 0);
        assert(power_sum(zero, x, 1) == power_sum(zero, x, 0) + zero[0] * pow(x, 0));
    } else if p.len() > 1 && p.last() == 0 {
        lemma_power_sum_trim(p.drop_last(), x);
        lemma_power_sum_prefix(p, p.drop_last(), x, p.len() - 1);
        assert(0 * pow(x, (p.len() - 1) as nat) == 0);
    }
}

/// The value of a polynomial is the sum of its powers, whether or not the
/// coefficients were trimmed.
proof fn lemma_eval_of_trimmed(raw: Seq<int>, x: int, m: int)
    ensures
        poly_eval(trim(raw), x, m) == power_sum(raw, x, raw.len() as int) % m,
{
    lemma_horner_is_power_sum(trim(raw), x);
    lemma_power_sum_trim(raw, x);
}

/// The sum of powers of a polynomial padded with zeros.
proof fn lemma_power_sum_padded(a: Seq<int>, x: int, len: int)
    requires
        len >= a.len(),
    ensures
        power_sum(Seq::new(len as nat, |k: int| coeff(a, k)), x, len) == power_sum(
            a,
            x,
            a.len() as int,
        ),
{
    let padded = Seq::new(len as nat, |k: int| coeff(a, k));
    lemma_power_sum_zeros(padded, x, a.len() as int, len);
    lemma_power_sum_prefix(padded, a, x, a.len() as int);
}

/// The value of a sum is the sum of the values.
pub proof fn lemma_eval_add(a: Seq<int>, b: Seq<int>, x: int, m: int)
    requires
        m > 0,
    ensures
        poly_eval(poly_add(a, b, m), x, m) == add_mod(poly_eval(a, x, m), poly_eval(b, x, m), m),
{
    let len = if a.len() >= b.len() {
        a.len()
    } else {
        b.len()
    };
    let raw = Seq::new(len, |k: int| add_mod(coeff(a, k), coeff(b, k), m));
    let exact = Seq::new(len, |k: int| coeff(a, k) + coeff(b, k));
    let pa = Seq::new(len, |k: int| coeff(a, k));
    let pb = Seq::new(len, |k: int| coeff(b, k));
    lemma_eval_of_trimmed(raw, x, m);
    assert forall|i: int| 0 <= i < len implies raw[i] % m == exact[i] % m by {
        lemma_small_mod(raw[i] as nat, m as nat);
    }
    lemma_power_sum_congruent(raw, exact, x, len as int, m);
    assert forall|i: int| 0 <= i < len implies exact[i] == pa[i] + 1 * pb[i] by {}
    lemma_power_sum_linear(exact, pa, 1, pb, x, len as int);
    lemma_power_sum_padded(a, x, len as int);
    lemma_power_sum_padded(b, x, len as int);
    lemma_horner_is_power_sum(a, x);
    lemma_horner_is_power_sum(b, x);
    lemma_add_mod_noop(horner(a, x, 0), horner(b, x, 0), m);
    assert(1 * power_sum(pb, x, len as int) == power_sum(pb, x, len as int));
}

/// The value of a difference is the difference of the values.
pub proof fn lemma_eval_sub(a: Seq<int>, b: Seq<int>, x: int, m: int)
    requires
        m > 0,
    ensures
        poly_eval(poly_sub(a, b, m), x, m) == sub_mod(poly_eval(a, x, m), poly_eval(b, x, m), m),
{
    let len = if a.len() >= b.len() {
        a.len()
    } else {
        b.len()
    };
    let raw = Seq::new(len, |k: int| sub_mod(coeff(a, k), coeff(b, k), m));
    let exact = Seq::new(len, |k: int| coeff(a, k) - coeff(b, k));
    let pa = Seq::new(len, |k: int| coeff(a, k));
    let pb = Seq::new(len, |k: int| coeff(b, k));
    lemma_eval_of_trimmed(raw, x, m);
    assert forall|i: int| 0 <= i < len implies raw[i] % m == exact[i] % m by {
        lemma_small_mod(raw[i] as nat, m as nat);
    }
    lemma_power_sum_congruent(raw, exact, x, len as int, m);
    assert forall|i: int| 0 <= i < len implies exact[i] == pa[i] + (-1) * pb[i] by {}
    lemma_power_sum_linear(exact, pa, -1, pb, x, len as int);
    lemma_power_sum_padded(a, x, len as int);
    lemma_power_sum_padded(b, x, len as int);
    lemma_horner_is_power_sum(a, x);
    lemma_horner_is_power_sum(b, x);
    lemma_sub_mod_noop(horner(a, x, 0), horner(b, x, 0), m);
    assert((-1) * power_sum(pb, x, len as int) == -power_sum(pb, x, len as int));
}

/// The value of a scaled polynomial is the scaled value.
pub proof fn lemma_eval_scale(a: Seq<int>, c: int, x: int, m: int)
    requires
        m > 0,
    ensures
        poly_eval(poly_scale(a, c, m), x, m) == mul_mod(poly_eval(a, x, m), c, m),
{
    let len = a.len();
    let raw = Seq::new(len, |k: int| mul_mod(a[k], c, m));
    let exact = Seq::new(len, |k: int| a[k] * c);
    let zeros = Seq::new(len, |k: int| 0int);
    lemma_eval_of_trimmed(raw, x, m);
    assert forall|i: int| 0 <= i < len implies raw[i] % m == exact[i] % m by {
        lemma_small_mod(raw[i] as nat, m as nat);
    }
    lemma_power_sum_congruent(raw, exact, x, len as int, m);
    assert forall|i: int| 0 <= i < len implies exact[i] == zeros[i] + c * a[i] by {
        assert(a[i] * c == c * a[i]) by (nonlinear_arith);
    }
    lemma_power_sum_linear(exact, zeros, c, a, x, len as int);
    lemma_power_sum_zeros(zeros, x, 0, len as int);
    lemma_horner_is_power_sum(a, x);
    let value = horner(a, x, 0);
    assert(c * value == value * c) by (nonlinear_arith);
    lemma_mul_mod_noop_general(value, c, m);
}

/// The value of a product is the product of the values.
pub proof fn lemma_eval_mul(a: Seq<int>, b: Seq<int>, x: int, m: int)
    requires
        m > 0,
        a.len() >= 1,
        b.len() >= 1,
    ensures
        poly_eval(poly_mul(a, b, m), x, m) == mul_mod(poly_eval(a, x, m), poly_eval(b, x, m), m),
{
    let len = (a.len() + b.len() - 1) as nat;
    let raw = Seq::new(len, |k: int| conv(a, b, k) % m);
    let exact = Seq::new(len, |k: int| conv_upto(a, b, k, a.len() as int));
    lemma_eval_of_trimmed(raw, x, m);
    assert forall|i: int| 0 <= i < len implies raw[i] % m == exact[i] % m by {
        lemma_small_mod(raw[i] as nat, m as nat);
    }
    lemma_power_sum_congruent(raw, exact, x, len as int, m);
    lemma_power_sum_product(a, b, x, a.len() as int, len as int);
    lemma_horner_is_power_sum(a, x);
    lemma_horner_is_power_sum(b, x);
    lemma_mul_mod_noop_general(horner(a, x, 0), horner(b, x, 0), m);
}

/// The value of `x - c` at `x` is `x - c`.
pub proof fn lemma_eval_linear_factor(c: int, x: int, m: int)
    requires
        m > 0,
    ensures
        poly_eval(linear_factor(c, m), x, m) == sub_mod(x, c, m),
{
    let raw = seq![neg_mod(c, m), 1int % m];
    lemma_eval_of_trimmed(raw, x, m);
    lemma_pow0(x);
    lemma_pow1(x);
    assert(power_sum(raw, x, 0) == 0);
    assert(power_sum(raw, x, 1) == power_sum(raw, x, 0) + raw[0] * pow(x, 0));
    assert(power_sum(raw, x, 2) == power_sum(raw, x, 1) + raw[1] * pow(x, 1));
    assert(raw[0] * 1 == raw[0]);
    lemma_mul_mod_noop_general(1, x, m);
    assert(1 * x == x);
    lemma_add_mod_noop(neg_mod(c, m), (1int % m) * x, m);
    lemma_add_mod_noop(-c, x, m);
    lemma_small_mod(neg_mod(c, m) as nat, m as nat);
}

/// The value of a constant polynomial is the constant.
pub proof fn lemma_eval_constant(c: int, x: int, m: int)
    requires
        m > 0,
    ensures
        poly_eval(seq![c], x, m) == c % m,
{
    let p = seq![c];
    assert(horner(p, x, 1) == 0);
    assert(horner(p, x, 0) == p[0] + x * horner(p, x, 1));
    assert(x * 0 == 0);
}

/// The product of `x - xs[j]` over `j < n`, `j != i`, modulo `m`: the value
/// at `x` of the numerator of the `i`-th basis polynomial.
pub open spec fn node_product(xs: Seq<int>, i: int, n: int, x: int, m: int) -> int
    decreases n,
{
    if n <= 0 {
        1int % m
    } else if n - 1 == i {
        node_product(xs, i, n - 1, x, m)
    } else {
        mul_mod(node_product(xs, i, n - 1, x, m), sub_mod(x, xs[n - 1], m), m)
    }
}

/// The numerator of a basis polynomial takes the value `node_product`.
proof fn lemma_numerator_value(xs: Seq<int>, i: int, n: int, x: int, m: int)
    requires
        m > 0,
        0 <= n <= xs.len(),
    ensures
        lagrange_numerator(xs, i, n, m).len() >= 1,
        poly_eval(lagrange_numerator(xs, i, n, m), x, m) == node_product(xs, i, n, x, m),
    decreases n,
{
    if n <= 0 {
        lemma_eval_constant(1int % m, x, m);
        lemma_mod_twice(1, m);
    } else {
        lemma_numerator_value(xs, i, n - 1, x, m);
        if n - 1 != i {
            let before = lagrange_numerator(xs, i, n - 1, m);
            let factor = linear_factor(xs[n - 1], m);
            lemma_trim_len(seq![neg_mod(xs[n - 1], m), 1int % m]);
            lemma_trim_len(
                Seq::new(
                    (before.len() + factor.len() - 1) as nat,
                    |k: int| conv(before, factor, k) % m,
                ),
            );
            lemma_eval_mul(before, factor, x, m);
            lemma_eval_linear_factor(xs[n - 1], x, m);
        }
    }
}

/// The denominator of a basis polynomial is the value of its numerator at
/// its own abscissa.
proof fn lemma_denominator_value(xs: Seq<int>, i: int, n: int, m: int)
    ensures
        lagrange_denominator(xs, i, n, m) == node_product(xs, i, n, xs[i], m),
    decreases n,
{
    if n > 0 {
        lemma_denominator_value(xs, i, n - 1, m);
    }
}

/// The numerator of a basis polynomial vanishes at every other abscissa.
proof fn lemma_numerator_root(xs: Seq<int>, i: int, j: int, n: int, m: int)
    requires
        m > 0,
        0 <= j < n <= xs.len(),
        i != j,
    ensures
        node_product(xs, i, n, xs[j], m) == 0,
    decreases n,
{
    let before = node_product(xs, i, n - 1, xs[j], m);
    lemma_small_mod(0, m as nat);
    if n - 1 == j {
        assert(sub_mod(xs[j], xs[j], m) == 0);
        assert(before * 0 == 0);
    } else {
        lemma_numerator_root(xs, i, j, n - 1, m);
        if n - 1 != i {
            assert(0 * sub_mod(xs[j], xs[n - 1], m) == 0);
        }
    }
}

/// A term of the interpolation formula takes the ordinate of its own point
/// at its own abscissa, and zero at every other abscissa.
proof fn lemma_term_value(xs: Seq<int>, ys: Seq<int>, i: int, k: int, m: int)
    requires
        m > 0,
        0 <= i < xs.len(),
        0 <= k < xs.len(),
        i == k ==> lagrange_term_defined(xs, i, m) && 0 <= ys[i] < m,
    ensures
        poly_eval(lagrange_term(xs, ys, i, m), xs[k], m) == if i == k {
            ys[i]
        } else {
            0
        },
{
    let n = xs.len() as int;
    let numerator = lagrange_numerator(xs, i, n, m);
    let den = lagrange_denominator(xs, i, n, m);
    let inv = inv_mod(den, m);
    let x = xs[k];
    lemma_numerator_value(xs, i, n, x, m);
    lemma_eval_scale(numerator, inv, x, m);
    lemma_eval_scale(poly_scale(numerator, inv, m), ys[i], x, m);
    lemma_small_mod(0, m as nat);
    if i == k {
        lemma_denominator_value(xs, i, n, m);
        lemma_inv_mod_is_inverse(den, m);
        lemma_mul_mod_noop_general(1, ys[i], m);
        assert(1 * ys[i] == ys[i]);
        lemma_small_mod(ys[i] as nat, m as nat);
    } else {
        lemma_numerator_root(xs, i, k, n, m);
        assert(0 * inv == 0);
        assert(0 * ys[i] == 0);
    }
}

/// The first `n` terms of the interpolation formula take the ordinate of
/// the `k`-th point at its abscissa once its term is among them.
proof fn lemma_sum_value(xs: Seq<int>, ys: Seq<int>, n: int, k: int, m: int)
    requires
        m > 0,
        0 <= n <= xs.len(),
        0 <= k < xs.len(),
        lagrange_term_defined(xs, k, m),
        0 <= ys[k] < m,
    ensures
        poly_eval(lagrange_sum(xs, ys, n, m), xs[k], m) == if k < n {
            ys[k]
        } else {
            0
        },
    decreases n,
{
    lemma_small_mod(0, m as nat);
    if n <= 0 {
        lemma_eval_constant(0, xs[k], m);
    } else {
        lemma_sum_value(xs, ys, n - 1, k, m);
        lemma_term_value(xs, ys, n - 1, k, m);
        lemma_eval_add(lagrange_sum(xs, ys, n - 1, m), lagrange_term(xs, ys, n - 1, m), xs[k], m);
        lemma_small_mod(ys[k] as nat, m as nat);
    }
}

/// The interpolating polynomial passes through its points: at the
/// abscissa of each point whose term is defined it takes the ordinate of
/// that point.
pub proof fn lemma_lagrange_interpolates(xs: Seq<int>, ys: Seq<int>, k: int, m: int)
    requires
        m > 0,
        0 <= k < xs.len(),
        lagrange_term_defined(xs, k, m),
        0 <= ys[k] < m,
    ensures
        poly_eval(lagrange_sum(xs, ys, xs.len() as int, m), xs[k], m) == ys[k],
{
    lemma_sum_value(xs, ys, xs.len() as int, k, m);
}

/// The sum of powers of the coefficients that are `1` at index `j` and `0`
/// elsewhere is `x^j`.
proof fn lemma_power_sum_unit(j: int, len: int, x: int)
    requires
        0 <= j < len,
    ensures
        power_sum(
            Seq::new(
                len as nat,
                |k: int|
                    if k == j {
                        1int
                    } else {
                        0int
                    },
            ),
            x,
            len,
        ) == pow(x, j as nat),
{
    let unit = Seq::new(
        len as nat,
        |k: int|
            if k == j {
                1int
            } else {
                0int
            },
    );
    let one = seq![1int];
    lemma_power_sum_shift(one, unit, x, j, len);
    lemma_pow0(x);
    assert(power_sum(one, x, 0) == 0);
    assert(power_sum(one, x, 1) == power_sum(one, x, 0) + one[0] * pow(x, 0));
    assert(pow(x, j as nat) * 1 == pow(x, j as nat));
}

/// The polynomial `x^n - 1` takes the value `x^n - 1`.
pub proof fn lemma_vanishing_value(n: nat, x: int, m: int)
    requires
        m > 0,
    ensures
        poly_eval(vanishing(n, m), x, m) == (pow(x, n) - 1) % m,
{
    let len = (n + 1) as int;
    let raw = vanishing_coeffs(n, m);
    let top = Seq::new(
        len as nat,
        |k: int|
            if k == n {
                1int
            } else {
                0int
            },
    );
    let bottom = Seq::new(
        len as nat,
        |k: int|
            if k == 0 {
                1int
            } else {
                0int
            },
    );
    let exact = Seq::new(len as nat, |k: int| top[k] - bottom[k]);
    lemma_eval_of_trimmed(raw, x, m);
    assert forall|i: int| 0 <= i < len implies raw[i] % m == exact[i] % m by {
        lemma_small_mod(raw[i] as nat, m as nat);
    }
    lemma_power_sum_congruent(raw, exact, x, len, m);
    assert forall|i: int| 0 <= i < len implies exact[i] == top[i] + (-1) * bottom[i] by {}
    lemma_power_sum_linear(exact, top, -1, bottom, x, len);
    lemma_power_sum_unit(n as int, len, x);
    lemma_power_sum_unit(0, len, x);
    lemma_pow0(x);
    assert((-1) * power_sum(bottom, x, len) == -power_sum(bottom, x, len));
}

/// The polynomial `x^n - 1` vanishes wherever `x^n = 1`: on every element
/// of the multiplicative subgroup of order `n`.
pub proof fn lemma_vanishing_roots(n: nat, x: int, m: int)
    requires
        m > 0,
        pow_mod(x, n, m) == 1int % m,
    ensures
        poly_eval(vanishing(n, m), x, m) == 0,
{
    lemma_vanishing_value(n, x, m);
    lemma_sub_mod_noop(pow(x, n), 1, m);
    lemma_small_mod(0, m as nat);
}

/// A product with a polynomial of two coefficients: the coefficient of
/// `x^k` takes `a[k] * d0` and `a[k - 1] * d1`.
proof fn lemma_conv_two(a: Seq<int>, d0: int, d1: int, k: int, n: int)
    requires
        0 <= n <= a.len(),
        0 <= k,
    ensures
        conv_upto(a, seq![d0, d1], k, n) == (if k < n {
            a[k] * d0
        } else {
            0
        }) + (if 1 <= k <= n {
            a[k - 1] * d1
        } else {
            0
        }),
    decreases n,
{
    if n > 0 {
        lemma_conv_two(a, d0, d1, k, n - 1);
        let d = seq![d0, d1];
        let j = k - (n - 1);
        if j == 0 {
            assert(coeff(d, j) == d0);
        } else if j == 1 {
            assert(coeff(d, j) == d1);
        } else {
            assert(coeff(d, j) == 0);
            assert(a[n - 1] * 0 == 0);
        }
    }
}

/// One step of synthetic division, read backwards: the quotient times
/// `x - z` gives the coefficient back.
proof fn lemma_ruffini_step(u: int, v: int, z: int, m: int)
    requires
        m > 0,
    ensures
        ((u % m) * neg_mod(z, m) + (v % m) * 1) % m == (v - z * u) % m,
{
    let scaled = (u % m) * neg_mod(z, m);
    lemma_mul_mod_noop_general(u, -z, m);
    assert(scaled % m == (u * (-z)) % m);
    assert((v % m) * 1 == v % m);
    lemma_add_mod_noop_right(scaled, v, m);
    lemma_add_mod_noop_right(v, scaled, m);
    lemma_add_mod_noop_right(v, u * (-z), m);
    assert(v + u * (-z) == v - z * u) by (nonlinear_arith);
}

/// The remainder theorem: `p` is its quotient by `x - z` times `x - z`,
/// plus its value at `z`.
pub proof fn lemma_linear_quotient(p: Seq<int>, z: int, m: int)
    requires
        m > 0,
        canonical(p, m),
    ensures
        p == poly_add(
            poly_mul(linear_quotient(p, z, m), linear_factor(z, m), m),
            seq![poly_eval(p, z, m)],
            m,
        ),
{
    let top = (p.len() - 1) as int;
    let q = Seq::new(top as nat, |i: int| horner(p, z, i + 1) % m);
    let r = seq![horner(p, z, 0) % m];
    let d = linear_factor(z, m);
    let d0 = neg_mod(z, m);
    if m == 1 {
        assert(p.len() == 1);
        let product = poly_mul(trim(q), d, m);
        let len = if product.len() >= r.len() {
            product.len()
        } else {
            r.len()
        };
        let sum = Seq::new(len, |k: int| add_mod(coeff(product, k), coeff(r, k), m));
        lemma_trim_unique(sum, p, m);
    } else {
        lemma_small_mod(1, m as nat);
        assert(d =~= seq![d0, 1int]);
        lemma_small_mod(0, m as nat);
        assert forall|k: int| 0 <= k implies (#[trigger] conv(q, d, k) + coeff(r, k)) % m
            == coeff(p, k) by {
            lemma_conv_two(q, d0, 1, k, top);
            if k > top {
                assert(conv(q, d, k) == 0);
            } else if k == 0 {
                if top > 0 {
                    // q[0] * (-z) + p(z) = p[0]
                    lemma_ruffini_step(horner(p, z, 1), horner(p, z, 0), z, m);
                    assert((horner(p, z, 0) % m) * 1 == horner(p, z, 0) % m);
                } else {
                    assert(horner(p, z, 1) == 0);
                    assert(z * 0 == 0);
                    lemma_mod_twice(horner(p, z, 0), m);
                }
                lemma_small_mod(p[0] as nat, m as nat);
            } else if k == top {
                assert(horner(p, z, top + 1) == 0);
                assert(z * 0 == 0);
                assert((horner(p, z, top) % m) * 1 == horner(p, z, top) % m);
                lemma_mod_twice(horner(p, z, top), m);
                lemma_small_mod(p[top] as nat, m as nat);
            } else {
                lemma_ruffini_step(horner(p, z, k + 1), horner(p, z, k), z, m);
                lemma_small_mod(p[k] as nat, m as nat);
            }
        }
        lemma_division_identity(p, q, d, r, m);
    }
}

/// Below the top, no pair of coefficients reaches the top coefficient of a
/// product.
proof fn lemma_conv_below_top(a: Seq<int>, b: Seq<int>, n: int)
    requires
        0 <= n < a.len(),
        b.len() >= 1,
    ensures
        conv_upto(a, b, a.len() + b.len() - 2, n) == 0,
    decreases n,
{
    if n > 0 {
        lemma_conv_below_top(a, b, n - 1);
        assert(coeff(b, a.len() + b.len() - 2 - (n - 1)) == 0);
        assert(a[n - 1] * 0 == 0);
    }
}

/// Over a prime field the product of two nonzero polynomials has the full
/// length of the convolution, `len(a) + len(b) - 1`: the degrees add.
pub proof fn lemma_product_length(a: Seq<int>, b: Seq<int>, m: int)
    requires
        is_prime(m),
        canonical(a, m),
        canonical(b, m),
        !is_zero(a),
        !is_zero(b),
    ensures
        poly_mul(a, b, m).len() == a.len() + b.len() - 1,
{
    let len = (a.len() + b.len() - 1) as nat;
    let raw = Seq::new(len, |k: int| conv(a, b, k) % m);
    let top = len - 1;
    let lead_a = a[a.len() - 1];
    let lead_b = b[b.len() - 1];
    lemma_conv_below_top(a, b, a.len() - 1);
    assert(coeff(b, top - (a.len() - 1)) == lead_b);
    assert(conv(a, b, top) == lead_a * lead_b);
    lemma_small_mod(lead_a as nat, m as nat);
    lemma_small_mod(lead_b as nat, m as nat);
    if (lead_a * lead_b) % m == 0 {
        lemma_prime_no_zero_divisors(lead_a, lead_b, m);
    }
    assert(raw.last() != 0);
    assert(trim(raw) == raw);
}

/// The coefficients of `q * d + r` in canonical form are those of the
/// convolution plus the remainder, modulo `m`.
proof fn lemma_combination_coeff(q: Seq<int>, d: Seq<int>, r: Seq<int>, k: int, m: int)
    requires
        m > 0,
        q.len() >= 1,
        d.len() >= 1,
        0 <= k,
    ensures
        coeff(poly_add(poly_mul(q, d, m), r, m), k) == (conv(q, d, k) + coeff(r, k)) % m,
{
    let raw_product = Seq::new((q.len() + d.len() - 1) as nat, |i: int| conv(q, d, i) % m);
    let product = trim(raw_product);
    let len = if product.len() >= r.len() {
        product.len()
    } else {
        r.len()
    };
    let raw_sum = Seq::new(len, |i: int| add_mod(coeff(product, i), coeff(r, i), m));
    lemma_trim_coeff(raw_sum, k);
    lemma_trim_coeff(raw_product, k);
    lemma_small_mod(0, m as nat);
    if k >= raw_product.len() {
        lemma_conv_beyond(q, d, k, q.len() as int);
    }
    assert(coeff(product, k) == conv(q, d, k) % m);
    lemma_add_mod_noop_right(coeff(r, k), conv(q, d, k), m);
    if k >= len {
        assert(coeff(product, k) == 0);
        assert(coeff(r, k) == 0);
    }
}

/// Where the coefficients of `e` above index `i` are multiples of `m`, and
/// `d` has `top + 1` coefficients, the coefficient of `x^(i + top)` in
/// `e * d` is `e[i]` times the leading coefficient of `d`, modulo `m`.
proof fn lemma_conv_leading(e: Seq<int>, d: Seq<int>, i: int, n: int, m: int)
    requires
        m > 0,
        d.len() >= 1,
        0 <= i < e.len(),
        0 <= n <= e.len(),
        forall|t: int| i < t < e.len() ==> #[trigger] e[t] % m == 0,
    ensures
        conv_upto(e, d, i + d.len() - 1, n) % m == (if i < n {
            e[i] * d.last()
        } else {
            0
        }) % m,
    decreases n,
{
    let k = i + d.len() - 1;
    if n > 0 {
        lemma_conv_leading(e, d, i, n - 1, m);
        let t = n - 1;
        let before = conv_upto(e, d, k, n - 1);
        let term = e[t] * coeff(d, k - t);
        lemma_small_mod(0, m as nat);
        if t < i {
            assert(coeff(d, k - t) == 0);
            assert(e[t] * 0 == 0);
        } else if t == i {
            assert(coeff(d, k - t) == d.last());
            lemma_add_mod_noop(before, term, m);
            lemma_mod_twice(term, m);
        } else {
            lemma_mul_mod_noop_general(e[t], coeff(d, k - t), m);
            assert(0 * (coeff(d, k - t) % m) == 0);
            lemma_add_mod_noop(before, term, m);
            lemma_mod_twice(before, m);
        }
    }
}

/// The convolution is linear in its first factor.
proof fn lemma_conv_difference(a: Seq<int>, b: Seq<int>, e: Seq<int>, d: Seq<int>, k: int, n: int)
    requires
        0 <= n <= e.len(),
        forall|i: int| 0 <= i < n ==> #[trigger] e[i] == coeff(a, i) - coeff(b, i),
    ensures
        conv_upto(e, d, k, n) == conv_upto(a, d, k, if n <= a.len() {
            n
        } else {
            a.len() as int
        }) - conv_upto(b, d, k, if n <= b.len() {
            n
        } else {
            b.len() as int
        }),
    decreases n,
{
    if n > 0 {
        lemma_conv_difference(a, b, e, d, k, n - 1);
        let c = coeff(d, k - (n - 1));
        assert((coeff(a, n - 1) - coeff(b, n - 1)) * c == coeff(a, n - 1) * c - coeff(b, n - 1)
            * c) by (nonlinear_arith);
        assert(0 * c == 0);
    }
}

/// Where `e * d` is the difference of two remainders that are zero or
/// shorter than `d`, every coefficient of `e` is a multiple of `m`: from
/// the top down, each one is what is left at a place beyond the remainders.
proof fn lemma_difference_vanishes(
    e: Seq<int>,
    d: Seq<int>,
    r1: Seq<int>,
    r2: Seq<int>,
    j: int,
    m: int,
)
    requires
        m > 0,
        d.len() >= 1,
        0 <= j <= e.len(),
        invertible(d.last(), m),
        0 <= d.last(),
        is_zero(r1) || r1.len() < d.len(),
        is_zero(r2) || r2.len() < d.len(),
        forall|k: int|
            0 <= k ==> (#[trigger] conv_upto(e, d, k, e.len() as int) + coeff(r1, k) - coeff(
                r2,
                k,
            )) % m == 0,
    ensures
        forall|t: int| j <= t < e.len() ==> #[trigger] e[t] % m == 0,
    decreases e.len() - j,
{
    if j < e.len() {
        lemma_difference_vanishes(e, d, r1, r2, j + 1, m);
        let lead = d.last();
        let inv = inv_mod(lead, m);
        let k = j + d.len() - 1;
        lemma_inv_mod_is_inverse(lead, m);
        lemma_conv_leading(e, d, j, e.len() as int, m);
        assert(coeff(r1, k) == 0 && coeff(r2, k) == 0);
        assert((conv_upto(e, d, k, e.len() as int) + coeff(r1, k) - coeff(r2, k)) % m == 0);
        assert((e[j] * lead) % m == 0);
        // e[j] = e[j] * lead * inv = 0, modulo m.
        lemma_mul_mod_noop_general(e[j] * lead, inv, m);
        assert((e[j] * lead) * inv == e[j] * (lead * inv)) by (nonlinear_arith);
        lemma_mul_mod_noop_general(e[j], lead * inv, m);
        lemma_mul_mod_noop_general(e[j], 1, m);
        assert(e[j] * 1 == e[j]);
        assert(0 * (inv % m) == 0);
        lemma_small_mod(0, m as nat);
    }
}

/// The quotient and the remainder of a division are unique: two pairs that
/// both satisfy `p == q * d + r`, with `r` zero or shorter than `d`, are
/// the same pair, where the leading coefficient of `d` has an inverse.
pub proof fn lemma_division_unique(
    p: Seq<int>,
    d: Seq<int>,
    q1: Seq<int>,
    r1: Seq<int>,
    q2: Seq<int>,
    r2: Seq<int>,
    m: int,
)
    requires
        m > 0,
        canonical(d, m),
        canonical(q1, m),
        canonical(r1, m),
        canonical(q2, m),
        canonical(r2, m),
        invertible(d.last(), m),
        p == poly_add(poly_mul(q1, d, m), r1, m),
        p == poly_add(poly_mul(q2, d, m), r2, m),
        is_zero(r1) || r1.len() < d.len(),
        is_zero(r2) || r2.len() < d.len(),
    ensures
        q1 == q2,
        r1 == r2,
{
    let top = d.len() - 1;
    let lead = d.last();
    let inv = inv_mod(lead, m);
    let n = if q1.len() >= q2.len() {
        q1.len()
    } else {
        q2.len()
    };
    let e = Seq::new(n, |i: int| coeff(q1, i) - coeff(q2, i));
    lemma_inv_mod_is_inverse(lead, m);
    lemma_small_mod(0, m as nat);
    // Both combinations have the coefficients of p, so the difference of the
    // quotients times d is the difference of the remainders.
    assert forall|k: int| 0 <= k implies (#[trigger] conv_upto(e, d, k, n as int) + coeff(r1, k)
        - coeff(r2, k)) % m == 0 by {
        lemma_combination_coeff(q1, d, r1, k, m);
        lemma_combination_coeff(q2, d, r2, k, m);
        lemma_conv_difference(q1, q2, e, d, k, n as int);
        lemma_mod_equivalence(conv(q1, d, k) + coeff(r1, k), conv(q2, d, k) + coeff(r2, k), m);
    }
    lemma_difference_vanishes(e, d, r1, r2, 0, m);
    assert forall|k: int| 0 <= k implies coeff(q1, k) == coeff(q2, k) by {
        if k < n {
            assert(e[k] % m == 0);
            lemma_mod_equivalence(coeff(q1, k), coeff(q2, k), m);
            lemma_small_mod(coeff(q1, k) as nat, m as nat);
            lemma_small_mod(coeff(q2, k) as nat, m as nat);
        }
    }
    lemma_canonical_unique(q1, q2, m);
    assert forall|k: int| 0 <= k implies coeff(r1, k) == coeff(r2, k) by {
        lemma_combination_coeff(q1, d, r1, k, m);
        lemma_combination_coeff(q2, d, r2, k, m);
        lemma_add_mod_noop_right(coeff(r1, k) - coeff(r2, k), conv(q1, d, k), m);
        lemma_mod_equivalence(conv(q1, d, k) + coeff(r1, k), conv(q1, d, k) + coeff(r2, k), m);
        lemma_mod_equivalence(coeff(r1, k), coeff(r2, k), m);
        lemma_small_mod(coeff(r1, k) as nat, m as nat);
        lemma_small_mod(coeff(r2, k) as nat, m as nat);
    }
    lemma_canonical_unique(r1, r2, m);
}

} // verus!
