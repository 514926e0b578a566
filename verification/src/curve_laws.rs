//! The group law keeps points on the curve: over a prime field the sum of
//! two points of the curve, and every multiple of one, is on the curve.

use crate::curve_math::{chord_slope, ec_add, ec_mul, ec_mul_from, on_curve, tangent_slope};
use crate::modular::{
    is_prime, lemma_div_mod_cancels, lemma_mod_of_negation, lemma_multiple_vanishes,
    lemma_prime_invertible, lemma_prime_no_zero_divisors, neg_mod, sub_mod,
};
use vstd::arithmetic::div_mod::{
    lemma_add_mod_noop, lemma_fundamental_div_mod, lemma_mod_equivalence, lemma_mod_twice,
    lemma_mul_mod_noop_general, lemma_small_mod, lemma_sub_mod_noop,
};
use vstd::prelude::*;

verus! {

/// Infinity, or coordinates that are residues modulo `m`.
pub open spec fn reduced(p: Option<(int, int)>, m: int) -> bool {
    match p {
        None => true,
        Some((x, y)) => 0 <= x < m && 0 <= y < m,
    }
}

/// The right-hand side of the curve equation: `x³ + a·x + b`.
spec fn cubic(x: int, a: int, b: int) -> int {
    x * x * x + a * x + b
}

/// The line through `(x1, y1)` with slope `s`, at `x`.
spec fn line(x: int, x1: int, y1: int, s: int) -> int {
    s * (x - x1) + y1
}

/// What is left of `cubic - line²` after the root `x1` is divided out:
/// the quadratic whose roots are the other two points where the line
/// meets the curve.
spec fn secant(x: int, x1: int, y1: int, s: int, a: int) -> int {
    x * x + x * x1 + x1 * x1 + a - s * s * (x - x1) - 2 * (s * y1)
}

/// The cubic less the square of the line vanishes at `x1` up to the curve
/// equation there, and the rest has the factor `x - x1`.
proof fn lemma_factor_out_root(x: int, x1: int, y1: int, s: int, a: int, b: int)
    ensures
        cubic(x, a, b) - line(x, x1, y1, s) * line(x, x1, y1, s) == (cubic(x1, a, b) - y1 * y1)
            + (x - x1) * secant(x, x1, y1, s, a),
{
    let d = x - x1;
    let sd = s * d;
    let l = line(x, x1, y1, s);
    assert(l * l == sd * sd + 2 * (sd * y1) + y1 * y1) by (nonlinear_arith)
        requires
            l == sd + y1,
    ;
    assert(sd * sd == d * (s * s * d)) by (nonlinear_arith)
        requires
            sd == s * d,
    ;
    assert(sd * y1 == d * (s * y1)) by (nonlinear_arith)
        requires
            sd == s * d,
    ;
    assert(x * x * x - x1 * x1 * x1 == d * (x * x + x * x1 + x1 * x1)) by (nonlinear_arith)
        requires
            d == x - x1,
    ;
    assert(a * x - a * x1 == d * a) by (nonlinear_arith)
        requires
            d == x - x1,
    ;
    let q = x * x + x * x1 + x1 * x1;
    assert(d * secant(x, x1, y1, s, a) == d * q + d * a - d * (s * s * d) - 2 * (d * (s * y1)))
        by (nonlinear_arith)
        requires
            secant(x, x1, y1, s, a) == q + a - s * s * d - 2 * (s * y1),
    ;
}

/// Two values of the secant differ by a multiple of the sum of the three
/// roots less `s²`.
proof fn lemma_secant_difference(x3: int, x2: int, x1: int, y1: int, s: int, a: int)
    ensures
        secant(x3, x1, y1, s, a) - secant(x2, x1, y1, s, a) == (x3 - x2) * (x3 + x2 + x1 - s
            * s),
{
    let ss = s * s;
    assert(x3 * x3 - x2 * x2 + (x3 * x1 - x2 * x1) - (ss * (x3 - x1) - ss * (x2 - x1)) == (x3
        - x2) * (x3 + x2 + x1 - ss)) by (nonlinear_arith);
}

/// A product with a multiple of `m` is a multiple of `m`.
pub(crate) proof fn lemma_product_vanishes(u: int, w: int, m: int)
    requires
        m > 0,
        w % m == 0,
    ensures
        (u * w) % m == 0,
{
    lemma_mul_mod_noop_general(u, w, m);
    assert((u % m) * 0 == 0);
    lemma_small_mod(0, m as nat);
}

/// A sum of two multiples of `m` is a multiple of `m`.
pub(crate) proof fn lemma_sum_vanishes(u: int, w: int, m: int)
    requires
        m > 0,
        u % m == 0,
        w % m == 0,
    ensures
        (u + w) % m == 0,
{
    lemma_add_mod_noop(u, w, m);
    lemma_small_mod(0, m as nat);
}

/// The third point where a line meets the curve, mirrored, is on the
/// curve: where `(x1, y1)` is on the curve and `x2` is a second root of the
/// line with slope `s` through it, so is `(x3, y3)`.
proof fn lemma_third_point(
    x1: int,
    y1: int,
    x2: int,
    s: int,
    a: int,
    b: int,
    x3: int,
    y3: int,
    m: int,
)
    requires
        m > 0,
        (y1 * y1) % m == cubic(x1, a, b) % m,
        secant(x2, x1, y1, s, a) % m == 0,
        x3 == (s * s - x1 - x2) % m,
        y3 == (s * (x1 - x3) - y1) % m,
    ensures
        (y3 * y3) % m == cubic(x3, a, b) % m,
{
    // The secant vanishes at x3, because x3 + x2 + x1 = s².
    lemma_fundamental_div_mod(s * s - x1 - x2, m);
    let k = (s * s - x1 - x2) / m;
    assert(m * (-k) == -(m * k)) by (nonlinear_arith);
    lemma_multiple_vanishes(x3 + x2 + x1 - s * s, -k, m);
    lemma_product_vanishes(x3 - x2, x3 + x2 + x1 - s * s, m);
    lemma_secant_difference(x3, x2, x1, y1, s, a);
    lemma_sum_vanishes(
        secant(x2, x1, y1, s, a),
        (x3 - x2) * (x3 + x2 + x1 - s * s),
        m,
    );
    assert(secant(x3, x1, y1, s, a) % m == 0);
    // So the cubic and the square of the line agree at x3.
    lemma_product_vanishes(x3 - x1, secant(x3, x1, y1, s, a), m);
    lemma_mod_equivalence(cubic(x1, a, b), y1 * y1, m);
    lemma_sum_vanishes(cubic(x1, a, b) - y1 * y1, (x3 - x1) * secant(x3, x1, y1, s, a), m);
    lemma_factor_out_root(x3, x1, y1, s, a, b);
    let l = line(x3, x1, y1, s);
    lemma_mod_equivalence(cubic(x3, a, b), l * l, m);
    assert(cubic(x3, a, b) % m == (l * l) % m);
    // And y3 is the line at x3, negated.
    assert(s * (x1 - x3) - y1 == -l) by (nonlinear_arith)
        requires
            l == s * (x3 - x1) + y1,
    ;
    lemma_mul_mod_noop_general(-l, -l, m);
    lemma_mod_twice(-l, m);
    assert((-l) * (-l) == l * l) by (nonlinear_arith);
}

/// The chord through two points of the curve with different abscissas
/// meets the curve at the second point: the secant vanishes there.
proof fn lemma_chord_secant(x1: int, y1: int, x2: int, y2: int, s: int, a: int, b: int, m: int)
    requires
        is_prime(m),
        0 <= x1 < m,
        0 <= x2 < m,
        x1 != x2,
        (y1 * y1) % m == cubic(x1, a, b) % m,
        (y2 * y2) % m == cubic(x2, a, b) % m,
        (s * (x2 - x1)) % m == (y2 - y1) % m,
    ensures
        secant(x2, x1, y1, s, a) % m == 0,
{
    let l = line(x2, x1, y1, s);
    // The line passes through the second point: l = y2 modulo m.
    lemma_add_mod_noop(s * (x2 - x1), y1, m);
    lemma_add_mod_noop(y2 - y1, y1, m);
    assert(l % m == y2 % m);
    lemma_mul_mod_noop_general(l, l, m);
    lemma_mul_mod_noop_general(y2, y2, m);
    assert((l * l) % m == cubic(x2, a, b) % m);
    lemma_mod_equivalence(cubic(x2, a, b), l * l, m);
    lemma_mod_equivalence(cubic(x1, a, b), y1 * y1, m);
    lemma_factor_out_root(x2, x1, y1, s, a, b);
    let rest = (x2 - x1) * secant(x2, x1, y1, s, a);
    assert(rest == (cubic(x2, a, b) - l * l) - (cubic(x1, a, b) - y1 * y1));
    lemma_sub_mod_noop(cubic(x2, a, b) - l * l, cubic(x1, a, b) - y1 * y1, m);
    lemma_small_mod(0, m as nat);
    assert(rest % m == 0);
    lemma_prime_no_zero_divisors(x2 - x1, secant(x2, x1, y1, s, a), m);
    if x2 > x1 {
        lemma_small_mod((x2 - x1) as nat, m as nat);
    } else {
        lemma_mod_of_negation(x1 - x2, m);
        lemma_small_mod((x1 - x2) as nat, m as nat);
    }
}

/// The tangent at a point of the curve meets the curve twice there: the
/// secant vanishes at the point itself.
proof fn lemma_tangent_secant(x1: int, y1: int, s: int, a: int, m: int)
    requires
        m > 0,
        (s * (2 * y1)) % m == (3 * (x1 * x1) + a) % m,
    ensures
        secant(x1, x1, y1, s, a) % m == 0,
{
    lemma_mod_equivalence(3 * (x1 * x1) + a, s * (2 * y1), m);
    assert(secant(x1, x1, y1, s, a) == 3 * (x1 * x1) + a - s * (2 * y1)) by (nonlinear_arith)
        requires
            secant(x1, x1, y1, s, a) == x1 * x1 + x1 * x1 + x1 * x1 + a - s * s * (x1 - x1) - 2
                * (s * y1),
    ;
}

/// Two residues with one square modulo a prime are equal or opposite.
proof fn lemma_equal_squares(y1: int, y2: int, m: int)
    requires
        is_prime(m),
        0 <= y1 < m,
        0 <= y2 < m,
        (y1 * y1) % m == (y2 * y2) % m,
    ensures
        y1 == y2 || y1 == neg_mod(y2, m),
{
    lemma_mod_equivalence(y1 * y1, y2 * y2, m);
    assert((y1 - y2) * (y1 + y2) == y1 * y1 - y2 * y2) by (nonlinear_arith);
    lemma_prime_no_zero_divisors(y1 - y2, y1 + y2, m);
    if (y1 - y2) % m == 0 {
        lemma_mod_equivalence(y1, y2, m);
        lemma_small_mod(y1 as nat, m as nat);
        lemma_small_mod(y2 as nat, m as nat);
    } else {
        lemma_mod_equivalence(y1, -y2, m);
        lemma_small_mod(y1 as nat, m as nat);
    }
}

/// Over a prime field the sum of two points of the curve is a point of the
/// curve.
pub proof fn lemma_sum_on_curve(
    p: Option<(int, int)>,
    q: Option<(int, int)>,
    a: int,
    b: int,
    m: int,
)
    requires
        is_prime(m),
        reduced(p, m),
        reduced(q, m),
        on_curve(p, a, b, m),
        on_curve(q, a, b, m),
    ensures
        reduced(ec_add(p, q, a, m), m),
        on_curve(ec_add(p, q, a, m), a, b, m),
{
    if p is Some && q is Some {
        let (x1, y1) = p->0;
        let (x2, y2) = q->0;
        assert(cubic(x1, a, b) == x1 * x1 * x1 + a * x1 + b);
        assert(cubic(x2, a, b) == x2 * x2 * x2 + a * x2 + b);
        if !(x1 == x2 && y1 == neg_mod(y2, m)) {
            if x1 == x2 && y1 == y2 {
                // The tangent: 2·y1 is not zero, or y1 were its own negation.
                let s = tangent_slope(x1, y1, a, m);
                let den = (2 * y1) % m;
                if den == 0 {
                    lemma_mod_equivalence(y1, -y1, m);
                    assert(y1 - (-y1) == 2 * y1);
                    lemma_small_mod(y1 as nat, m as nat);
                    assert(false);
                }
                lemma_prime_invertible(den, m);
                lemma_div_mod_cancels((3 * (x1 * x1) + a) % m, den, m);
                lemma_mul_mod_noop_general(s, 2 * y1, m);
                lemma_mod_twice(3 * (x1 * x1) + a, m);
                lemma_tangent_secant(x1, y1, s, a, m);
                let x3 = (s * s - x1 - x2) % m;
                let y3 = (s * (x1 - x3) - y1) % m;
                lemma_third_point(x1, y1, x1, s, a, b, x3, y3, m);
                assert(cubic(x3, a, b) == x3 * x3 * x3 + a * x3 + b);
            } else {
                if x1 == x2 {
                    lemma_equal_squares(y1, y2, m);
                    assert(false);
                }
                let s = chord_slope(x1, y1, x2, y2, m);
                let den = sub_mod(x2, x1, m);
                if x2 > x1 {
                    lemma_small_mod((x2 - x1) as nat, m as nat);
                } else {
                    lemma_mod_of_negation(x1 - x2, m);
                    lemma_small_mod((x1 - x2) as nat, m as nat);
                }
                lemma_prime_invertible(den, m);
                lemma_div_mod_cancels(sub_mod(y2, y1, m), den, m);
                lemma_mul_mod_noop_general(s, x2 - x1, m);
                lemma_mod_twice(y2 - y1, m);
                lemma_chord_secant(x1, y1, x2, y2, s, a, b, m);
                let x3 = (s * s - x1 - x2) % m;
                let y3 = (s * (x1 - x3) - y1) % m;
                lemma_third_point(x1, y1, x2, s, a, b, x3, y3, m);
                assert(cubic(x3, a, b) == x3 * x3 * x3 + a * x3 + b);
            }
        }
    }
}

/// Over a prime field double-and-add stays on the curve.
pub proof fn lemma_multiple_from_on_curve(
    acc: Option<(int, int)>,
    base: Option<(int, int)>,
    k: nat,
    a: int,
    b: int,
    m: int,
)
    requires
        is_prime(m),
        reduced(acc, m),
        reduced(base, m),
        on_curve(acc, a, b, m),
        on_curve(base, a, b, m),
    ensures
        reduced(ec_mul_from(acc, base, k, a, m), m),
        on_curve(ec_mul_from(acc, base, k, a, m), a, b, m),
    decreases k,
{
    if k != 0 {
        lemma_sum_on_curve(acc, base, a, b, m);
        lemma_sum_on_curve(base, base, a, b, m);
        lemma_multiple_from_on_curve(
            if k % 2 == 1 {
                ec_add(acc, base, a, m)
            } else {
                acc
            },
            ec_add(base, base, a, m),
            k / 2,
            a,
            b,
            m,
        );
    }
}

/// Over a prime field every multiple of a point of the curve is a point of
/// the curve.
pub proof fn lemma_multiple_on_curve(p: Option<(int, int)>, k: nat, a: int, b: int, m: int)
    requires
        is_prime(m),
        reduced(p, m),
        on_curve(p, a, b, m),
    ensures
        reduced(ec_mul(p, k, a, m), m),
        on_curve(ec_mul(p, k, a, m), a, b, m),
{
    lemma_multiple_from_on_curve(None, p, k, a, b, m);
}

} // verus!
