//! The group law keeps points on the curve over the quadratic extension
//! too, where the extension is a field: the modulus is prime and `-2` is
//! no square modulo it.
//!
//! The algebra is done on pairs of integers `a + b·u` with `u² = -2`,
//! before any reduction, and carried to the residues by congruence.

use crate::curve_laws::{lemma_product_vanishes, lemma_sum_vanishes};
use crate::curve_math::{
    chord_slope_ext, ec_add_ext, ec_mul_ext, ec_mul_ext_from, on_curve_ext, tangent_slope_ext,
};
use crate::modular::{
    extension_is_field, inv_mod, invertible, lemma_congruent_products, lemma_congruent_sums,
    lemma_inv_mod_is_inverse, lemma_prime_invertible, lemma_prime_no_zero_divisors,
    lemma_quad_inverse, quad_add, quad_div, quad_inv, quad_mul, quad_neg, quad_norm, quad_scale,
    quad_sub,
};
use vstd::arithmetic::div_mod::{
    lemma_add_mod_noop, lemma_mod_equivalence, lemma_mod_twice, lemma_small_mod, lemma_sub_mod_noop,
};
use vstd::arithmetic::mul::{lemma_mul_is_distributive_add, lemma_mul_is_distributive_sub};
use vstd::prelude::*;

verus! {

/// The sum of two pairs.
spec fn radd(x: (int, int), y: (int, int)) -> (int, int) {
    (x.0 + y.0, x.1 + y.1)
}

/// The difference of two pairs.
spec fn rsub(x: (int, int), y: (int, int)) -> (int, int) {
    (x.0 - y.0, x.1 - y.1)
}

/// The product of two pairs: `(a + b·u)(c + d·u) = (ac - 2bd) + (ad + bc)·u`.
spec fn rmul(x: (int, int), y: (int, int)) -> (int, int) {
    (x.0 * y.0 - 2 * (x.1 * y.1), x.0 * y.1 + x.1 * y.0)
}

/// A pair multiplied by an integer.
spec fn rscale(c: int, x: (int, int)) -> (int, int) {
    (c * x.0, c * x.1)
}

/// The product of pairs does not depend on the order of the factors.
proof fn lemma_rmul_commutes(x: (int, int), y: (int, int))
    ensures
        rmul(x, y) == rmul(y, x),
{
    assert(x.0 * y.0 == y.0 * x.0) by (nonlinear_arith);
    assert(x.1 * y.1 == y.1 * x.1) by (nonlinear_arith);
    assert(x.0 * y.1 == y.1 * x.0) by (nonlinear_arith);
    assert(x.1 * y.0 == y.0 * x.1) by (nonlinear_arith);
}

/// The product of pairs does not depend on how the factors are grouped.
proof fn lemma_rmul_associates(x: (int, int), y: (int, int), z: (int, int))
    ensures
        rmul(rmul(x, y), z) == rmul(x, rmul(y, z)),
{
    let (a, b) = x;
    let (c, d) = y;
    let (e, f) = z;
    let ace = a * c * e;
    let bde = b * d * e;
    let adf = a * d * f;
    let bcf = b * c * f;
    let acf = a * c * f;
    let bdf = b * d * f;
    let ade = a * d * e;
    let bce = b * c * e;
    assert((a * c - 2 * (b * d)) * e == ace - 2 * bde) by (nonlinear_arith)
        requires
            ace == a * c * e,
            bde == b * d * e,
    ;
    assert((a * d + b * c) * f == adf + bcf) by (nonlinear_arith)
        requires
            adf == a * d * f,
            bcf == b * c * f,
    ;
    assert(a * (c * e - 2 * (d * f)) == ace - 2 * adf) by (nonlinear_arith)
        requires
            ace == a * c * e,
            adf == a * d * f,
    ;
    assert(b * (c * f + d * e) == bcf + bde) by (nonlinear_arith)
        requires
            bcf == b * c * f,
            bde == b * d * e,
    ;
    assert((a * c - 2 * (b * d)) * f == acf - 2 * bdf) by (nonlinear_arith)
        requires
            acf == a * c * f,
            bdf == b * d * f,
    ;
    assert((a * d + b * c) * e == ade + bce) by (nonlinear_arith)
        requires
            ade == a * d * e,
            bce == b * c * e,
    ;
    assert(a * (c * f + d * e) == acf + ade) by (nonlinear_arith)
        requires
            acf == a * c * f,
            ade == a * d * e,
    ;
    assert(b * (c * e - 2 * (d * f)) == bce - 2 * bdf) by (nonlinear_arith)
        requires
            bce == b * c * e,
            bdf == b * d * f,
    ;
}

/// The product of pairs distributes over sums and differences.
proof fn lemma_rmul_distributes(x: (int, int), y: (int, int), z: (int, int))
    ensures
        rmul(x, radd(y, z)) == radd(rmul(x, y), rmul(x, z)),
        rmul(x, rsub(y, z)) == rsub(rmul(x, y), rmul(x, z)),
        rmul(radd(y, z), x) == radd(rmul(y, x), rmul(z, x)),
        rmul(rsub(y, z), x) == rsub(rmul(y, x), rmul(z, x)),
{
    lemma_mul_is_distributive_add(x.0, y.0, z.0);
    lemma_mul_is_distributive_add(x.1, y.1, z.1);
    lemma_mul_is_distributive_add(x.0, y.1, z.1);
    lemma_mul_is_distributive_add(x.1, y.0, z.0);
    lemma_mul_is_distributive_sub(x.0, y.0, z.0);
    lemma_mul_is_distributive_sub(x.1, y.1, z.1);
    lemma_mul_is_distributive_sub(x.0, y.1, z.1);
    lemma_mul_is_distributive_sub(x.1, y.0, z.0);
    lemma_rmul_commutes(x, radd(y, z));
    lemma_rmul_commutes(x, rsub(y, z));
    lemma_rmul_commutes(x, y);
    lemma_rmul_commutes(x, z);
}

/// An integer factor moves out of a product of pairs, and the pair `(c, 0)`
/// multiplies as the integer `c`.
proof fn lemma_rmul_scales(c: int, x: (int, int), y: (int, int))
    ensures
        rmul(rscale(c, x), y) == rscale(c, rmul(x, y)),
        rmul(x, rscale(c, y)) == rscale(c, rmul(x, y)),
        rmul((c, 0int), y) == rscale(c, y),
        rmul(y, (c, 0int)) == rscale(c, y),
{
    let (a, b) = x;
    let (e, f) = y;
    assert((c * a) * e == c * (a * e)) by (nonlinear_arith);
    assert((c * b) * f == c * (b * f)) by (nonlinear_arith);
    assert((c * a) * f == c * (a * f)) by (nonlinear_arith);
    assert((c * b) * e == c * (b * e)) by (nonlinear_arith);
    assert(a * (c * e) == c * (a * e)) by (nonlinear_arith);
    assert(b * (c * f) == c * (b * f)) by (nonlinear_arith);
    assert(a * (c * f) == c * (a * f)) by (nonlinear_arith);
    assert(b * (c * e) == c * (b * e)) by (nonlinear_arith);
    assert(c * (a * e - 2 * (b * f)) == c * (a * e) - 2 * (c * (b * f))) by (nonlinear_arith);
    assert(c * (a * f + b * e) == c * (a * f) + c * (b * e)) by (nonlinear_arith);
    assert(0 * f == 0 && 0 * e == 0);
    assert(f * 0 == 0 && e * 0 == 0);
    assert(e * c == c * e && f * c == c * f) by (nonlinear_arith);
}

/// Three factors in another order: `(x·y)·z = y·(x·z)`.
proof fn lemma_rmul_swaps(x: (int, int), y: (int, int), z: (int, int))
    ensures
        rmul(rmul(x, y), z) == rmul(y, rmul(x, z)),
        rmul(x, rmul(y, z)) == rmul(y, rmul(x, z)),
{
    lemma_rmul_commutes(x, y);
    lemma_rmul_associates(y, x, z);
    lemma_rmul_associates(x, y, z);
}

/// The right-hand side of the curve equation on pairs: `x³ + a·x + b`.
spec fn rcubic(x: (int, int), a: int, b: int) -> (int, int) {
    radd(radd(rmul(rmul(x, x), x), rscale(a, x)), (b, 0int))
}

/// The line through `(x1, y1)` with slope `s`, at `x`.
spec fn rline(x: (int, int), x1: (int, int), y1: (int, int), s: (int, int)) -> (int, int) {
    radd(rmul(s, rsub(x, x1)), y1)
}

/// What is left of `rcubic - rline²` after the root `x1` is divided out.
spec fn rsecant(x: (int, int), x1: (int, int), y1: (int, int), s: (int, int), a: int) -> (
    int,
    int,
) {
    rsub(
        rsub(
            radd(radd(radd(rmul(x, x), rmul(x, x1)), rmul(x1, x1)), (a, 0int)),
            rmul(rmul(s, s), rsub(x, x1)),
        ),
        rscale(2, rmul(s, y1)),
    )
}

/// `x³ - c³ = (x - c)(x² + x·c + c²)`.
proof fn lemma_r_cube_difference(x: (int, int), c: (int, int))
    ensures
        rsub(rmul(rmul(x, x), x), rmul(rmul(c, c), c)) == rmul(
            rsub(x, c),
            radd(radd(rmul(x, x), rmul(x, c)), rmul(c, c)),
        ),
{
    let d = rsub(x, c);
    let x2 = rmul(x, x);
    let x1 = rmul(x, c);
    let x0 = rmul(c, c);
    lemma_rmul_distributes(d, radd(x2, x1), x0);
    lemma_rmul_distributes(d, x2, x1);
    lemma_rmul_distributes(x2, x, c);
    lemma_rmul_distributes(x1, x, c);
    lemma_rmul_distributes(x0, x, c);
    // c·x² = x·(x·c) and c·(x·c) = x·c².
    lemma_rmul_commutes(x2, x);
    lemma_rmul_swaps(x, x, c);
    lemma_rmul_commutes(x2, c);
    lemma_rmul_swaps(x, c, c);
    lemma_rmul_commutes(x1, c);
    lemma_rmul_commutes(x0, c);
    lemma_rmul_associates(c, c, c);
}

/// `(p + q)² = p² + 2·p·q + q²`.
proof fn lemma_r_square_of_sum(p: (int, int), q: (int, int))
    ensures
        rmul(radd(p, q), radd(p, q)) == radd(
            radd(rmul(p, p), rscale(2, rmul(p, q))),
            rmul(q, q),
        ),
{
    let l = radd(p, q);
    lemma_rmul_distributes(l, p, q);
    lemma_rmul_distributes(p, p, q);
    lemma_rmul_distributes(q, p, q);
    lemma_rmul_commutes(q, p);
}

/// `(p - q)(p + q) = p² - q²`.
proof fn lemma_r_difference_of_squares(p: (int, int), q: (int, int))
    ensures
        rmul(rsub(p, q), radd(p, q)) == rsub(rmul(p, p), rmul(q, q)),
{
    let e = rsub(p, q);
    lemma_rmul_distributes(e, p, q);
    lemma_rmul_distributes(p, p, q);
    lemma_rmul_distributes(q, p, q);
    lemma_rmul_commutes(q, p);
}

/// The cubic less the square of the line vanishes at `x1` up to the curve
/// equation there, and the rest has the factor `x - x1`.
proof fn lemma_r_factor_out_root(
    x: (int, int),
    x1: (int, int),
    y1: (int, int),
    s: (int, int),
    a: int,
    b: int,
)
    ensures
        rsub(rcubic(x, a, b), rmul(rline(x, x1, y1, s), rline(x, x1, y1, s))) == radd(
            rsub(rcubic(x1, a, b), rmul(y1, y1)),
            rmul(rsub(x, x1), rsecant(x, x1, y1, s, a)),
        ),
{
    let d = rsub(x, x1);
    let q = radd(radd(rmul(x, x), rmul(x, x1)), rmul(x1, x1));
    let ss = rmul(s, s);
    let t = rmul(s, y1);
    let sd = rmul(s, d);
    let unit = (a, 0int);
    lemma_r_cube_difference(x, x1);
    lemma_mul_is_distributive_sub(a, x.0, x1.0);
    lemma_mul_is_distributive_sub(a, x.1, x1.1);
    lemma_rmul_scales(a, d, d);
    lemma_r_square_of_sum(sd, y1);
    // (s·d)·(s·d) = d·((s·s)·d) and (s·d)·y1 = d·(s·y1).
    lemma_rmul_swaps(s, d, sd);
    lemma_rmul_associates(s, s, d);
    lemma_rmul_swaps(s, d, y1);
    // d times the secant, term by term.
    lemma_rmul_distributes(d, rsub(radd(q, unit), rmul(ss, d)), rscale(2, t));
    lemma_rmul_distributes(d, radd(q, unit), rmul(ss, d));
    lemma_rmul_distributes(d, q, unit);
    lemma_rmul_scales(2, d, t);
    assert(rmul(d, unit) == rscale(a, d));
    assert(rmul(sd, sd) == rmul(d, rmul(ss, d)));
    assert(rmul(sd, y1) == rmul(d, t));
}

/// Two values of the secant differ by a multiple of the sum of the three
/// roots less `s²`.
proof fn lemma_r_secant_difference(
    x3: (int, int),
    x2: (int, int),
    x1: (int, int),
    y1: (int, int),
    s: (int, int),
    a: int,
)
    ensures
        rsub(rsecant(x3, x1, y1, s, a), rsecant(x2, x1, y1, s, a)) == rmul(
            rsub(x3, x2),
            rsub(radd(radd(x3, x2), x1), rmul(s, s)),
        ),
{
    let e = rsub(x3, x2);
    let ss = rmul(s, s);
    lemma_rmul_distributes(e, radd(radd(x3, x2), x1), ss);
    lemma_rmul_distributes(e, radd(x3, x2), x1);
    lemma_r_difference_of_squares(x3, x2);
    lemma_rmul_distributes(x1, x3, x2);
    lemma_rmul_commutes(e, ss);
    lemma_rmul_distributes(ss, x3, x2);
    lemma_rmul_distributes(ss, x3, x1);
    lemma_rmul_distributes(ss, x2, x1);
}

/// At its own root the secant is the tangent condition:
/// `3·x1² + a - s·(2·y1)`.
proof fn lemma_r_tangent(x1: (int, int), y1: (int, int), s: (int, int), a: int)
    ensures
        rsecant(x1, x1, y1, s, a) == rsub(
            radd(rscale(3, rmul(x1, x1)), (a, 0int)),
            rmul(s, rscale(2, y1)),
        ),
{
    let ss = rmul(s, s);
    assert(ss.0 * 0 == 0 && ss.1 * 0 == 0);
    lemma_rmul_scales(2, s, y1);
}

/// The square of the negated line is the square of the line.
proof fn lemma_r_mirror(x3: (int, int), x1: (int, int), y1: (int, int), s: (int, int))
    ensures
        rmul(rsub(rmul(s, rsub(x1, x3)), y1), rsub(rmul(s, rsub(x1, x3)), y1)) == rmul(
            rline(x3, x1, y1, s),
            rline(x3, x1, y1, s),
        ),
{
    let l = rline(x3, x1, y1, s);
    let y = rsub(rmul(s, rsub(x1, x3)), y1);
    lemma_rmul_distributes(s, x1, x3);
    lemma_rmul_distributes(s, x3, x1);
    assert(y == rscale(-1, l));
    lemma_rmul_scales(-1, l, rscale(-1, l));
    lemma_rmul_scales(-1, l, l);
}

/// Both parts are multiples of `m`: the pair is zero modulo `m`.
spec fn rvan(x: (int, int), m: int) -> bool {
    x.0 % m == 0 && x.1 % m == 0
}

/// Both parts reduced modulo `m`.
spec fn rred(x: (int, int), m: int) -> (int, int) {
    (x.0 % m, x.1 % m)
}

/// Both parts are residues modulo `m`.
spec fn rres(x: (int, int), m: int) -> bool {
    0 <= x.0 < m && 0 <= x.1 < m
}

/// Sums and differences of pairs that vanish modulo `m` vanish.
proof fn lemma_rvan_sum(u: (int, int), w: (int, int), m: int)
    requires
        m > 0,
        rvan(u, m),
        rvan(w, m),
    ensures
        rvan(radd(u, w), m),
        rvan(rsub(u, w), m),
{
    lemma_small_mod(0, m as nat);
    lemma_add_mod_noop(u.0, w.0, m);
    lemma_add_mod_noop(u.1, w.1, m);
    lemma_sub_mod_noop(u.0, w.0, m);
    lemma_sub_mod_noop(u.1, w.1, m);
}

/// A product with a pair that vanishes modulo `m` vanishes.
proof fn lemma_rvan_product(u: (int, int), w: (int, int), m: int)
    requires
        m > 0,
        rvan(w, m),
    ensures
        rvan(rmul(u, w), m),
        rvan(rmul(w, u), m),
{
    lemma_small_mod(0, m as nat);
    lemma_product_vanishes(u.0, w.0, m);
    lemma_product_vanishes(u.1, w.1, m);
    lemma_product_vanishes(2, u.1 * w.1, m);
    lemma_product_vanishes(u.0, w.1, m);
    lemma_product_vanishes(u.1, w.0, m);
    lemma_sub_mod_noop(u.0 * w.0, 2 * (u.1 * w.1), m);
    lemma_sum_vanishes(u.0 * w.1, u.1 * w.0, m);
    lemma_rmul_commutes(u, w);
}

/// A pair is congruent to its reduction.
proof fn lemma_rred_close(x: (int, int), m: int)
    requires
        m > 0,
    ensures
        rvan(rsub(rred(x, m), x), m),
        rres(rred(x, m), m),
{
    lemma_mod_twice(x.0, m);
    lemma_mod_twice(x.1, m);
    lemma_mod_equivalence(x.0 % m, x.0, m);
    lemma_mod_equivalence(x.1 % m, x.1, m);
}

/// Congruence is transitive.
proof fn lemma_rvan_chain(p: (int, int), q: (int, int), r: (int, int), m: int)
    requires
        m > 0,
        rvan(rsub(p, q), m),
        rvan(rsub(q, r), m),
    ensures
        rvan(rsub(p, r), m),
{
    lemma_rvan_sum(rsub(p, q), rsub(q, r), m);
    assert(radd(rsub(p, q), rsub(q, r)) == rsub(p, r));
}

/// Congruence is symmetric.
proof fn lemma_rvan_flip(p: (int, int), q: (int, int), m: int)
    requires
        m > 0,
        rvan(rsub(p, q), m),
    ensures
        rvan(rsub(q, p), m),
{
    lemma_small_mod(0, m as nat);
    lemma_rvan_sum((0int, 0int), rsub(p, q), m);
    assert(rsub((0int, 0int), rsub(p, q)) == rsub(q, p));
}

/// Congruent factors give congruent products.
proof fn lemma_rcong_product(u: (int, int), u2: (int, int), v: (int, int), v2: (int, int), m: int)
    requires
        m > 0,
        rvan(rsub(u, u2), m),
        rvan(rsub(v, v2), m),
    ensures
        rvan(rsub(rmul(u, v), rmul(u2, v2)), m),
{
    lemma_rmul_distributes(v, u, u2);
    lemma_rmul_distributes(u2, v, v2);
    lemma_rvan_product(v, rsub(u, u2), m);
    lemma_rvan_product(u2, rsub(v, v2), m);
    lemma_rvan_sum(rmul(rsub(u, u2), v), rmul(u2, rsub(v, v2)), m);
    assert(radd(rmul(rsub(u, u2), v), rmul(u2, rsub(v, v2))) == rsub(rmul(u, v), rmul(u2, v2)));
}

/// Congruent terms give congruent sums and differences.
proof fn lemma_rcong_sum(u: (int, int), u2: (int, int), v: (int, int), v2: (int, int), m: int)
    requires
        m > 0,
        rvan(rsub(u, u2), m),
        rvan(rsub(v, v2), m),
    ensures
        rvan(rsub(radd(u, v), radd(u2, v2)), m),
        rvan(rsub(rsub(u, v), rsub(u2, v2)), m),
{
    lemma_rvan_sum(rsub(u, u2), rsub(v, v2), m);
    assert(radd(rsub(u, u2), rsub(v, v2)) == rsub(radd(u, v), radd(u2, v2)));
    assert(rsub(rsub(u, u2), rsub(v, v2)) == rsub(rsub(u, v), rsub(u2, v2)));
}

/// A pair is congruent to itself.
proof fn lemma_rvan_self(p: (int, int), m: int)
    requires
        m > 0,
    ensures
        rvan(rsub(p, p), m),
{
    lemma_small_mod(0, m as nat);
}

/// Congruent pairs of residues are equal.
proof fn lemma_rres_equal(p: (int, int), q: (int, int), m: int)
    requires
        m > 0,
        rres(p, m),
        rres(q, m),
        rvan(rsub(p, q), m),
    ensures
        p == q,
{
    lemma_mod_equivalence(p.0, q.0, m);
    lemma_mod_equivalence(p.1, q.1, m);
    lemma_small_mod(p.0 as nat, m as nat);
    lemma_small_mod(p.1 as nat, m as nat);
    lemma_small_mod(q.0 as nat, m as nat);
    lemma_small_mod(q.1 as nat, m as nat);
}

/// Where `inv·d` is one modulo `m`, a product `d·v` vanishes only where `v`
/// does.
proof fn lemma_r_cancel(inv: (int, int), d: (int, int), v: (int, int), m: int)
    requires
        m > 0,
        rvan(rsub(rmul(inv, d), (1int, 0int)), m),
        rvan(rmul(d, v), m),
    ensures
        rvan(v, m),
{
    let one = (1int, 0int);
    // v = ((1 - inv·d) + inv·d)·v, and inv·(d·v) vanishes.
    lemma_rvan_flip(rmul(inv, d), one, m);
    lemma_rvan_product(v, rsub(one, rmul(inv, d)), m);
    lemma_rmul_distributes(v, one, rmul(inv, d));
    lemma_rmul_scales(1, v, v);
    assert(rmul(one, v) == v);
    lemma_rmul_associates(inv, d, v);
    lemma_rvan_product(inv, rmul(d, v), m);
    lemma_rvan_sum(rmul(rsub(one, rmul(inv, d)), v), rmul(rmul(inv, d), v), m);
    assert(radd(rmul(rsub(one, rmul(inv, d)), v), rmul(rmul(inv, d), v)) == v);
}

/// The third point where a line meets the curve, mirrored, is on the
/// curve: where `(x1, y1)` is on the curve and `x2` is a second root of the
/// line with slope `s` through it, so is `(x3, y3)`; all modulo `m`.
proof fn lemma_r_third_point(
    x1: (int, int),
    y1: (int, int),
    x2: (int, int),
    s: (int, int),
    a: int,
    b: int,
    x3: (int, int),
    y3: (int, int),
    m: int,
)
    requires
        m > 0,
        rvan(rsub(rmul(y1, y1), rcubic(x1, a, b)), m),
        rvan(rsecant(x2, x1, y1, s, a), m),
        rvan(rsub(x3, rsub(rsub(rmul(s, s), x1), x2)), m),
        rvan(rsub(y3, rsub(rmul(s, rsub(x1, x3)), y1)), m),
    ensures
        rvan(rsub(rmul(y3, y3), rcubic(x3, a, b)), m),
{
    let ss = rmul(s, s);
    let w = rsub(radd(radd(x3, x2), x1), ss);
    assert(w == rsub(x3, rsub(rsub(ss, x1), x2)));
    // The secant vanishes at x3.
    lemma_r_secant_difference(x3, x2, x1, y1, s, a);
    lemma_rvan_product(rsub(x3, x2), w, m);
    let sec3 = rsecant(x3, x1, y1, s, a);
    let sec2 = rsecant(x2, x1, y1, s, a);
    lemma_rvan_sum(sec2, rsub(sec3, sec2), m);
    assert(radd(sec2, rsub(sec3, sec2)) == sec3);
    // So the cubic and the square of the line agree at x3.
    let l = rline(x3, x1, y1, s);
    let ll = rmul(l, l);
    lemma_rvan_product(rsub(x3, x1), sec3, m);
    lemma_rvan_flip(rmul(y1, y1), rcubic(x1, a, b), m);
    lemma_rvan_sum(rsub(rcubic(x1, a, b), rmul(y1, y1)), rmul(rsub(x3, x1), sec3), m);
    lemma_r_factor_out_root(x3, x1, y1, s, a, b);
    assert(rvan(rsub(rcubic(x3, a, b), ll), m));
    lemma_rvan_flip(rcubic(x3, a, b), ll, m);
    // And y3 is the line at x3, negated.
    let y = rsub(rmul(s, rsub(x1, x3)), y1);
    lemma_r_mirror(x3, x1, y1, s);
    lemma_rcong_product(y3, y, y3, y, m);
    lemma_rvan_chain(rmul(y3, y3), ll, rcubic(x3, a, b), m);
}

/// The chord through two points of the curve meets the curve at the second
/// point: the secant vanishes there, where the difference of the abscissas
/// has an inverse.
proof fn lemma_r_chord_secant(
    x1: (int, int),
    y1: (int, int),
    x2: (int, int),
    y2: (int, int),
    s: (int, int),
    inv: (int, int),
    a: int,
    b: int,
    m: int,
)
    requires
        m > 0,
        rvan(rsub(rmul(y1, y1), rcubic(x1, a, b)), m),
        rvan(rsub(rmul(y2, y2), rcubic(x2, a, b)), m),
        rvan(rsub(rmul(s, rsub(x2, x1)), rsub(y2, y1)), m),
        rvan(rsub(rmul(inv, rsub(x2, x1)), (1int, 0int)), m),
    ensures
        rvan(rsecant(x2, x1, y1, s, a), m),
{
    let d = rsub(x2, x1);
    let l = rline(x2, x1, y1, s);
    let sec = rsecant(x2, x1, y1, s, a);
    // The line passes through the second point.
    assert(rsub(l, y2) == rsub(rmul(s, d), rsub(y2, y1)));
    lemma_rcong_product(l, y2, l, y2, m);
    lemma_rvan_chain(rmul(l, l), rmul(y2, y2), rcubic(x2, a, b), m);
    lemma_rvan_flip(rmul(l, l), rcubic(x2, a, b), m);
    lemma_rvan_sum(
        rsub(rcubic(x2, a, b), rmul(l, l)),
        rsub(rmul(y1, y1), rcubic(x1, a, b)),
        m,
    );
    lemma_r_factor_out_root(x2, x1, y1, s, a, b);
    assert(rmul(d, sec) == radd(
        rsub(rcubic(x2, a, b), rmul(l, l)),
        rsub(rmul(y1, y1), rcubic(x1, a, b)),
    ));
    lemma_r_cancel(inv, d, sec, m);
}

/// The tangent at a point of the curve meets the curve twice there: the
/// secant vanishes at the point itself.
proof fn lemma_r_tangent_secant(x1: (int, int), y1: (int, int), s: (int, int), a: int, m: int)
    requires
        m > 0,
        rvan(
            rsub(rmul(s, rscale(2, y1)), radd(rscale(3, rmul(x1, x1)), (a, 0int))),
            m,
        ),
    ensures
        rvan(rsecant(x1, x1, y1, s, a), m),
{
    lemma_r_tangent(x1, y1, s, a);
    lemma_rvan_flip(rmul(s, rscale(2, y1)), radd(rscale(3, rmul(x1, x1)), (a, 0int)), m);
}

/// The product of residues follows the product of pairs.
proof fn lemma_q_mul(u: (int, int), u2: (int, int), v: (int, int), v2: (int, int), m: int)
    requires
        m > 0,
        rvan(rsub(u, u2), m),
        rvan(rsub(v, v2), m),
    ensures
        rres(quad_mul(u, v, m), m),
        rvan(rsub(quad_mul(u, v, m), rmul(u2, v2)), m),
{
    assert(quad_mul(u, v, m) == rred(rmul(u, v), m));
    lemma_rred_close(rmul(u, v), m);
    lemma_rcong_product(u, u2, v, v2, m);
    lemma_rvan_chain(quad_mul(u, v, m), rmul(u, v), rmul(u2, v2), m);
}

/// The sum of residues follows the sum of pairs.
proof fn lemma_q_add(u: (int, int), u2: (int, int), v: (int, int), v2: (int, int), m: int)
    requires
        m > 0,
        rvan(rsub(u, u2), m),
        rvan(rsub(v, v2), m),
    ensures
        rres(quad_add(u, v, m), m),
        rvan(rsub(quad_add(u, v, m), radd(u2, v2)), m),
{
    assert(quad_add(u, v, m) == rred(radd(u, v), m));
    lemma_rred_close(radd(u, v), m);
    lemma_rcong_sum(u, u2, v, v2, m);
    lemma_rvan_chain(quad_add(u, v, m), radd(u, v), radd(u2, v2), m);
}

/// The difference of residues follows the difference of pairs.
proof fn lemma_q_sub(u: (int, int), u2: (int, int), v: (int, int), v2: (int, int), m: int)
    requires
        m > 0,
        rvan(rsub(u, u2), m),
        rvan(rsub(v, v2), m),
    ensures
        rres(quad_sub(u, v, m), m),
        rvan(rsub(quad_sub(u, v, m), rsub(u2, v2)), m),
{
    assert(quad_sub(u, v, m) == rred(rsub(u, v), m));
    lemma_rred_close(rsub(u, v), m);
    lemma_rcong_sum(u, u2, v, v2, m);
    lemma_rvan_chain(quad_sub(u, v, m), rsub(u, v), rsub(u2, v2), m);
}

/// The multiple of a residue pair follows the multiple of pairs.
proof fn lemma_q_scale(u: (int, int), u2: (int, int), k: int, m: int)
    requires
        m > 0,
        rvan(rsub(u, u2), m),
    ensures
        rres(quad_scale(u, k, m), m),
        rvan(rsub(quad_scale(u, k, m), rscale(k, u2)), m),
{
    assert(u.0 * k == k * u.0 && u.1 * k == k * u.1) by (nonlinear_arith);
    assert(quad_scale(u, k, m) == rred(rscale(k, u), m));
    lemma_rred_close(rscale(k, u), m);
    lemma_rmul_scales(k, u, u);
    lemma_rmul_scales(k, u2, u2);
    lemma_rvan_self((k, 0int), m);
    lemma_rcong_product((k, 0int), (k, 0int), u, u2, m);
    lemma_rvan_chain(quad_scale(u, k, m), rscale(k, u), rscale(k, u2), m);
}

/// The negation of a residue pair follows the negation of pairs.
proof fn lemma_q_neg(u: (int, int), m: int)
    requires
        m > 0,
    ensures
        rres(quad_neg(u, m), m),
        rvan(radd(quad_neg(u, m), u), m),
{
    assert(quad_neg(u, m) == rred(rscale(-1, u), m));
    lemma_rred_close(rscale(-1, u), m);
    assert(rsub(quad_neg(u, m), rscale(-1, u)) == radd(quad_neg(u, m), u));
}

/// Being on the curve, said of pairs: `y² - (x³ + a·x + b)` vanishes
/// modulo `m`.
proof fn lemma_on_curve_ext_means(x: (int, int), y: (int, int), a: int, b: int, m: int)
    requires
        m > 0,
    ensures
        on_curve_ext(Some((x, y)), a, b, m) <==> rvan(rsub(rmul(y, y), rcubic(x, a, b)), m),
{
    let unit = (b, 0int);
    lemma_rvan_self(x, m);
    lemma_rvan_self(y, m);
    lemma_rvan_self(unit, m);
    lemma_q_mul(x, x, x, x, m);
    let square = quad_mul(x, x, m);
    lemma_q_mul(square, rmul(x, x), x, x, m);
    let cube = quad_mul(square, x, m);
    lemma_q_scale(x, x, a, m);
    let linear = quad_scale(x, a, m);
    lemma_q_add(cube, rmul(rmul(x, x), x), linear, rscale(a, x), m);
    let both = quad_add(cube, linear, m);
    lemma_q_add(both, radd(rmul(rmul(x, x), x), rscale(a, x)), unit, unit, m);
    let right = quad_add(both, unit, m);
    lemma_q_mul(y, y, y, y, m);
    let left = quad_mul(y, y, m);
    // left = y² and right = x³ + a·x + b modulo m, and both are residues.
    if left == right {
        lemma_rvan_flip(left, rmul(y, y), m);
        lemma_rvan_chain(rmul(y, y), left, rcubic(x, a, b), m);
    }
    if rvan(rsub(rmul(y, y), rcubic(x, a, b)), m) {
        lemma_rvan_chain(left, rmul(y, y), rcubic(x, a, b), m);
        lemma_rvan_flip(right, rcubic(x, a, b), m);
        lemma_rvan_chain(left, rcubic(x, a, b), right, m);
        lemma_rres_equal(left, right, m);
    }
}

/// In the extension field a nonzero element has a norm with an inverse.
proof fn lemma_ext_unit(z: (int, int), m: int)
    requires
        extension_is_field(m),
        rres(z, m),
        z != (0int, 0int),
    ensures
        invertible(quad_norm(z, m), m),
{
    let a = z.0;
    let b = z.1;
    let e = a * a + 2 * (b * b);
    let norm = quad_norm(z, m);
    if norm == 0 {
        if b == 0 {
            assert(b * b == 0);
            lemma_prime_no_zero_divisors(a, a, m);
            lemma_small_mod(a as nat, m as nat);
        } else {
            lemma_prime_invertible(b, m);
            lemma_inv_mod_is_inverse(b, m);
            lemma_small_mod(1, m as nat);
            let bi = inv_mod(b, m);
            let p = a * bi;
            let q = b * bi;
            let t = p % m;
            let bb = bi * bi;
            // t² + 2 = bi²·(a² + 2·b²) = 0 modulo m: a square root of -2.
            lemma_product_vanishes(bb, e, m);
            assert(p * p == bb * (a * a)) by (nonlinear_arith)
                requires
                    p == a * bi,
                    bb == bi * bi,
            ;
            assert(q * q == bb * (b * b)) by (nonlinear_arith)
                requires
                    q == b * bi,
                    bb == bi * bi,
            ;
            assert(bb * e == bb * (a * a) + 2 * (bb * (b * b))) by (nonlinear_arith)
                requires
                    e == a * a + 2 * (b * b),
            ;
            lemma_congruent_products(q, 1, q, 1, m);
            lemma_congruent_products(2, 2, q * q, 1, m);
            lemma_mod_twice(p, m);
            lemma_congruent_products(t, p, t, p, m);
            lemma_congruent_sums(t * t, p * p, 2, 2 * (q * q), m);
            assert((t * t + 2) % m == 0);
        }
    } else {
        lemma_prime_invertible(norm, m);
    }
}

/// The inverse of an element whose norm has an inverse, times the element,
/// is one modulo `m`.
proof fn lemma_ext_inverse(z: (int, int), m: int)
    requires
        m > 1,
        invertible(quad_norm(z, m), m),
    ensures
        rvan(rsub(rmul(quad_inv(z, m), z), (1int, 0int)), m),
{
    let inv = quad_inv(z, m);
    let one = (1int, 0int);
    lemma_quad_inverse(z, m);
    lemma_small_mod(1, m as nat);
    assert(quad_mul(z, inv, m) == rred(rmul(z, inv), m));
    lemma_rred_close(rmul(z, inv), m);
    lemma_rvan_flip(one, rmul(z, inv), m);
    lemma_rmul_commutes(z, inv);
}

/// A quotient times its denominator gives the numerator back modulo `m`,
/// where the norm of the denominator has an inverse.
proof fn lemma_ext_slope(num: (int, int), den: (int, int), m: int)
    requires
        m > 1,
        invertible(quad_norm(den, m), m),
    ensures
        rvan(rsub(rmul(quad_div(num, den, m), den), num), m),
{
    let inv = quad_inv(den, m);
    let one = (1int, 0int);
    let s = quad_div(num, den, m);
    lemma_ext_inverse(den, m);
    lemma_rvan_self(num, m);
    lemma_rvan_self(den, m);
    lemma_rvan_self(inv, m);
    lemma_q_mul(num, num, inv, inv, m);
    lemma_rcong_product(s, rmul(num, inv), den, den, m);
    lemma_rmul_associates(num, inv, den);
    lemma_rcong_product(num, num, rmul(inv, den), one, m);
    lemma_rmul_scales(1, num, num);
    assert(rmul(num, one) == num);
    lemma_rvan_chain(rmul(s, den), rmul(num, rmul(inv, den)), num, m);
}

/// Infinity, or coordinates whose parts are residues modulo `m`.
pub open spec fn reduced_ext(p: Option<((int, int), (int, int))>, m: int) -> bool {
    match p {
        None => true,
        Some((x, y)) => 0 <= x.0 < m && 0 <= x.1 < m && 0 <= y.0 < m && 0 <= y.1 < m,
    }
}

/// The inverse of the difference of two different residue pairs.
proof fn lemma_ext_inverse_of_difference(u: (int, int), v: (int, int), m: int) -> (inv: (
    int,
    int,
))
    requires
        extension_is_field(m),
        rres(u, m),
        rres(v, m),
        u != v,
    ensures
        invertible(quad_norm(quad_sub(u, v, m), m), m),
        rvan(rsub(rmul(inv, rsub(u, v)), (1int, 0int)), m),
{
    let den = quad_sub(u, v, m);
    let d = rsub(u, v);
    lemma_rvan_self(u, m);
    lemma_rvan_self(v, m);
    lemma_q_sub(u, u, v, v, m);
    if den == (0int, 0int) {
        lemma_rvan_flip(den, d, m);
        lemma_rres_equal(u, v, m);
    }
    lemma_ext_unit(den, m);
    lemma_ext_inverse(den, m);
    let inv = quad_inv(den, m);
    lemma_rvan_self(inv, m);
    lemma_rvan_flip(den, d, m);
    lemma_rcong_product(inv, inv, d, den, m);
    lemma_rvan_chain(rmul(inv, d), rmul(inv, den), (1int, 0int), m);
    inv
}

/// Over the extension field the sum of two points of the curve is a point
/// of the curve.
pub proof fn lemma_sum_on_curve_ext(
    p: Option<((int, int), (int, int))>,
    q: Option<((int, int), (int, int))>,
    a: int,
    b: int,
    m: int,
)
    requires
        extension_is_field(m),
        reduced_ext(p, m),
        reduced_ext(q, m),
        on_curve_ext(p, a, b, m),
        on_curve_ext(q, a, b, m),
    ensures
        reduced_ext(ec_add_ext(p, q, a, m), m),
        on_curve_ext(ec_add_ext(p, q, a, m), a, b, m),
{
    if p is Some && q is Some {
        let (x1, y1) = p->0;
        let (x2, y2) = q->0;
        if !(x1 == x2 && y1 == quad_neg(y2, m)) {
            let unit = (a, 0int);
            lemma_on_curve_ext_means(x1, y1, a, b, m);
            lemma_on_curve_ext_means(x2, y2, a, b, m);
            lemma_rvan_self(x1, m);
            lemma_rvan_self(x2, m);
            lemma_rvan_self(y1, m);
            lemma_rvan_self(y2, m);
            lemma_rvan_self(unit, m);
            let s = if x1 == x2 && y1 == y2 {
                tangent_slope_ext(x1, y1, a, m)
            } else {
                chord_slope_ext(x1, y1, x2, y2, m)
            };
            lemma_rvan_self(s, m);
            if x1 == x2 && y1 == y2 {
                // The tangent: 2·y1 is not zero, or y1 were its own negation.
                let square = quad_mul(x1, x1, m);
                let tripled = quad_scale(square, 3, m);
                let num = quad_add(tripled, unit, m);
                let den = quad_scale(y1, 2, m);
                let goal_num = radd(rscale(3, rmul(x1, x1)), unit);
                let goal_den = rscale(2, y1);
                lemma_q_mul(x1, x1, x1, x1, m);
                lemma_q_scale(square, rmul(x1, x1), 3, m);
                lemma_q_add(tripled, rscale(3, rmul(x1, x1)), unit, unit, m);
                lemma_q_scale(y1, y1, 2, m);
                lemma_rvan_flip(den, goal_den, m);
                if den == (0int, 0int) {
                    lemma_q_neg(y1, m);
                    lemma_rvan_sum(goal_den, radd(quad_neg(y1, m), y1), m);
                    assert(rsub(goal_den, radd(quad_neg(y1, m), y1)) == rsub(
                        y1,
                        quad_neg(y1, m),
                    ));
                    lemma_rres_equal(y1, quad_neg(y1, m), m);
                    assert(false);
                }
                lemma_ext_unit(den, m);
                lemma_ext_slope(num, den, m);
                lemma_rcong_product(s, s, goal_den, den, m);
                lemma_rvan_chain(rmul(s, goal_den), rmul(s, den), num, m);
                lemma_rvan_chain(rmul(s, goal_den), num, goal_num, m);
                lemma_r_tangent_secant(x1, y1, s, a, m);
            } else {
                if x1 == x2 {
                    // Equal squares: y1 is y2 or its negation.
                    lemma_rvan_flip(rmul(y2, y2), rcubic(x1, a, b), m);
                    lemma_rvan_chain(rmul(y1, y1), rcubic(x1, a, b), rmul(y2, y2), m);
                    lemma_r_difference_of_squares(y1, y2);
                    let inv = lemma_ext_inverse_of_difference(y1, y2, m);
                    lemma_r_cancel(inv, rsub(y1, y2), radd(y1, y2), m);
                    lemma_q_neg(y2, m);
                    lemma_rvan_sum(radd(y1, y2), radd(quad_neg(y2, m), y2), m);
                    assert(rsub(radd(y1, y2), radd(quad_neg(y2, m), y2)) == rsub(
                        y1,
                        quad_neg(y2, m),
                    ));
                    lemma_rres_equal(y1, quad_neg(y2, m), m);
                    assert(false);
                }
                let num = quad_sub(y2, y1, m);
                let den = quad_sub(x2, x1, m);
                let d = rsub(x2, x1);
                let inv = lemma_ext_inverse_of_difference(x2, x1, m);
                lemma_q_sub(y2, y2, y1, y1, m);
                lemma_q_sub(x2, x2, x1, x1, m);
                lemma_ext_slope(num, den, m);
                lemma_rvan_flip(den, d, m);
                lemma_rcong_product(s, s, d, den, m);
                lemma_rvan_chain(rmul(s, d), rmul(s, den), num, m);
                lemma_rvan_chain(rmul(s, d), num, rsub(y2, y1), m);
                lemma_r_chord_secant(x1, y1, x2, y2, s, inv, a, b, m);
            }
            // The coordinates of the sum follow the formulas on pairs.
            let ss = quad_mul(s, s, m);
            let less = quad_sub(ss, x1, m);
            let x3 = quad_sub(less, x2, m);
            lemma_q_mul(s, s, s, s, m);
            lemma_q_sub(ss, rmul(s, s), x1, x1, m);
            lemma_q_sub(less, rsub(rmul(s, s), x1), x2, x2, m);
            lemma_rvan_self(x3, m);
            let back = quad_sub(x1, x3, m);
            let rise = quad_mul(s, back, m);
            let y3 = quad_sub(rise, y1, m);
            lemma_q_sub(x1, x1, x3, x3, m);
            lemma_q_mul(s, s, back, rsub(x1, x3), m);
            lemma_q_sub(rise, rmul(s, rsub(x1, x3)), y1, y1, m);
            lemma_r_third_point(x1, y1, x2, s, a, b, x3, y3, m);
            lemma_on_curve_ext_means(x3, y3, a, b, m);
            assert(ec_add_ext(p, q, a, m) == Some((x3, y3)));
        }
    }
}

/// Over the extension field double-and-add stays on the curve.
pub proof fn lemma_multiple_from_on_curve_ext(
    acc: Option<((int, int), (int, int))>,
    base: Option<((int, int), (int, int))>,
    k: nat,
    a: int,
    b: int,
    m: int,
)
    requires
        extension_is_field(m),
        reduced_ext(acc, m),
        reduced_ext(base, m),
        on_curve_ext(acc, a, b, m),
        on_curve_ext(base, a, b, m),
    ensures
        reduced_ext(ec_mul_ext_from(acc, base, k, a, m), m),
        on_curve_ext(ec_mul_ext_from(acc, base, k, a, m), a, b, m),
    decreases k,
{
    if k != 0 {
        lemma_sum_on_curve_ext(acc, base, a, b, m);
        lemma_sum_on_curve_ext(base, base, a, b, m);
        lemma_multiple_from_on_curve_ext(
            if k % 2 == 1 {
                ec_add_ext(acc, base, a, m)
            } else {
                acc
            },
            ec_add_ext(base, base, a, m),
            k / 2,
            a,
            b,
            m,
        );
    }
}

/// Over the extension field every multiple of a point of the curve is a
/// point of the curve.
pub proof fn lemma_multiple_on_curve_ext(
    p: Option<((int, int), (int, int))>,
    k: nat,
    a: int,
    b: int,
    m: int,
)
    requires
        extension_is_field(m),
        reduced_ext(p, m),
        on_curve_ext(p, a, b, m),
    ensures
        reduced_ext(ec_mul_ext(p, k, a, m), m),
        on_curve_ext(ec_mul_ext(p, k, a, m), a, b, m),
{
    lemma_multiple_from_on_curve_ext(None, p, k, a, b, m);
}

} // verus!
