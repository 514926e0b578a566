//! Arithmetic modulo `m` on mathematical integers: the model that the field
//! types are specified against, and the facts about it that the rest of the
//! crate relies on.

use crate::gcd::{bezout, gcd, lemma_bezout_gcd, lemma_bezout_identity, lemma_gcd_divides};
use vstd::arithmetic::div_mod::{
    lemma_add_mod_noop, lemma_add_mod_noop_right, lemma_fundamental_div_mod,
    lemma_fundamental_div_mod_converse, lemma_mod_multiples_basic, lemma_mod_multiples_vanish,
    lemma_mod_twice, lemma_mul_mod_noop_general, lemma_small_mod, lemma_sub_mod_noop,
};
use vstd::arithmetic::power::{
    lemma_pow0, lemma_pow1, lemma_pow_adds, lemma_pow_mod_noop, lemma_pow_multiplies, pow,
};
use vstd::prelude::*;

verus! {

/// `(a + b) mod m`.
pub open spec fn add_mod(a: int, b: int, m: int) -> int {
    (a + b) % m
}

/// `(a - b) mod m`, in `[0, m)`.
pub open spec fn sub_mod(a: int, b: int, m: int) -> int {
    (a - b) % m
}

/// `(a * b) mod m`.
pub open spec fn mul_mod(a: int, b: int, m: int) -> int {
    (a * b) % m
}

/// `(-a) mod m`, in `[0, m)`.
pub open spec fn neg_mod(a: int, m: int) -> int {
    (-a) % m
}

/// `a^e mod m`; `pow_mod(a, 0, m)` is `1 mod m` for every `a`.
pub open spec fn pow_mod(a: int, e: nat, m: int) -> int {
    pow(a, e) % m
}

/// Whether `a` has a multiplicative inverse modulo `m`.
pub open spec fn invertible(a: int, m: int) -> bool {
    gcd(a as nat, m as nat) == 1
}

/// The inverse of `a` modulo `m` where one exists, and `0` where none does.
pub open spec fn inv_mod(a: int, m: int) -> int {
    if invertible(a, m) {
        bezout(a, m).0 % m
    } else {
        0
    }
}

/// `a / b mod m`: `a` times the inverse of `b`, so `0` where `b` has none.
pub open spec fn div_mod(a: int, b: int, m: int) -> int {
    mul_mod(a, inv_mod(b, m), m)
}

/// The remainder of a negated number.
pub proof fn lemma_mod_of_negation(x: int, m: int)
    requires
        m > 0,
    ensures
        (-x) % m == if x % m == 0 {
            0
        } else {
            m - x % m
        },
{
    lemma_fundamental_div_mod(x, m);
    let q = x / m;
    let r = x % m;
    if r == 0 {
        assert(-x == (-q) * m + 0) by (nonlinear_arith)
            requires
                x == m * q + r,
                r == 0,
        ;
        lemma_fundamental_div_mod_converse(-x, m, -q, 0);
    } else {
        assert(-x == (-q - 1) * m + (m - r)) by (nonlinear_arith)
            requires
                x == m * q + r,
        ;
        lemma_fundamental_div_mod_converse(-x, m, -q - 1, m - r);
    }
}

/// An element plus its negation is zero.
pub proof fn lemma_add_neg_cancels(a: int, m: int)
    requires
        m > 0,
    ensures
        add_mod(a, neg_mod(a, m), m) == 0,
{
    lemma_add_mod_noop_right(a, -a, m);
    assert((a + (-a) % m) % m == (a + (-a)) % m);
    assert(0int % m == 0) by {
        lemma_small_mod(0, m as nat);
    }
}

/// Where `a` and `m` are coprime, `inv_mod(a, m)` is the inverse of `a`:
/// their product is `1 mod m`.
pub proof fn lemma_inv_mod_is_inverse(a: int, m: int)
    requires
        0 <= a,
        0 < m,
        invertible(a, m),
    ensures
        0 <= inv_mod(a, m) < m,
        mul_mod(a, inv_mod(a, m), m) == 1int % m,
{
    lemma_bezout_identity(a, m);
    lemma_bezout_gcd(a, m);
    let s = bezout(a, m).0;
    let t = bezout(a, m).1;
    assert(s * a + t * m == 1);
    lemma_mul_mod_noop_general(a, s, m);
    assert((a * (s % m)) % m == (a * s) % m);
    assert(a * s == 1 + (-t) * m) by (nonlinear_arith)
        requires
            s * a + t * m == 1,
    ;
    lemma_mod_multiples_vanish(-t, 1, m);
}

/// Anything to the power zero is one.
pub proof fn lemma_pow_mod_zero(a: int, m: int)
    ensures
        pow_mod(a, 0, m) == 1int % m,
{
    lemma_pow0(a);
}

/// Anything to the power one is itself.
pub proof fn lemma_pow_mod_one(a: int, m: int)
    ensures
        pow_mod(a, 1, m) == a % m,
{
    lemma_pow1(a);
}

/// Squaring a power doubles its exponent.
pub proof fn lemma_pow_mod_double(a: int, e: nat, m: int)
    requires
        m > 0,
    ensures
        mul_mod(pow_mod(a, e, m), pow_mod(a, e, m), m) == pow_mod(a, 2 * e, m),
{
    lemma_pow_adds(a, e, e);
    lemma_mul_mod_noop_general(pow(a, e), pow(a, e), m);
}

/// Multiplying a power by its base raises the exponent by one.
pub proof fn lemma_pow_mod_succ(a: int, e: nat, m: int)
    requires
        m > 0,
    ensures
        mul_mod(pow_mod(a, e, m), a, m) == pow_mod(a, e + 1, m),
{
    lemma_pow_adds(a, e, 1);
    lemma_pow1(a);
    lemma_mul_mod_noop_general(pow(a, e), a, m);
}

/// One step of Horner's rule on residues is one step on the integers.
pub proof fn lemma_horner_step(h: int, x: int, c: int, m: int)
    requires
        m > 0,
    ensures
        add_mod(mul_mod(h % m, x, m), c, m) == (c + x * h) % m,
{
    lemma_mul_mod_noop_general(h, x, m);
    lemma_add_mod_noop_right(c, h * x, m);
    assert(h * x == x * h) by (nonlinear_arith);
}

/// Adding `term * c` to one side and taking `c * term` from the other
/// leaves a sum unchanged modulo `m`.
pub proof fn lemma_elimination_step(acc: int, dv: int, c: int, term: int, m: int)
    requires
        m > 0,
    ensures
        (acc + term * c + sub_mod(dv, mul_mod(c, term, m), m)) % m == (acc + dv) % m,
{
    let w = mul_mod(c, term, m);
    let s = sub_mod(dv, w, m);
    lemma_fundamental_div_mod(c * term, m);
    lemma_fundamental_div_mod(dv - w, m);
    let a1 = (c * term) / m;
    let a2 = (dv - w) / m;
    assert(acc + term * c + s == m * (a1 - a2) + (acc + dv)) by (nonlinear_arith)
        requires
            c * term == m * a1 + w,
            dv - w == m * a2 + s,
    ;
    lemma_mod_multiples_vanish(a1 - a2, acc + dv, m);
}

/// Taking `lead` times `x / lead` from `x` leaves nothing, where `inv` is
/// the inverse of `lead`.
pub proof fn lemma_lead_cancels(x: int, lead: int, inv: int, m: int)
    requires
        m > 0,
        mul_mod(lead, inv, m) == 1int % m,
    ensures
        sub_mod(x, mul_mod(lead, mul_mod(x, inv, m), m), m) == 0,
{
    let t = mul_mod(x, inv, m);
    let w = mul_mod(lead, t, m);
    let u = mul_mod(lead, inv, m);
    if m == 1 {
        assert((x - w) % 1 == 0);
    } else {
        lemma_small_mod(1, m as nat);
        lemma_fundamental_div_mod(x * inv, m);
        lemma_fundamental_div_mod(lead * t, m);
        lemma_fundamental_div_mod(lead * inv, m);
        let a1 = (x * inv) / m;
        let a2 = (lead * t) / m;
        let a3 = (lead * inv) / m;
        let k = lead * a1 + a2 - x * a3;
        assert(x - w == m * k) by (nonlinear_arith)
            requires
                x * inv == m * a1 + t,
                lead * t == m * a2 + w,
                lead * inv == m * a3 + 1,
                k == lead * a1 + a2 - x * a3,
        ;
        lemma_mod_multiples_vanish(k, 0, m);
        lemma_small_mod(0, m as nat);
    }
}

/// Dividing by `c` and multiplying by `c` again gives the residue back,
/// where `inv` is the inverse of `c`.
pub proof fn lemma_divide_then_multiply(x: int, c: int, inv: int, m: int)
    requires
        m > 0,
        mul_mod(c, inv, m) == 1int % m,
    ensures
        mul_mod(mul_mod(x, inv, m), c, m) == x % m,
{
    let t = mul_mod(x, inv, m);
    if m == 1 {
        assert((t * c) % 1 == x % 1);
    } else {
        lemma_small_mod(1, m as nat);
        lemma_fundamental_div_mod(x * inv, m);
        lemma_fundamental_div_mod(c * inv, m);
        let a1 = (x * inv) / m;
        let a3 = (c * inv) / m;
        let k = x * a3 - c * a1;
        assert(t * c == m * k + x) by (nonlinear_arith)
            requires
                x * inv == m * a1 + t,
                c * inv == m * a3 + 1,
                k == x * a3 - c * a1,
        ;
        lemma_mod_multiples_vanish(k, x, m);
    }
}

/// A difference is the same modulo `m` when its first term is reduced.
pub proof fn lemma_sub_mod_left(x: int, y: int, m: int)
    requires
        m > 0,
    ensures
        sub_mod(x % m, y, m) == (x - y) % m,
{
    lemma_fundamental_div_mod(x, m);
    lemma_mod_multiples_vanish(-(x / m), x - y, m);
    assert(x % m - y == m * (-(x / m)) + (x - y)) by (nonlinear_arith)
        requires
            x == m * (x / m) + x % m,
    ;
}

/// The second and third powers written out.
pub proof fn lemma_pow_small(x: int)
    ensures
        pow(x, 2) == x * x,
        pow(x, 3) == x * x * x,
{
    reveal_with_fuel(pow, 4);
    assert(pow(x, 2) == x * (x * 1));
    assert(pow(x, 3) == x * (x * (x * 1)));
    assert(x * (x * 1) == x * x) by (nonlinear_arith);
    assert(x * (x * (x * 1)) == x * x * x) by (nonlinear_arith);
}

/// One step of square-and-multiply from the least significant bit: the
/// product of the accumulator with the remaining power is unchanged when
/// the base is squared, the exponent halved, and the accumulator takes up
/// the base for an odd exponent.
pub proof fn lemma_pow_mod_halve(acc: int, base: int, e: nat, m: int)
    requires
        m > 0,
        e > 0,
    ensures
        mul_mod(acc, pow_mod(base, e, m), m) == mul_mod(
            if e % 2 == 1 {
                mul_mod(acc, base, m)
            } else {
                acc
            },
            pow_mod(mul_mod(base, base, m), e / 2, m),
            m,
        ),
{
    let h = e / 2;
    let sq = base * base;
    lemma_pow_small(base);
    lemma_pow_multiplies(base, 2, h);
    lemma_pow_mod_noop(sq, h, m);
    // pow(base, 2 * h) == pow(sq, h), and reducing sq first changes nothing.
    assert(pow_mod(mul_mod(base, base, m), h, m) == pow(base, 2 * h) % m);
    let p = pow(base, 2 * h);
    if e % 2 == 1 {
        lemma_pow_adds(base, 2 * h, 1);
        lemma_pow1(base);
        assert(pow(base, e) == p * base);
        lemma_mul_mod_noop_general(acc, p * base, m);
        lemma_mul_mod_noop_general(acc * base, p, m);
        assert(acc * (p * base) == (acc * base) * p) by (nonlinear_arith);
    } else {
        assert(e == 2 * h);
        lemma_mul_mod_noop_general(acc, p, m);
    }
}

/// Whether `m` is a prime number.
pub open spec fn is_prime(m: int) -> bool {
    m >= 2 && forall|d: int| 1 < d < m ==> #[trigger] (m % d) != 0
}

/// No number strictly between 1 and 101 divides 101.
proof fn lemma_no_divisor_of_101(d: int)
    by (nonlinear_arith)
    requires
        1 < d < 101,
    ensures
        101int % d != 0,
{
}

/// 101 is a prime number.
pub proof fn lemma_101_is_prime()
    ensures
        is_prime(101),
{
    assert forall|d: int| 1 < d < 101 implies #[trigger] (101int % d) != 0 by {
        lemma_no_divisor_of_101(d);
    }
}

/// Whether the quadratic extension modulo `m` is a field: `m` is prime and
/// `-2` is no square modulo `m`.
pub open spec fn extension_is_field(m: int) -> bool {
    is_prime(m) && forall|t: int| 0 <= t < m ==> #[trigger] ((t * t + 2) % m) != 0
}

/// No square of a residue modulo 101 is `-2`.
proof fn lemma_no_root_modulo_101(t: int)
    by (nonlinear_arith)
    requires
        0 <= t < 101,
    ensures
        (t * t + 2) % 101 != 0,
{
}

/// The quadratic extension modulo 101 is a field.
pub proof fn lemma_extension_of_101_is_field()
    ensures
        extension_is_field(101),
{
    lemma_101_is_prime();
    assert forall|t: int| 0 <= t < 101 implies #[trigger] ((t * t + 2) % 101) != 0 by {
        lemma_no_root_modulo_101(t);
    }
}

/// A multiple of `m` leaves no remainder.
pub proof fn lemma_multiple_vanishes(x: int, k: int, m: int)
    requires
        m > 0,
        x == m * k,
    ensures
        x % m == 0,
{
    lemma_mod_multiples_vanish(k, 0, m);
    lemma_small_mod(0, m as nat);
}

/// Modulo a prime every nonzero residue has an inverse.
pub proof fn lemma_prime_invertible(a: int, m: int)
    requires
        is_prime(m),
        0 < a < m,
    ensures
        invertible(a, m),
{
    let g = gcd(a as nat, m as nat) as int;
    lemma_gcd_divides(a as nat, m as nat);
    let ka = choose|k: int| a == #[trigger] (k * g);
    let km = choose|k: int| m == #[trigger] (k * g);
    assert(g != 0) by (nonlinear_arith)
        requires
            m == km * g,
            m > 0,
    ;
    assert(g <= m && km >= 1) by (nonlinear_arith)
        requires
            m == km * g,
            m > 0,
            g > 0,
    ;
    if g == m {
        assert(false) by (nonlinear_arith)
            requires
                a == ka * g,
                g == m,
                0 < a < m,
        ;
    }
    if 1 < g < m {
        lemma_mod_multiples_basic(km, g);
        assert(m % g == 0);
    }
}

/// Modulo a prime a product vanishes only where a factor does.
pub proof fn lemma_prime_no_zero_divisors(u: int, v: int, m: int)
    requires
        is_prime(m),
        (u * v) % m == 0,
    ensures
        u % m == 0 || v % m == 0,
{
    let a = u % m;
    if a != 0 {
        lemma_prime_invertible(a, m);
        lemma_inv_mod_is_inverse(a, m);
        let inv = inv_mod(a, m);
        lemma_small_mod(1, m as nat);
        // v = v * (a * inv) = (v * u) * inv = 0, all modulo m.
        lemma_mul_mod_noop_general(v, a * inv, m);
        assert(v * 1 == v);
        assert((v * (a * inv)) % m == v % m);
        assert(v * (a * inv) == (v * a) * inv) by (nonlinear_arith);
        lemma_mul_mod_noop_general(v * a, inv, m);
        lemma_mul_mod_noop_general(v, u, m);
        assert(v * u == u * v) by (nonlinear_arith);
        assert((v * a) % m == 0);
        assert(0 * inv == 0);
        lemma_small_mod(0, m as nat);
    }
}

/// A quotient times its denominator gives the numerator back, where the
/// denominator has an inverse.
pub proof fn lemma_div_mod_cancels(num: int, den: int, m: int)
    requires
        m > 0,
        0 <= den,
        invertible(den, m),
    ensures
        mul_mod(div_mod(num, den, m), den, m) == num % m,
{
    lemma_inv_mod_is_inverse(den, m);
    lemma_divide_then_multiply(num, den, inv_mod(den, m), m);
}

/// Sum in the quadratic extension: a pair `(a, b)` stands for `a + b·u`,
/// where `u² = -2`.
pub open spec fn quad_add(x: (int, int), y: (int, int), m: int) -> (int, int) {
    (add_mod(x.0, y.0, m), add_mod(x.1, y.1, m))
}

/// Difference in the quadratic extension.
pub open spec fn quad_sub(x: (int, int), y: (int, int), m: int) -> (int, int) {
    (sub_mod(x.0, y.0, m), sub_mod(x.1, y.1, m))
}

/// Negation in the quadratic extension.
pub open spec fn quad_neg(x: (int, int), m: int) -> (int, int) {
    (neg_mod(x.0, m), neg_mod(x.1, m))
}

/// Product in the quadratic extension:
/// `(a + b·u)(c + d·u) = (ac - 2bd) + (ad + bc)·u`.
pub open spec fn quad_mul(x: (int, int), y: (int, int), m: int) -> (int, int) {
    ((x.0 * y.0 - 2 * (x.1 * y.1)) % m, (x.0 * y.1 + x.1 * y.0) % m)
}

/// Product of an extension element with an element of the base field.
pub open spec fn quad_scale(x: (int, int), k: int, m: int) -> (int, int) {
    (mul_mod(x.0, k, m), mul_mod(x.1, k, m))
}

/// The norm `(a + b·u)(a - b·u) = a² + 2b²`, an element of the base field.
pub open spec fn quad_norm(x: (int, int), m: int) -> int {
    (x.0 * x.0 + 2 * (x.1 * x.1)) % m
}

/// The inverse in the quadratic extension: the conjugate over the norm, so
/// zero where the norm has no inverse.
pub open spec fn quad_inv(x: (int, int), m: int) -> (int, int) {
    let n = inv_mod(quad_norm(x, m), m);
    (mul_mod(x.0, n, m), mul_mod(neg_mod(x.1, m), n, m))
}

/// Quotient in the quadratic extension: `x` times the inverse of `y`.
pub open spec fn quad_div(x: (int, int), y: (int, int), m: int) -> (int, int) {
    quad_mul(x, quad_inv(y, m), m)
}

/// Congruent factors give congruent products.
pub proof fn lemma_congruent_products(x1: int, y1: int, x2: int, y2: int, m: int)
    requires
        m > 0,
        x1 % m == y1 % m,
        x2 % m == y2 % m,
    ensures
        (x1 * x2) % m == (y1 * y2) % m,
{
    lemma_mul_mod_noop_general(x1, x2, m);
    lemma_mul_mod_noop_general(y1, y2, m);
}

/// Congruent terms give congruent differences.
pub proof fn lemma_congruent_differences(x1: int, y1: int, x2: int, y2: int, m: int)
    requires
        m > 0,
        x1 % m == y1 % m,
        x2 % m == y2 % m,
    ensures
        (x1 - x2) % m == (y1 - y2) % m,
{
    lemma_sub_mod_noop(x1, x2, m);
    lemma_sub_mod_noop(y1, y2, m);
}

/// Congruent terms give congruent sums.
pub proof fn lemma_congruent_sums(x1: int, y1: int, x2: int, y2: int, m: int)
    requires
        m > 0,
        x1 % m == y1 % m,
        x2 % m == y2 % m,
    ensures
        (x1 + x2) % m == (y1 + y2) % m,
{
    lemma_add_mod_noop(x1, x2, m);
    lemma_add_mod_noop(y1, y2, m);
}

/// An element of the quadratic extension whose norm has an inverse, times
/// its inverse, is one.
pub proof fn lemma_quad_inverse(x: (int, int), m: int)
    requires
        m > 0,
        invertible(quad_norm(x, m), m),
    ensures
        quad_mul(x, quad_inv(x, m), m) == (1int % m, 0int),
{
    let a = x.0;
    let b = x.1;
    let norm = quad_norm(x, m);
    let n = inv_mod(norm, m);
    let i0 = mul_mod(a, n, m);
    let i1 = mul_mod(neg_mod(b, m), n, m);
    lemma_inv_mod_is_inverse(norm, m);
    lemma_mod_twice(a * n, m);
    lemma_mod_twice(-b, m);
    lemma_mod_twice(neg_mod(b, m) * n, m);
    lemma_mod_twice(a * a + 2 * (b * b), m);
    // i0 = a·n and i1 = -b·n, modulo m.
    lemma_congruent_products(neg_mod(b, m), -b, n, n, m);
    assert(i1 % m == ((-b) * n) % m);
    // The part in the base field: a·i0 - 2·b·i1 = n·(a² + 2b²) = 1.
    lemma_congruent_products(a, a, i0, a * n, m);
    lemma_congruent_products(b, b, i1, (-b) * n, m);
    lemma_congruent_products(2, 2, b * i1, b * ((-b) * n), m);
    lemma_congruent_differences(a * i0, a * (a * n), 2 * (b * i1), 2 * (b * ((-b) * n)), m);
    assert(a * (a * n) - 2 * (b * ((-b) * n)) == (a * a + 2 * (b * b)) * n) by (nonlinear_arith);
    lemma_congruent_products(a * a + 2 * (b * b), norm, n, n, m);
    // The coefficient of u: a·i1 + b·i0 = 0.
    lemma_congruent_products(a, a, i1, (-b) * n, m);
    lemma_congruent_products(b, b, i0, a * n, m);
    lemma_congruent_sums(a * i1, a * ((-b) * n), b * i0, b * (a * n), m);
    assert(a * ((-b) * n) + b * (a * n) == 0) by (nonlinear_arith);
    lemma_small_mod(0, m as nat);
}

} // verus!
