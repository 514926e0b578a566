//! Polynomials over the integers modulo `m` as sequences of coefficients:
//! index `i` holds the coefficient of `x^i`. This is the model that
//! `Polynomial` is specified against.

use crate::modular::{add_mod, inv_mod, invertible, mul_mod, neg_mod, sub_mod};
use vstd::arithmetic::div_mod::{lemma_add_mod_noop_right, lemma_small_mod};
use vstd::prelude::*;

verus! {

/// The coefficient of `x^k`, which is zero outside the sequence.
pub open spec fn coeff(p: Seq<int>, k: int) -> int {
    if 0 <= k < p.len() {
        p[k]
    } else {
        0
    }
}

/// The canonical form of a polynomial modulo `m`: at least one
/// coefficient, each in `[0, m)`, and the last one nonzero unless it is the
/// only one. The zero polynomial is `[0]`.
pub open spec fn canonical(p: Seq<int>, m: int) -> bool {
    &&& p.len() >= 1
    &&& forall|i: int| 0 <= i < p.len() ==> 0 <= #[trigger] p[i] < m
    &&& (p.len() == 1 || p.last() != 0)
}

/// Whether `p` is the zero polynomial in canonical form.
pub open spec fn is_zero(p: Seq<int>) -> bool {
    p.len() == 1 && p[0] == 0
}

/// `p` without its trailing zero coefficients, keeping at least one
/// coefficient; the empty sequence becomes `[0]`.
pub open spec fn trim(p: Seq<int>) -> Seq<int>
    decreases p.len(),
{
    if p.len() == 0 {
        seq![0int]
    } else if p.len() > 1 && p.last() == 0 {
        trim(p.drop_last())
    } else {
        p
    }
}

/// Every coefficient reduced modulo `m`.
pub open spec fn reduce(p: Seq<int>, m: int) -> Seq<int> {
    Seq::new(p.len(), |i: int| p[i] % m)
}

/// Pointwise sum, zero-padded to the longer length, in canonical form.
pub open spec fn poly_add(a: Seq<int>, b: Seq<int>, m: int) -> Seq<int> {
    trim(
        Seq::new(
            if a.len() >= b.len() {
                a.len()
            } else {
                b.len()
            },
            |k: int| add_mod(coeff(a, k), coeff(b, k), m),
        ),
    )
}

/// Pointwise difference, zero-padded to the longer length, in canonical form.
pub open spec fn poly_sub(a: Seq<int>, b: Seq<int>, m: int) -> Seq<int> {
    trim(
        Seq::new(
            if a.len() >= b.len() {
                a.len()
            } else {
                b.len()
            },
            |k: int| sub_mod(coeff(a, k), coeff(b, k), m),
        ),
    )
}

/// Every coefficient multiplied by `c`, in canonical form.
pub open spec fn poly_scale(a: Seq<int>, c: int, m: int) -> Seq<int> {
    trim(Seq::new(a.len(), |k: int| mul_mod(a[k], c, m)))
}

/// The sum of `a[i] * b[k - i]` over `i < n`: the part of the coefficient of
/// `x^k` in the product `a * b` that the first `n` coefficients of `a` give.
pub open spec fn conv_upto(a: Seq<int>, b: Seq<int>, k: int, n: int) -> int
    decreases n,
{
    if n <= 0 {
        0
    } else {
        conv_upto(a, b, k, n - 1) + a[n - 1] * coeff(b, k - (n - 1))
    }
}

/// The coefficient of `x^k` in the product `a * b` over the integers.
pub open spec fn conv(a: Seq<int>, b: Seq<int>, k: int) -> int {
    conv_upto(a, b, k, a.len() as int)
}

/// The product: the convolution of the coefficients, of length
/// `len(a) + len(b) - 1` before it is brought to canonical form.
pub open spec fn poly_mul(a: Seq<int>, b: Seq<int>, m: int) -> Seq<int> {
    trim(Seq::new((a.len() + b.len() - 1) as nat, |k: int| conv(a, b, k) % m))
}

/// Horner's rule on the coefficients from index `i` up:
/// `p[i] + x * (p[i + 1] + x * (...))`.
pub open spec fn horner(p: Seq<int>, x: int, i: int) -> int
    decreases p.len() - i,
{
    if i < 0 || i >= p.len() {
        0
    } else {
        p[i] + x * horner(p, x, i + 1)
    }
}

/// The value of `p` at `x`, modulo `m`.
pub open spec fn poly_eval(p: Seq<int>, x: int, m: int) -> int {
    horner(p, x, 0) % m
}

/// The coefficients of `x^n - 1` before they are brought to canonical form:
/// `1` at `n` less `1` at `0`.
pub open spec fn vanishing_coeffs(n: nat, m: int) -> Seq<int> {
    Seq::new(
        n + 1,
        |k: int|
            sub_mod(
                if k == n {
                    1
                } else {
                    0
                },
                if k == 0 {
                    1
                } else {
                    0
                },
                m,
            ),
    )
}

/// The polynomial `x^n - 1`, which vanishes on every element whose `n`-th
/// power is one.
pub open spec fn vanishing(n: nat, m: int) -> Seq<int> {
    trim(vanishing_coeffs(n, m))
}

/// The polynomial `x - c`.
pub open spec fn linear_factor(c: int, m: int) -> Seq<int> {
    trim(seq![neg_mod(c, m), 1int % m])
}

/// The product of `x - xs[j]` over `j < n`, `j != i`.
pub open spec fn lagrange_numerator(xs: Seq<int>, i: int, n: int, m: int) -> Seq<int>
    decreases n,
{
    if n <= 0 {
        seq![1int % m]
    } else if n - 1 == i {
        lagrange_numerator(xs, i, n - 1, m)
    } else {
        poly_mul(lagrange_numerator(xs, i, n - 1, m), linear_factor(xs[n - 1], m), m)
    }
}

/// The product of `xs[i] - xs[j]` over `j < n`, `j != i`, modulo `m`.
pub open spec fn lagrange_denominator(xs: Seq<int>, i: int, n: int, m: int) -> int
    decreases n,
{
    if n <= 0 {
        1int % m
    } else if n - 1 == i {
        lagrange_denominator(xs, i, n - 1, m)
    } else {
        mul_mod(lagrange_denominator(xs, i, n - 1, m), sub_mod(xs[i], xs[n - 1], m), m)
    }
}

/// Whether the `i`-th basis polynomial exists: its denominator is nonzero
/// and has an inverse.
pub open spec fn lagrange_term_defined(xs: Seq<int>, i: int, m: int) -> bool {
    let den = lagrange_denominator(xs, i, xs.len() as int, m);
    den != 0 && invertible(den, m)
}

/// `ys[i]` times the `i`-th basis polynomial: the polynomial that is
/// `ys[i]` at `xs[i]` and zero at every other `xs[j]`.
pub open spec fn lagrange_term(xs: Seq<int>, ys: Seq<int>, i: int, m: int) -> Seq<int> {
    poly_scale(
        poly_scale(
            lagrange_numerator(xs, i, xs.len() as int, m),
            inv_mod(lagrange_denominator(xs, i, xs.len() as int, m), m),
            m,
        ),
        ys[i],
        m,
    )
}

/// The sum of the first `n` terms of the Lagrange interpolation formula.
pub open spec fn lagrange_sum(xs: Seq<int>, ys: Seq<int>, n: int, m: int) -> Seq<int>
    decreases n,
{
    if n <= 0 {
        seq![0int]
    } else {
        poly_add(lagrange_sum(xs, ys, n - 1, m), lagrange_term(xs, ys, n - 1, m), m)
    }
}

/// A denominator with a repeated abscissa among its factors is zero.
pub proof fn lemma_repeated_abscissa(xs: Seq<int>, i: int, j: int, n: int, m: int)
    requires
        m > 0,
        0 <= j < n <= xs.len(),
        0 <= i < xs.len(),
        i != j,
        xs[i] == xs[j],
    ensures
        lagrange_denominator(xs, i, n, m) == 0,
    decreases n,
{
    let before = lagrange_denominator(xs, i, n - 1, m);
    if n - 1 == j {
        assert(sub_mod(xs[i], xs[j], m) == 0) by {
            lemma_small_mod(0, m as nat);
        }
        assert(before * 0 == 0);
        lemma_small_mod(0, m as nat);
    } else {
        lemma_repeated_abscissa(xs, i, j, n - 1, m);
        if n - 1 != i {
            assert(0 * sub_mod(xs[i], xs[n - 1], m) == 0);
            lemma_small_mod(0, m as nat);
        }
    }
}

/// The quotient of `p` by `x - z`: the coefficient of `x^i` is Horner's
/// rule on the coefficients of `p` from index `i + 1` up.
pub open spec fn linear_quotient(p: Seq<int>, z: int, m: int) -> Seq<int> {
    trim(Seq::new((p.len() - 1) as nat, |i: int| horner(p, z, i + 1) % m))
}

/// Trimming changes no coefficient.
pub proof fn lemma_trim_coeff(p: Seq<int>, k: int)
    ensures
        coeff(trim(p), k) == coeff(p, k),
    decreases p.len(),
{
    if p.len() > 1 && p.last() == 0 {
        lemma_trim_coeff(p.drop_last(), k);
    }
}

/// Trimming never lengthens, and leaves at least one coefficient.
pub proof fn lemma_trim_len(p: Seq<int>)
    ensures
        1 <= trim(p).len(),
        trim(p).len() <= p.len() || p.len() == 0,
    decreases p.len(),
{
    if p.len() > 1 && p.last() == 0 {
        lemma_trim_len(p.drop_last());
    }
}

/// Trimming a sequence of residues gives a canonical polynomial.
pub proof fn lemma_trim_canonical(p: Seq<int>, m: int)
    requires
        m > 0,
        forall|i: int| 0 <= i < p.len() ==> 0 <= #[trigger] p[i] < m,
    ensures
        canonical(trim(p), m),
    decreases p.len(),
{
    if p.len() > 1 && p.last() == 0 {
        lemma_trim_canonical(p.drop_last(), m);
    }
}

/// Two canonical polynomials with the same coefficients are equal.
pub proof fn lemma_canonical_unique(p: Seq<int>, q: Seq<int>, m: int)
    requires
        canonical(p, m),
        canonical(q, m),
        forall|k: int| 0 <= k ==> coeff(p, k) == coeff(q, k),
    ensures
        p == q,
{
    if p.len() > q.len() {
        assert(coeff(p, p.len() - 1) == coeff(q, p.len() - 1));
    }
    if q.len() > p.len() {
        assert(coeff(p, q.len() - 1) == coeff(q, q.len() - 1));
    }
    assert forall|i: int| 0 <= i < p.len() implies p[i] == q[i] by {
        assert(coeff(p, i) == coeff(q, i));
    }
    assert(p =~= q);
}

/// A sequence of residues that agrees in every coefficient with a canonical
/// polynomial trims to that polynomial.
pub proof fn lemma_trim_unique(s: Seq<int>, p: Seq<int>, m: int)
    requires
        m > 0,
        canonical(p, m),
        forall|i: int| 0 <= i < s.len() ==> 0 <= #[trigger] s[i] < m,
        forall|k: int| 0 <= k ==> coeff(s, k) == coeff(p, k),
    ensures
        trim(s) == p,
{
    lemma_trim_canonical(s, m);
    assert forall|k: int| 0 <= k implies coeff(trim(s), k) == coeff(p, k) by {
        lemma_trim_coeff(s, k);
    }
    lemma_canonical_unique(trim(s), p, m);
}

/// The partial convolution reads only the first `n` coefficients of `a`.
pub proof fn lemma_conv_upto_prefix(a: Seq<int>, a2: Seq<int>, b: Seq<int>, k: int, n: int)
    requires
        n <= a.len(),
        n <= a2.len(),
        forall|i: int| 0 <= i < n ==> a[i] == a2[i],
    ensures
        conv_upto(a, b, k, n) == conv_upto(a2, b, k, n),
    decreases n,
{
    if n > 0 {
        lemma_conv_upto_prefix(a, a2, b, k, n - 1);
    }
}

/// Trailing zero coefficients of the first factor add nothing to a product.
pub proof fn lemma_conv_trim(a: Seq<int>, b: Seq<int>, k: int)
    ensures
        conv(trim(a), b, k) == conv(a, b, k),
    decreases a.len(),
{
    if a.len() == 0 {
        assert(conv_upto(seq![0int], b, k, 0) == 0);
        assert(conv(seq![0int], b, k) == 0 + 0 * coeff(b, k - 0));
    } else if a.len() > 1 && a.last() == 0 {
        lemma_conv_trim(a.drop_last(), b, k);
        lemma_conv_upto_prefix(a, a.drop_last(), b, k, a.len() - 1);
        assert(a[a.len() - 1] * coeff(b, k - (a.len() - 1)) == 0);
    }
}

/// A product has no coefficient past the sum of the degrees.
pub proof fn lemma_conv_beyond(a: Seq<int>, b: Seq<int>, k: int, n: int)
    requires
        0 <= n <= a.len(),
        k >= a.len() + b.len() - 1,
    ensures
        conv_upto(a, b, k, n) == 0,
    decreases n,
{
    if n > 0 {
        lemma_conv_beyond(a, b, k, n - 1);
        assert(coeff(b, k - (n - 1)) == 0);
        assert(a[n - 1] * coeff(b, k - (n - 1)) == 0);
    }
}

/// A first factor of zeros gives a zero product.
pub proof fn lemma_conv_all_zero(a: Seq<int>, b: Seq<int>, k: int, n: int)
    requires
        0 <= n <= a.len(),
        forall|i: int| 0 <= i < n ==> a[i] == 0,
    ensures
        conv_upto(a, b, k, n) == 0,
    decreases n,
{
    if n > 0 {
        lemma_conv_all_zero(a, b, k, n - 1);
        assert(a[n - 1] * coeff(b, k - (n - 1)) == 0);
    }
}

/// Putting `v` where the first factor held a zero adds `v * b[k - t]` to the
/// coefficient of `x^k` in the product.
pub proof fn lemma_conv_update(a: Seq<int>, b: Seq<int>, k: int, t: int, v: int, n: int)
    requires
        0 <= t < a.len(),
        a[t] == 0,
        0 <= n <= a.len(),
    ensures
        conv_upto(a.update(t, v), b, k, n) == conv_upto(a, b, k, n) + if t < n {
            v * coeff(b, k - t)
        } else {
            0
        },
    decreases n,
{
    if n > 0 {
        lemma_conv_update(a, b, k, t, v, n - 1);
        if t == n - 1 {
            assert(a[t] * coeff(b, k - t) == 0);
        }
    }
}

/// Multiplying by a constant polynomial multiplies each coefficient.
pub proof fn lemma_conv_constant(a: Seq<int>, c: int, k: int, n: int)
    requires
        0 <= n <= a.len(),
        0 <= k,
    ensures
        conv_upto(a, seq![c], k, n) == if k < n {
            a[k] * c
        } else {
            0
        },
    decreases n,
{
    if n > 0 {
        lemma_conv_constant(a, c, k, n - 1);
        if k != n - 1 {
            assert(coeff(seq![c], k - (n - 1)) == 0);
            assert(a[n - 1] * coeff(seq![c], k - (n - 1)) == 0);
        }
    }
}

/// From an identity of coefficients to the identity of polynomials: where
/// `q * d + r` agrees with the canonical `p` in every coefficient modulo
/// `m`, the canonical forms of `q` and `r` satisfy `p == q * d + r`.
pub proof fn lemma_division_identity(p: Seq<int>, q: Seq<int>, d: Seq<int>, r: Seq<int>, m: int)
    requires
        m > 0,
        canonical(p, m),
        d.len() >= 1,
        forall|i: int| 0 <= i < r.len() ==> 0 <= #[trigger] r[i] < m,
        forall|k: int| 0 <= k ==> (#[trigger] conv(q, d, k) + coeff(r, k)) % m == coeff(p, k),
    ensures
        p == poly_add(poly_mul(trim(q), d, m), trim(r), m),
{
    let tq = trim(q);
    let tr = trim(r);
    let raw_product = Seq::new((tq.len() + d.len() - 1) as nat, |k: int| conv(tq, d, k) % m);
    let product = trim(raw_product);
    lemma_trim_len(q);
    assert forall|k: int| 0 <= k implies coeff(product, k) == #[trigger] conv(q, d, k) % m by {
        lemma_trim_coeff(raw_product, k);
        lemma_conv_trim(q, d, k);
        if k >= raw_product.len() {
            lemma_conv_beyond(tq, d, k, tq.len() as int);
            lemma_small_mod(0, m as nat);
        }
    }
    let len = if product.len() >= tr.len() {
        product.len()
    } else {
        tr.len()
    };
    let sum = Seq::new(len, |k: int| add_mod(coeff(product, k), coeff(tr, k), m));
    assert forall|k: int| 0 <= k implies coeff(sum, k) == coeff(p, k) by {
        lemma_trim_coeff(r, k);
        assert(coeff(product, k) == conv(q, d, k) % m);
        assert((conv(q, d, k) + coeff(r, k)) % m == coeff(p, k));
        lemma_add_mod_noop_right(coeff(r, k), conv(q, d, k), m);
        if k >= len {
            assert(coeff(product, k) == 0);
            assert(coeff(tr, k) == 0);
            lemma_small_mod(0, m as nat);
            lemma_add_mod_noop_right(0, conv(q, d, k), m);
        }
    }
    lemma_trim_unique(sum, p, m);
}

} // verus!
