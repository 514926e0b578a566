//! Greatest common divisors and the extended Euclidean algorithm.

use vstd::arithmetic::div_mod::lemma_fundamental_div_mod;
use vstd::prelude::*;

verus! {

/// The greatest common divisor of `a` and `b`, by Euclid's recurrence.
/// `gcd(a, 0) == a`, so `gcd(0, 0) == 0`.
pub open spec fn gcd(a: nat, b: nat) -> nat
    decreases b,
{
    if b == 0 {
        a
    } else {
        gcd(b, a % b)
    }
}

/// The absolute value.
pub open spec fn abs(x: int) -> nat {
    if x >= 0 {
        x as nat
    } else {
        (-x) as nat
    }
}

/// The quotient rounded towards zero, as the division of machine integers
/// rounds it.
pub open spec fn trunc_div(x: int, y: int) -> int {
    if x >= 0 {
        x / y
    } else {
        -((-x) / y)
    }
}

/// `x`, negated where `negative` holds.
pub open spec fn signed(negative: bool, x: int) -> int {
    if negative {
        -x
    } else {
        x
    }
}

/// `d` divides `n`.
pub open spec fn divides(d: int, n: int) -> bool {
    exists|k: int| n == #[trigger] (k * d)
}

/// The triple `(s, t, g)` of the extended Euclidean recurrence on `(a, b)`,
/// with quotients rounded towards zero: `s * a + t * b == g`, and `g` is
/// the greatest common divisor of `a` and `b` up to its sign.
pub open spec fn bezout(a: int, b: int) -> (int, int, int)
    decreases abs(b),
{
    if b == 0 {
        (1, 0, a)
    } else {
        let q = trunc_div(a, b);
        proof {
            lemma_trunc_div(a, b);
        }
        let sub = bezout(b, a - q * b);
        (sub.1, sub.0 - q * sub.1, sub.2)
    }
}

/// Negating the divisor negates the quotient.
proof fn lemma_div_by_negative(x: int, d: int)
    by (nonlinear_arith)
    requires
        d > 0,
    ensures
        x / (-d) == -(x / d),
{
}

/// The sign of a product is the product of the signs.
proof fn lemma_signed_product(n1: bool, x: int, n2: bool, y: int)
    by (nonlinear_arith)
    ensures
        signed(n1, x) * signed(n2, y) == signed(n1 != n2, x * y),
{
}

/// Division rounded towards zero is the division of the absolute values,
/// with the sign of the quotient, and leaves a remainder with the sign of
/// the dividend.
pub proof fn lemma_trunc_div(x: int, y: int)
    requires
        y != 0,
    ensures
        trunc_div(x, y) == signed((x < 0) != (y < 0), abs(x) as int / abs(y) as int),
        x - trunc_div(x, y) * y == signed(x < 0, abs(x) as int % abs(y) as int),
        abs(x - trunc_div(x, y) * y) == abs(x) % abs(y),
        abs(x - trunc_div(x, y) * y) < abs(y),
{
    let ax = abs(x) as int;
    let ay = abs(y) as int;
    let q = ax / ay;
    if y < 0 {
        lemma_div_by_negative(ax, ay);
    }
    assert(trunc_div(x, y) == signed((x < 0) != (y < 0), q));
    lemma_fundamental_div_mod(ax, ay);
    lemma_signed_product((x < 0) != (y < 0), q, y < 0, ay);
    assert(q * ay == ay * q) by (nonlinear_arith);
}

/// The coefficients of `bezout` combine `a` and `b` to its third component.
pub proof fn lemma_bezout_identity(a: int, b: int)
    ensures
        bezout(a, b).0 * a + bezout(a, b).1 * b == bezout(a, b).2,
    decreases abs(b),
{
    if b != 0 {
        let q = trunc_div(a, b);
        lemma_trunc_div(a, b);
        lemma_bezout_identity(b, a - q * b);
        let sub = bezout(b, a - q * b);
        assert(sub.1 * a + (sub.0 - q * sub.1) * b == sub.0 * b + sub.1 * (a - q * b))
            by (nonlinear_arith);
    }
}

/// The third component of `bezout` is the greatest common divisor of the
/// absolute values, up to its sign; on non-negative arguments it is the
/// greatest common divisor itself.
pub proof fn lemma_bezout_gcd(a: int, b: int)
    ensures
        abs(bezout(a, b).2) == gcd(abs(a), abs(b)),
        a >= 0 && b >= 0 ==> bezout(a, b).2 == gcd(a as nat, b as nat),
    decreases abs(b),
{
    if b != 0 {
        let q = trunc_div(a, b);
        lemma_trunc_div(a, b);
        lemma_bezout_gcd(b, a - q * b);
    }
}

/// The greatest common divisor divides both arguments.
pub proof fn lemma_gcd_divides(a: nat, b: nat)
    ensures
        divides(gcd(a, b) as int, a as int),
        divides(gcd(a, b) as int, b as int),
    decreases b,
{
    let g = gcd(a, b) as int;
    if b == 0 {
        assert(a as int == 1 * g);
        assert(b as int == 0 * g);
    } else {
        lemma_gcd_divides(b, a % b);
        let kb = choose|k: int| b as int == #[trigger] (k * g);
        let km = choose|k: int| (a % b) as int == #[trigger] (k * g);
        lemma_fundamental_div_mod(a as int, b as int);
        let q = (a / b) as int;
        assert(a as int == (kb * q + km) * g) by (nonlinear_arith)
            requires
                a == b * q + (a % b),
                b == kb * g,
                (a % b) == km * g,
        ;
    }
}

/// Every common divisor of `a` and `b` divides their greatest common
/// divisor.
pub proof fn lemma_gcd_greatest(a: nat, b: nat, d: int)
    requires
        divides(d, a as int),
        divides(d, b as int),
    ensures
        divides(d, gcd(a, b) as int),
{
    lemma_bezout_identity(a as int, b as int);
    lemma_bezout_gcd(a as int, b as int);
    let s = bezout(a as int, b as int).0;
    let t = bezout(a as int, b as int).1;
    let ka = choose|k: int| a as int == #[trigger] (k * d);
    let kb = choose|k: int| b as int == #[trigger] (k * d);
    assert(s * a + t * b == (s * ka + t * kb) * d) by (nonlinear_arith)
        requires
            a == ka * d,
            b == kb * d,
    ;
}

/// What the loop of `ext_gcd` keeps of one pair of coefficients, taken
/// with the signs that make them alternate: the cross product with the
/// absolute remainders stays at `target`.
spec fn cross(prev: int, cur: int, old_r: int, r: int, target: int) -> bool {
    &&& prev >= 0
    &&& cur <= 0
    &&& prev * r - cur * old_r == target
}

/// One step of the algorithm on non-negative remainders keeps `cross`,
/// with the signs of the pair swapped, and bounds what the step computes.
proof fn lemma_cross_step(prev: int, cur: int, old_r: int, r: int, q: int, target: int)
    by (nonlinear_arith)
    requires
        cross(prev, cur, old_r, r, target),
        r > 0,
        q >= 0,
        old_r - q * r >= 0,
    ensures
        cross(-cur, -(prev - q * cur), r, old_r - q * r, target),
        0 <= prev - q * cur <= target,
        -target <= q * cur <= 0,
{
    let next = prev - q * cur;
    assert(q * cur <= 0);
    assert((-cur) * (old_r - q * r) - (-next) * r == prev * r - cur * old_r);
    assert(next * r <= target) by {
        assert((-cur) * (old_r - q * r) >= 0);
    }
    assert(next <= next * r);
}

/// The coefficients after a step combine with the triple of the next pair
/// of remainders as those before it do with the triple of this pair.
proof fn lemma_link_step(os: int, s: int, q: int, x: int, y: int)
    by (nonlinear_arith)
    ensures
        s * x + (os - q * s) * y == os * y + s * (x - q * y),
{
}

/// The run of the algorithm on the absolute values, to which the run on
/// the signed values is held: remainders and both pairs of coefficients.
struct Shadow {
    old_r: int,
    r: int,
    old_s: int,
    s: int,
    old_t: int,
    t: int,
    flip: bool,
}

impl Shadow {
    /// The coefficients stay within the absolute values of the arguments.
    spec fn bounded(self, abs_a: int, abs_b: int) -> bool {
        &&& 0 <= self.r
        &&& 0 <= self.old_r
        &&& self.old_r <= abs_a || self.old_r <= abs_b
        &&& self.r <= abs_a || self.r <= abs_b
        &&& !self.flip ==> cross(self.old_s, self.s, self.old_r, self.r, abs_b)
        &&& !self.flip ==> cross(-self.old_t, -self.t, self.old_r, self.r, abs_a)
        &&& self.flip ==> cross(-self.old_s, -self.s, self.old_r, self.r, abs_b)
        &&& self.flip ==> cross(self.old_t, self.t, self.old_r, self.r, abs_a)
    }

    /// How the signed run follows from the run on the absolute values,
    /// where `na` and `nb` say whether the arguments are negative.
    spec fn tracks(
        self,
        na: bool,
        nb: bool,
        old_r: int,
        r: int,
        old_s: int,
        s: int,
        old_t: int,
        t: int,
    ) -> bool {
        let nc = na != nb;
        if self.flip {
            &&& old_r == signed(nb, self.old_r)
            &&& r == signed(na, self.r)
            &&& old_s == signed(nc, self.old_s)
            &&& s == self.s
            &&& old_t == self.old_t
            &&& t == signed(nc, self.t)
        } else {
            &&& old_r == signed(na, self.old_r)
            &&& r == signed(nb, self.r)
            &&& old_s == self.old_s
            &&& s == signed(nc, self.s)
            &&& old_t == signed(nc, self.old_t)
            &&& t == self.t
        }
    }

    /// One step of the algorithm on the absolute values.
    spec fn step(self) -> Shadow {
        let q = self.old_r / self.r;
        Shadow {
            old_r: self.r,
            r: self.old_r - q * self.r,
            old_s: self.s,
            s: self.old_s - q * self.s,
            old_t: self.t,
            t: self.old_t - q * self.t,
            flip: !self.flip,
        }
    }
}

/// One step keeps the shadow run bounded and the signed run on its track,
/// and no product or difference of the step leaves the range of the
/// arguments.
proof fn lemma_shadow_step(
    sh: Shadow,
    na: bool,
    nb: bool,
    abs_a: int,
    abs_b: int,
    old_r: int,
    r: int,
    old_s: int,
    s: int,
    old_t: int,
    t: int,
)
    requires
        sh.bounded(abs_a, abs_b),
        sh.tracks(na, nb, old_r, r, old_s, s, old_t, t),
        r != 0,
    ensures
        ({
            let q = trunc_div(old_r, r);
            let big = if abs_a >= abs_b {
                abs_a
            } else {
                abs_b
            };
            &&& sh.step().bounded(abs_a, abs_b)
            &&& sh.step().tracks(na, nb, r, old_r - q * r, s, old_s - q * s, t, old_t - q * t)
            &&& -big <= q <= big
            &&& -big <= q * r <= big
            &&& -big <= q * s <= big
            &&& -big <= q * t <= big
            &&& -big <= old_r - q * r <= big
            &&& -big <= old_s - q * s <= big
            &&& -big <= old_t - q * t <= big
            &&& abs(old_r - q * r) < abs(r)
        }),
{
    let q = trunc_div(old_r, r);
    let qs = sh.old_r / sh.r;
    let nc = na != nb;
    assert(sh.r > 0);
    assert(abs(old_r) == sh.old_r && abs(r) == sh.r);
    lemma_trunc_div(old_r, r);
    lemma_fundamental_div_mod(sh.old_r, sh.r);
    assert(qs >= 0) by (nonlinear_arith)
        requires
            qs == sh.old_r / sh.r,
            sh.old_r >= 0,
            sh.r > 0,
    ;
    assert(sh.old_r - qs * sh.r == sh.old_r % sh.r) by (nonlinear_arith)
        requires
            sh.old_r == sh.r * qs + sh.old_r % sh.r,
    ;
    assert(0 <= qs * sh.r <= sh.old_r);
    assert(qs <= sh.old_r) by (nonlinear_arith)
        requires
            qs * sh.r <= sh.old_r,
            qs >= 0,
            sh.r > 0,
    ;
    if sh.flip {
        lemma_cross_step(-sh.old_s, -sh.s, sh.old_r, sh.r, qs, abs_b);
        lemma_cross_step(sh.old_t, sh.t, sh.old_r, sh.r, qs, abs_a);
        assert(-sh.old_s - qs * (-sh.s) == -(sh.old_s - qs * sh.s)) by (nonlinear_arith);
        assert(qs * (-sh.s) == -(qs * sh.s)) by (nonlinear_arith);
    } else {
        lemma_cross_step(sh.old_s, sh.s, sh.old_r, sh.r, qs, abs_b);
        lemma_cross_step(-sh.old_t, -sh.t, sh.old_r, sh.r, qs, abs_a);
        assert(-sh.old_t - qs * (-sh.t) == -(sh.old_t - qs * sh.t)) by (nonlinear_arith);
        assert(qs * (-sh.t) == -(qs * sh.t)) by (nonlinear_arith);
    }
    // The signed quotient times each signed value is the shadow product up
    // to a sign.
    if sh.flip {
        assert(q == signed(nc, qs));
        lemma_signed_product(nc, qs, na, sh.r);
        lemma_signed_product(nc, qs, false, sh.s);
        lemma_signed_product(nc, qs, nc, sh.t);
    } else {
        assert(q == signed(nc, qs));
        lemma_signed_product(nc, qs, nb, sh.r);
        lemma_signed_product(nc, qs, nc, sh.s);
        lemma_signed_product(nc, qs, false, sh.t);
    }
}

/// The extended Euclidean algorithm: returns `(s, t, g)` with
/// `s * a + t * b == g`, where `g` is the greatest common divisor of `a`
/// and `b` up to its sign, and for non-negative `a` and `b` the greatest
/// common divisor itself. The coefficients are those of the recurrence
/// `bezout`; with `b == 0` the result is `(1, 0, a)` for every `a`. Where
/// something is divided, the most negative number is left out: it has no
/// absolute value in range.
pub fn ext_gcd(a: i64, b: i64) -> (res: (i64, i64, i64))
    requires
        b == 0 || (a > i64::MIN && b > i64::MIN),
    ensures
        (res.0 as int, res.1 as int, res.2 as int) == bezout(a as int, b as int),
        b == 0 ==> res == (1i64, 0i64, a),
        res.0 * a + res.1 * b == res.2,
        abs(res.2 as int) == gcd(abs(a as int), abs(b as int)),
        a >= 0 && b >= 0 ==> res.2 == gcd(a as nat, b as nat),
{
    let mut old_r: i64 = a;
    let mut r: i64 = b;
    let mut old_s: i64 = 1;
    let mut s: i64 = 0;
    let mut old_t: i64 = 0;
    let mut t: i64 = 1;
    let ghost na = a < 0;
    let ghost nb = b < 0;
    let ghost abs_a = abs(a as int) as int;
    let ghost abs_b = abs(b as int) as int;
    let ghost goal = bezout(a as int, b as int);
    let ghost mut shadow = Shadow {
        old_r: abs_a,
        r: abs_b,
        old_s: 1,
        s: 0,
        old_t: 0,
        t: 1,
        flip: false,
    };
    proof {
        let start = bezout(a as int, b as int);
        assert(1 * start.0 + 0 * start.1 == start.0) by (nonlinear_arith);
        assert(0 * start.0 + 1 * start.1 == start.1) by (nonlinear_arith);
        assert(1 * abs_b - 0 * abs_a == abs_b) by (nonlinear_arith);
        assert((-0) * abs_b - (-1) * abs_a == abs_a) by (nonlinear_arith);
    }
    while r != 0
        invariant
            abs_a == abs(a as int),
            abs_b == abs(b as int),
            b == 0 ==> r == 0,
            b != 0 ==> abs_a <= i64::MAX && abs_b <= i64::MAX,
            goal == bezout(a as int, b as int),
            bezout(old_r as int, r as int).2 == goal.2,
            old_s * bezout(old_r as int, r as int).0 + s * bezout(old_r as int, r as int).1
                == goal.0,
            old_t * bezout(old_r as int, r as int).0 + t * bezout(old_r as int, r as int).1
                == goal.1,
            shadow.bounded(abs_a, abs_b),
            shadow.tracks(
                na,
                nb,
                old_r as int,
                r as int,
                old_s as int,
                s as int,
                old_t as int,
                t as int,
            ),
        decreases abs(r as int),
    {
        proof {
            lemma_shadow_step(
                shadow,
                na,
                nb,
                abs_a,
                abs_b,
                old_r as int,
                r as int,
                old_s as int,
                s as int,
                old_t as int,
                t as int,
            );
        }
        let quotient: i64 = old_r / r;
        proof {
            let q = quotient as int;
            assert(q == trunc_div(old_r as int, r as int));
            let sub = bezout(r as int, old_r - q * r);
            assert(bezout(old_r as int, r as int) == (sub.1, sub.0 - q * sub.1, sub.2));
            lemma_link_step(old_s as int, s as int, q, sub.0, sub.1);
            lemma_link_step(old_t as int, t as int, q, sub.0, sub.1);
        }
        let next_r: i64 = old_r - quotient * r;
        let next_s: i64 = old_s - quotient * s;
        let next_t: i64 = old_t - quotient * t;
        old_r = r;
        r = next_r;
        old_s = s;
        s = next_s;
        old_t = t;
        t = next_t;
        proof {
            shadow = shadow.step();
        }
    }
    proof {
        let last = bezout(old_r as int, 0);
        assert(last == (1int, 0int, old_r as int));
        assert(old_s * last.0 + s * last.1 == old_s) by (nonlinear_arith)
            requires
                last.0 == 1,
                last.1 == 0,
        ;
        assert(old_t * last.0 + t * last.1 == old_t) by (nonlinear_arith)
            requires
                last.0 == 1,
                last.1 == 0,
        ;
        lemma_bezout_identity(a as int, b as int);
        lemma_bezout_gcd(a as int, b as int);
    }
    (old_s, old_t, old_r)
}

} // verus!
