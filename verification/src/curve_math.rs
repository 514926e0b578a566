//! The group law of a short Weierstrass curve `y² = x³ + a·x + b` on
//! mathematical integers modulo `m`, and its mirror over the quadratic
//! extension. A point is `None` for the point at infinity, or its affine
//! coordinates.

use crate::modular::{
    div_mod, neg_mod, quad_add, quad_div, quad_mul, quad_neg, quad_scale, quad_sub, sub_mod,
};
use vstd::prelude::*;

verus! {

/// Whether the point satisfies the curve equation; infinity does.
pub open spec fn on_curve(p: Option<(int, int)>, a: int, b: int, m: int) -> bool {
    match p {
        None => true,
        Some((x, y)) => (y * y) % m == (x * x * x + a * x + b) % m,
    }
}

/// The discriminant `-16(4a³ + 27b²)` modulo `m`; the curve is singular
/// where it is zero.
pub open spec fn discriminant(a: int, b: int, m: int) -> int {
    (-16 * (4 * (a * a * a) + 27 * (b * b))) % m
}

/// The negation of a point: the same abscissa, the negated ordinate.
pub open spec fn ec_neg(p: Option<(int, int)>, m: int) -> Option<(int, int)> {
    match p {
        None => None,
        Some((x, y)) => Some((x, neg_mod(y, m))),
    }
}

/// The slope of the tangent at `(x, y)`: `(3x² + a) / (2y)`.
pub open spec fn tangent_slope(x: int, y: int, a: int, m: int) -> int {
    div_mod((3 * (x * x) + a) % m, (2 * y) % m, m)
}

/// The slope of the chord through two points: `(y₂ - y₁) / (x₂ - x₁)`.
pub open spec fn chord_slope(x1: int, y1: int, x2: int, y2: int, m: int) -> int {
    div_mod(sub_mod(y2, y1, m), sub_mod(x2, x1, m), m)
}

/// The sum of two points. Infinity is the identity; a point and its
/// negation give infinity; a point added to itself is doubled along the
/// tangent; any other two points are joined by a chord. With slope `s` the
/// sum is `x₃ = s² - x₁ - x₂`, `y₃ = s(x₁ - x₃) - y₁`.
pub open spec fn ec_add(p: Option<(int, int)>, q: Option<(int, int)>, a: int, m: int) -> Option<
    (int, int),
> {
    match (p, q) {
        (None, _) => q,
        (_, None) => p,
        (Some((x1, y1)), Some((x2, y2))) => {
            if x1 == x2 && y1 == neg_mod(y2, m) {
                None
            } else {
                let s = if x1 == x2 && y1 == y2 {
                    tangent_slope(x1, y1, a, m)
                } else {
                    chord_slope(x1, y1, x2, y2, m)
                };
                let x3 = (s * s - x1 - x2) % m;
                let y3 = (s * (x1 - x3) - y1) % m;
                Some((x3, y3))
            }
        },
    }
}

/// Double-and-add from the least significant bit of `k`: `acc` takes up
/// `base` for every set bit while `base` doubles.
pub open spec fn ec_mul_from(
    acc: Option<(int, int)>,
    base: Option<(int, int)>,
    k: nat,
    a: int,
    m: int,
) -> Option<(int, int)>
    decreases k,
{
    if k == 0 {
        acc
    } else {
        ec_mul_from(
            if k % 2 == 1 {
                ec_add(acc, base, a, m)
            } else {
                acc
            },
            ec_add(base, base, a, m),
            k / 2,
            a,
            m,
        )
    }
}

/// The scalar multiple `[k]·p`, by double-and-add.
pub open spec fn ec_mul(p: Option<(int, int)>, k: nat, a: int, m: int) -> Option<(int, int)> {
    ec_mul_from(None, p, k, a, m)
}

/// Whether a point over the quadratic extension satisfies the curve
/// equation; infinity does.
pub open spec fn on_curve_ext(
    p: Option<((int, int), (int, int))>,
    a: int,
    b: int,
    m: int,
) -> bool {
    match p {
        None => true,
        Some((x, y)) => quad_mul(y, y, m) == quad_add(
            quad_add(quad_mul(quad_mul(x, x, m), x, m), quad_scale(x, a, m), m),
            (b, 0int),
            m,
        ),
    }
}

/// The negation of a point over the quadratic extension.
pub open spec fn ec_neg_ext(p: Option<((int, int), (int, int))>, m: int) -> Option<
    ((int, int), (int, int)),
> {
    match p {
        None => None,
        Some((x, y)) => Some((x, quad_neg(y, m))),
    }
}

/// The slope of the tangent at `(x, y)` over the quadratic extension.
pub open spec fn tangent_slope_ext(x: (int, int), y: (int, int), a: int, m: int) -> (int, int) {
    quad_div(
        quad_add(quad_scale(quad_mul(x, x, m), 3, m), (a, 0int), m),
        quad_scale(y, 2, m),
        m,
    )
}

/// The slope of the chord through two points over the quadratic extension.
pub open spec fn chord_slope_ext(
    x1: (int, int),
    y1: (int, int),
    x2: (int, int),
    y2: (int, int),
    m: int,
) -> (int, int) {
    quad_div(quad_sub(y2, y1, m), quad_sub(x2, x1, m), m)
}

/// The sum of two points over the quadratic extension: the same law as
/// `ec_add`, in the arithmetic of the extension.
pub open spec fn ec_add_ext(
    p: Option<((int, int), (int, int))>,
    q: Option<((int, int), (int, int))>,
    a: int,
    m: int,
) -> Option<((int, int), (int, int))> {
    match (p, q) {
        (None, _) => q,
        (_, None) => p,
        (Some((x1, y1)), Some((x2, y2))) => {
            if x1 == x2 && y1 == quad_neg(y2, m) {
                None
            } else {
                let s = if x1 == x2 && y1 == y2 {
                    tangent_slope_ext(x1, y1, a, m)
                } else {
                    chord_slope_ext(x1, y1, x2, y2, m)
                };
                let x3 = quad_sub(quad_sub(quad_mul(s, s, m), x1, m), x2, m);
                let y3 = quad_sub(quad_mul(s, quad_sub(x1, x3, m), m), y1, m);
                Some((x3, y3))
            }
        },
    }
}

/// Double-and-add over the quadratic extension, from the least significant
/// bit of `k`.
pub open spec fn ec_mul_ext_from(
    acc: Option<((int, int), (int, int))>,
    base: Option<((int, int), (int, int))>,
    k: nat,
    a: int,
    m: int,
) -> Option<((int, int), (int, int))>
    decreases k,
{
    if k == 0 {
        acc
    } else {
        ec_mul_ext_from(
            if k % 2 == 1 {
                ec_add_ext(acc, base, a, m)
            } else {
                acc
            },
            ec_add_ext(base, base, a, m),
            k / 2,
            a,
            m,
        )
    }
}

/// The scalar multiple `[k]·p` over the quadratic extension.
pub open spec fn ec_mul_ext(p: Option<((int, int), (int, int))>, k: nat, a: int, m: int) -> Option<
    ((int, int), (int, int)),
> {
    ec_mul_ext_from(None, p, k, a, m)
}

} // verus!
