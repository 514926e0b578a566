//! A short Weierstrass curve `y² = x³ + a·x + b` with two groups of points:
//! one over the base field, one over its quadratic extension.

use crate::curve_ext_laws::{lemma_multiple_on_curve_ext, lemma_sum_on_curve_ext};
use crate::curve_laws::{lemma_multiple_on_curve, lemma_sum_on_curve};
use crate::curve_math::{
    discriminant, ec_add, ec_add_ext, ec_mul, ec_mul_ext, ec_mul_ext_from, ec_mul_from, ec_neg,
    ec_neg_ext, on_curve, on_curve_ext,
};
use crate::error::AlgebraError;
use crate::field::{FieldElement, FieldElementExt};
use crate::modular::{
    extension_is_field, is_prime, lemma_101_is_prime, lemma_extension_of_101_is_field,
    lemma_pow_small, lemma_sub_mod_left, quad_mul,
};
use vstd::arithmetic::div_mod::{
    lemma_add_mod_noop, lemma_add_mod_noop_right, lemma_mul_mod_noop_general,
    lemma_mul_mod_noop_right, lemma_sub_mod_noop_right,
};
use vstd::prelude::*;

verus! {

/// A point of the group over the base field.
#[derive(Clone, Copy, Debug, PartialEq, Eq, Structural)]
pub enum Point {
    /// The point at infinity, the identity of the group.
    Infinity,
    /// The affine point `(x, y)`.
    Affine(FieldElement, FieldElement),
}

/// A point of the group over the quadratic extension.
#[derive(Clone, Copy, Debug, PartialEq, Eq, Structural)]
pub enum PointExt {
    /// The point at infinity, the identity of the group.
    Infinity,
    /// The affine point `(x, y)`.
    Affine(FieldElementExt, FieldElementExt),
}

impl View for Point {
    type V = Option<(int, int)>;

    /// `None` for infinity, else the coordinates as residues.
    open spec fn view(&self) -> Option<(int, int)> {
        match self {
            Point::Infinity => None,
            Point::Affine(x, y) => Some((x@, y@)),
        }
    }
}

impl View for PointExt {
    type V = Option<((int, int), (int, int))>;

    /// `None` for infinity, else the coordinates as pairs of residues.
    open spec fn view(&self) -> Option<((int, int), (int, int))> {
        match self {
            PointExt::Infinity => None,
            PointExt::Affine(x, y) => Some((x@, y@)),
        }
    }
}

impl Point {
    /// Infinity, or coordinates that are well formed and share a modulus.
    pub open spec fn wf(&self) -> bool {
        match self {
            Point::Infinity => true,
            Point::Affine(x, y) => x.compatible(y),
        }
    }

    /// Infinity, or well-formed coordinates modulo `m`.
    pub open spec fn in_field(&self, m: u64) -> bool {
        match self {
            Point::Infinity => true,
            Point::Affine(x, y) => x.compatible(y) && x.modulus == m,
        }
    }

    /// The point at infinity.
    pub fn infinity() -> (r: Self)
        ensures
            r == Point::Infinity,
    {
        Point::Infinity
    }

    /// The negation: the same abscissa, the negated ordinate; infinity is
    /// its own negation.
    pub fn negate(&self) -> (r: Self)
        requires
            self.wf(),
        ensures
            r.wf(),
            forall|m: u64| #[trigger]
                self.in_field(m) ==> r.in_field(m) && r@ == ec_neg(self@, m as int),
    {
        match self {
            Point::Infinity => Point::Infinity,
            Point::Affine(x, y) => Point::Affine(*x, y.negate()),
        }
    }

    /// The multiple `[scalar]·self` by double-and-add, scanning the bits of
    /// the scalar from the least significant. The scalar counts by its
    /// residue, whatever its modulus. Over a prime field every multiple of
    /// a point of the curve is on the curve. Fails with `ConfigMismatch`
    /// exactly when the point is not over the field of the curve.
    pub fn scalar_mul(&self, curve: &EllipticCurve, scalar: FieldElement) -> (r: Result<
        Self,
        AlgebraError,
    >)
        requires
            curve.wf(),
            self.wf(),
        ensures
            match r {
                Ok(p) => {
                    &&& self.in_field(curve.modulus())
                    &&& p.in_field(curve.modulus())
                    &&& p@ == ec_mul(self@, scalar@ as nat, curve.a@, curve.modulus() as int)
                    &&& curve.keeps_on_curve(self@, self@, p@)
                },
                Err(e) => !self.in_field(curve.modulus()) && e == AlgebraError::ConfigMismatch,
            },
    {
        if !curve.holds(self) {
            return Err(AlgebraError::ConfigMismatch);
        }
        Ok(curve.multiple(self, scalar.value))
    }
}

impl PointExt {
    /// Infinity, or coordinates that are well formed and share a modulus.
    pub open spec fn wf(&self) -> bool {
        match self {
            PointExt::Infinity => true,
            PointExt::Affine(x, y) => x.compatible(y),
        }
    }

    /// Infinity, or well-formed coordinates over the field modulo `m`.
    pub open spec fn in_field(&self, m: u64) -> bool {
        match self {
            PointExt::Infinity => true,
            PointExt::Affine(x, y) => x.compatible(y) && x.modulus() == m,
        }
    }

    /// The point at infinity.
    pub fn infinity() -> (r: Self)
        ensures
            r == PointExt::Infinity,
    {
        PointExt::Infinity
    }

    /// The negation: the same abscissa, the negated ordinate; infinity is
    /// its own negation.
    pub fn negate(&self) -> (r: Self)
        requires
            self.wf(),
        ensures
            r.wf(),
            forall|m: u64| #[trigger]
                self.in_field(m) ==> r.in_field(m) && r@ == ec_neg_ext(self@, m as int),
    {
        match self {
            PointExt::Infinity => PointExt::Infinity,
            PointExt::Affine(x, y) => PointExt::Affine(*x, y.neg()),
        }
    }

    /// The multiple `[scalar]·self` by double-and-add, scanning the bits of
    /// the scalar from the least significant. Where the extension is a
    /// field, every multiple of a point of the curve is on the curve. Fails
    /// with `ConfigMismatch` exactly when the point is not over the field of
    /// the curve.
    pub fn scalar_mul(&self, curve: &EllipticCurve, scalar: FieldElement) -> (r: Result<
        Self,
        AlgebraError,
    >)
        requires
            curve.wf(),
            self.wf(),
        ensures
            match r {
                Ok(p) => {
                    &&& self.in_field(curve.modulus())
                    &&& p.in_field(curve.modulus())
                    &&& p@ == ec_mul_ext(self@, scalar@ as nat, curve.a@, curve.modulus() as int)
                    &&& curve.keeps_on_curve_ext(self@, self@, p@)
                },
                Err(e) => !self.in_field(curve.modulus()) && e == AlgebraError::ConfigMismatch,
            },
    {
        if !curve.holds_ext(self) {
            return Err(AlgebraError::ConfigMismatch);
        }
        Ok(curve.multiple_ext(self, scalar.value))
    }
}

/// The curve `y² = x³ + a·x + b`, a generator of each of its two groups, and
/// the order of the subgroup they generate.
#[derive(Clone, Copy, Debug, PartialEq, Eq, Structural)]
pub struct EllipticCurve {
    pub a: FieldElement,
    pub b: FieldElement,
    pub g1: Point,
    pub g2: PointExt,
    pub order: u64,
}

impl EllipticCurve {
    /// The modulus of the base field.
    pub open spec fn modulus(&self) -> u64 {
        self.a.modulus
    }

    /// The coefficients share a field, the discriminant is nonzero, and
    /// both generators lie on the curve.
    pub open spec fn wf(&self) -> bool {
        &&& self.a.compatible(&self.b)
        &&& discriminant(self.a@, self.b@, self.modulus() as int) != 0
        &&& self.g1.in_field(self.modulus())
        &&& self.g2.in_field(self.modulus())
        &&& on_curve(self.g1@, self.a@, self.b@, self.modulus() as int)
        &&& on_curve_ext(self.g2@, self.a@, self.b@, self.modulus() as int)
    }

    /// The curve `y² = x³ + 3` modulo 101, with the generator `(1, 2)` of a
    /// subgroup of order 17 and the generator `(36, 31·u)` of its twin over
    /// the quadratic extension.
    pub fn new() -> (r: Self)
        ensures
            r.wf(),
            r.modulus() == 101,
            is_prime(r.modulus() as int),
            extension_is_field(r.modulus() as int),
            r.a@ == 0,
            r.b@ == 3,
            r.g1@ == Some((1int, 2int)),
            r.g2@ == Some(((36int, 0int), (0int, 31int))),
            r.order == 17,
    {
        let zero = FieldElement::new(0, 101);
        let curve = EllipticCurve {
            a: zero,
            b: FieldElement::new(3, 101),
            g1: Point::Affine(FieldElement::new(1, 101), FieldElement::new(2, 101)),
            g2: PointExt::Affine(
                FieldElementExt { a: FieldElement::new(36, 101), b: zero },
                FieldElementExt { a: zero, b: FieldElement::new(31, 101) },
            ),
            order: 17,
        };
        proof {
            lemma_101_is_prime();
            lemma_extension_of_101_is_field();
            assert(discriminant(0, 3, 101) == 51);
            assert(quad_mul((0int, 31int), (0int, 31int), 101) == (98int, 0int)) by {
                assert(31int * 31int == 961);
                assert(0int * 31int == 0);
                assert(0int * 0int == 0);
                assert(31int * 0int == 0);
            }
            assert(quad_mul((36int, 0int), (36int, 0int), 101) == (84int, 0int)) by {
                assert(36int * 36int == 1296);
                assert(0int * 36int == 0);
                assert(0int * 0int == 0);
                assert(36int * 0int == 0);
            }
            assert(quad_mul((84int, 0int), (36int, 0int), 101) == (95int, 0int)) by {
                assert(84int * 36int == 3024);
                assert(0int * 36int == 0);
                assert(0int * 0int == 0);
                assert(84int * 0int == 0);
            }
            assert(on_curve(Some((1int, 2int)), 0, 3, 101)) by {
                assert(2int * 2int == 4);
                assert(1int * 1int * 1int == 1);
                assert(0int * 1int == 0);
            }
        }
        curve
    }

    /// The curve with the given coefficients, generators and subgroup order.
    ///
    /// Fails with `ConfigMismatch` when the coefficients and the generators
    /// do not all share one modulus, else with `SingularCurve` when the
    /// discriminant `-16(4a³ + 27b²)` is zero, else with `NotOnCurve` when a
    /// generator does not satisfy the curve equation.
    pub fn with_parameters(
        a: FieldElement,
        b: FieldElement,
        g1: Point,
        g2: PointExt,
        order: u64,
    ) -> (r: Result<Self, AlgebraError>)
        requires
            a.wf(),
            b.wf(),
            g1.wf(),
            g2.wf(),
        ensures
            match r {
                Ok(curve) => {
                    &&& curve.wf()
                    &&& curve == (EllipticCurve { a, b, g1, g2, order })
                },
                Err(e) => if !(a.modulus == b.modulus && g1.in_field(a.modulus) && g2.in_field(
                    a.modulus,
                )) {
                    e == AlgebraError::ConfigMismatch
                } else if discriminant(a@, b@, a.modulus as int) == 0 {
                    e == AlgebraError::SingularCurve
                } else {
                    &&& !(on_curve(g1@, a@, b@, a.modulus as int) && on_curve_ext(
                        g2@,
                        a@,
                        b@,
                        a.modulus as int,
                    ))
                    &&& e == AlgebraError::NotOnCurve
                },
            },
    {
        let curve = EllipticCurve { a, b, g1, g2, order };
        if a.modulus != b.modulus || !curve.holds(&g1) || !curve.holds_ext(&g2) {
            return Err(AlgebraError::ConfigMismatch);
        }
        if Self::discriminant_of(&a, &b).value == 0 {
            return Err(AlgebraError::SingularCurve);
        }
        if !curve.contains(&g1) || !curve.contains_ext(&g2) {
            return Err(AlgebraError::NotOnCurve);
        }
        Ok(curve)
    }

    /// The discriminant `-16(4a³ + 27b²)` of the curve with coefficients
    /// `a` and `b`.
    fn discriminant_of(a: &FieldElement, b: &FieldElement) -> (d: FieldElement)
        requires
            a.compatible(b),
        ensures
            d.wf(),
            d.modulus == a.modulus,
            d@ == discriminant(a@, b@, a.modulus as int),
    {
        let modulus: u64 = a.modulus;
        let neg_sixteen = FieldElement::new(16, modulus).negate();
        let twenty_seven = FieldElement::new(27, modulus);
        let four = FieldElement::new(4, modulus);
        let inner = four.times(&a.pow(3)).plus(&twenty_seven.times(&b.pow(2)));
        proof {
            let m = modulus as int;
            let cube = a@ * a@ * a@;
            let square = b@ * b@;
            lemma_pow_small(a@);
            lemma_pow_small(b@);
            lemma_mul_mod_noop_general(4, cube, m);
            lemma_mul_mod_noop_general(27, square, m);
            lemma_add_mod_noop(4 * cube, 27 * square, m);
            lemma_sub_mod_noop_right(0, 16, m);
            lemma_mul_mod_noop_general(-16, 4 * cube + 27 * square, m);
        }
        neg_sixteen.times(&inner)
    }

    /// Whether the point satisfies the curve equation.
    pub fn contains(&self, p: &Point) -> (r: bool)
        requires
            self.a.compatible(&self.b),
            p.in_field(self.modulus()),
        ensures
            r == on_curve(p@, self.a@, self.b@, self.modulus() as int),
    {
        match p {
            Point::Infinity => true,
            Point::Affine(x, y) => {
                let lhs = y.times(y);
                let rhs = x.times(x).times(x).plus(&self.a.times(x)).plus(&self.b);
                proof {
                    let m = self.a.modulus as int;
                    lemma_mul_mod_noop_general(x@ * x@, x@, m);
                    lemma_add_mod_noop(x@ * x@ * x@, self.a@ * x@, m);
                    lemma_add_mod_noop_right(self.b@, x@ * x@ * x@ + self.a@ * x@, m);
                }
                lhs.value == rhs.value
            },
        }
    }

    /// Whether the point over the extension satisfies the curve equation.
    pub fn contains_ext(&self, p: &PointExt) -> (r: bool)
        requires
            self.a.compatible(&self.b),
            p.in_field(self.modulus()),
        ensures
            r == on_curve_ext(p@, self.a@, self.b@, self.modulus() as int),
    {
        match p {
            PointExt::Infinity => true,
            PointExt::Affine(x, y) => {
                let lhs = y.times(y);
                let rhs = x.times(x).times(x).plus(&x.scaled(&self.a)).plus(
                    &FieldElementExt::from_base(self.b),
                );
                lhs.a.value == rhs.a.value && lhs.b.value == rhs.b.value
            },
        }
    }

    /// The affine point `(x, y)`. Fails with `ConfigMismatch` when a
    /// coordinate is not over the field of the curve, else with `NotOnCurve`
    /// when the coordinates do not satisfy the curve equation.
    pub fn point(&self, x: FieldElement, y: FieldElement) -> (r: Result<Point, AlgebraError>)
        requires
            self.wf(),
            x.wf(),
            y.wf(),
        ensures
            match r {
                Ok(p) => {
                    &&& x.modulus == self.modulus()
                    &&& y.modulus == self.modulus()
                    &&& on_curve(Some((x@, y@)), self.a@, self.b@, self.modulus() as int)
                    &&& p == Point::Affine(x, y)
                },
                Err(e) => if x.modulus != self.modulus() || y.modulus != self.modulus() {
                    e == AlgebraError::ConfigMismatch
                } else {
                    &&& !on_curve(Some((x@, y@)), self.a@, self.b@, self.modulus() as int)
                    &&& e == AlgebraError::NotOnCurve
                },
            },
    {
        if x.modulus != self.a.modulus || y.modulus != self.a.modulus {
            return Err(AlgebraError::ConfigMismatch);
        }
        let p = Point::Affine(x, y);
        if !self.contains(&p) {
            return Err(AlgebraError::NotOnCurve);
        }
        Ok(p)
    }

    /// The generator of the group over the base field.
    pub fn generator_g1(&self) -> (r: Point)
        ensures
            r == self.g1,
    {
        self.g1
    }

    /// The generator of the group over the quadratic extension.
    pub fn generator_g2(&self) -> (r: PointExt)
        ensures
            r == self.g2,
    {
        self.g2
    }

    /// The identity of the group over the base field.
    pub fn infinity(&self) -> (r: Point)
        ensures
            r == Point::Infinity,
    {
        Point::Infinity
    }

    /// The identity of the group over the quadratic extension.
    pub fn infinity_ext(&self) -> (r: PointExt)
        ensures
            r == PointExt::Infinity,
    {
        PointExt::Infinity
    }

    /// The sum of two points. Infinity is absorbed by either operand, and a
    /// point added to its negation gives infinity. Over a prime field the
    /// sum of two points of the curve is on the curve. Fails with
    /// `ConfigMismatch` exactly when a point is not over the field of the
    /// curve.
    pub fn add(&self, p: &Point, q: &Point) -> (r: Result<Point, AlgebraError>)
        requires
            self.wf(),
            p.wf(),
            q.wf(),
        ensures
            match r {
                Ok(sum) => {
                    &&& p.in_field(self.modulus())
                    &&& q.in_field(self.modulus())
                    &&& sum.in_field(self.modulus())
                    &&& sum@ == ec_add(p@, q@, self.a@, self.modulus() as int)
                    &&& p is Infinity ==> sum == *q
                    &&& q is Infinity ==> sum == *p
                    &&& p is Affine && p@ == ec_neg(q@, self.modulus() as int) ==> sum
                        is Infinity
                    &&& self.keeps_on_curve(p@, q@, sum@)
                },
                Err(e) => {
                    &&& !(p.in_field(self.modulus()) && q.in_field(self.modulus()))
                    &&& e == AlgebraError::ConfigMismatch
                },
            },
    {
        if !self.holds(p) || !self.holds(q) {
            return Err(AlgebraError::ConfigMismatch);
        }
        Ok(self.sum(p, q))
    }

    /// The sum of two points over the quadratic extension, by the same law.
    /// Where the extension is a field, the sum of two points of the curve is
    /// on the curve. Fails with `ConfigMismatch` exactly when a point is not over the
    /// extension of the field of the curve.
    pub fn add_ext(&self, p: &PointExt, q: &PointExt) -> (r: Result<PointExt, AlgebraError>)
        requires
            self.wf(),
            p.wf(),
            q.wf(),
        ensures
            match r {
                Ok(sum) => {
                    &&& p.in_field(self.modulus())
                    &&& q.in_field(self.modulus())
                    &&& sum.in_field(self.modulus())
                    &&& sum@ == ec_add_ext(p@, q@, self.a@, self.modulus() as int)
                    &&& p is Infinity ==> sum == *q
                    &&& q is Infinity ==> sum == *p
                    &&& p is Affine && p@ == ec_neg_ext(q@, self.modulus() as int) ==> sum
                        is Infinity
                    &&& self.keeps_on_curve_ext(p@, q@, sum@)
                },
                Err(e) => {
                    &&& !(p.in_field(self.modulus()) && q.in_field(self.modulus()))
                    &&& e == AlgebraError::ConfigMismatch
                },
            },
    {
        if !self.holds_ext(p) || !self.holds_ext(q) {
            return Err(AlgebraError::ConfigMismatch);
        }
        Ok(self.sum_ext(p, q))
    }

    /// Over a prime field the group law does not leave the curve: where
    /// `p` and `q` are on the curve, so is `r`.
    pub open spec fn keeps_on_curve(
        &self,
        p: Option<(int, int)>,
        q: Option<(int, int)>,
        r: Option<(int, int)>,
    ) -> bool {
        let m = self.modulus() as int;
        is_prime(m) && on_curve(p, self.a@, self.b@, m) && on_curve(q, self.a@, self.b@, m)
            ==> on_curve(r, self.a@, self.b@, m)
    }

    /// Where the quadratic extension is a field, the group law over it does
    /// not leave the curve: where `p` and `q` are on the curve, so is `r`.
    pub open spec fn keeps_on_curve_ext(
        &self,
        p: Option<((int, int), (int, int))>,
        q: Option<((int, int), (int, int))>,
        r: Option<((int, int), (int, int))>,
    ) -> bool {
        let m = self.modulus() as int;
        extension_is_field(m) && on_curve_ext(p, self.a@, self.b@, m) && on_curve_ext(
            q,
            self.a@,
            self.b@,
            m,
        ) ==> on_curve_ext(r, self.a@, self.b@, m)
    }

    /// Whether the point is over the field of the curve.
    pub(crate) fn holds(&self, p: &Point) -> (r: bool)
        requires
            self.a.wf(),
            p.wf(),
        ensures
            r == p.in_field(self.modulus()),
    {
        match p {
            Point::Infinity => true,
            Point::Affine(x, _) => x.modulus == self.a.modulus,
        }
    }

    /// Whether the point is over the extension of the field of the curve.
    pub(crate) fn holds_ext(&self, p: &PointExt) -> (r: bool)
        requires
            self.a.wf(),
            p.wf(),
        ensures
            r == p.in_field(self.modulus()),
    {
        match p {
            PointExt::Infinity => true,
            PointExt::Affine(x, _) => x.a.modulus == self.a.modulus,
        }
    }

    /// The sum of two points over the field of the curve.
    pub(crate) fn sum(&self, p: &Point, q: &Point) -> (r: Point)
        requires
            self.a.wf(),
            p.in_field(self.modulus()),
            q.in_field(self.modulus()),
        ensures
            r.in_field(self.modulus()),
            r@ == ec_add(p@, q@, self.a@, self.modulus() as int),
            p is Infinity ==> r == *q,
            q is Infinity ==> r == *p,
            self.keeps_on_curve(p@, q@, r@),
    {
        proof {
            let m = self.a.modulus as int;
            if is_prime(m) && on_curve(p@, self.a@, self.b@, m) && on_curve(
                q@,
                self.a@,
                self.b@,
                m,
            ) {
                lemma_sum_on_curve(p@, q@, self.a@, self.b@, m);
            }
        }
        match p {
            Point::Infinity => *q,
            Point::Affine(x1, y1) => match q {
                Point::Infinity => *p,
                Point::Affine(x2, y2) => {
                    if x1.value == x2.value && y1.value == y2.negate().value {
                        return Point::Infinity;
                    }
                    let ghost m = self.a.modulus as int;
                    let slope = if x1.value == x2.value && y1.value == y2.value {
                        let three = FieldElement::new(3, self.a.modulus);
                        let two = FieldElement::new(2, self.a.modulus);
                        let num = x1.times(x1).times(&three).plus(&self.a);
                        let den = y1.times(&two);
                        proof {
                            lemma_mul_mod_noop_general(x1@ * x1@, 3, m);
                            lemma_add_mod_noop_right(self.a@, (x1@ * x1@) * 3, m);
                            lemma_mul_mod_noop_right(y1@, 2, m);
                        }
                        num.over(&den)
                    } else {
                        let num = y2.minus(y1);
                        let den = x2.minus(x1);
                        num.over(&den)
                    };
                    let x3 = slope.times(&slope).minus(x1).minus(x2);
                    let y3 = slope.times(&x1.minus(&x3)).minus(y1);
                    proof {
                        lemma_sub_mod_left(slope@ * slope@, x1@, m);
                        lemma_sub_mod_left(slope@ * slope@ - x1@, x2@, m);
                        lemma_mul_mod_noop_right(slope@, x1@ - x3@, m);
                        lemma_sub_mod_left(slope@ * (x1@ - x3@), y1@, m);
                    }
                    Point::Affine(x3, y3)
                },
            },
        }
    }

    /// The sum of two points over the extension of the field of the curve.
    pub(crate) fn sum_ext(&self, p: &PointExt, q: &PointExt) -> (r: PointExt)
        requires
            self.a.wf(),
            p.in_field(self.modulus()),
            q.in_field(self.modulus()),
        ensures
            r.in_field(self.modulus()),
            r@ == ec_add_ext(p@, q@, self.a@, self.modulus() as int),
            p is Infinity ==> r == *q,
            q is Infinity ==> r == *p,
            self.keeps_on_curve_ext(p@, q@, r@),
    {
        proof {
            let m = self.a.modulus as int;
            if extension_is_field(m) && on_curve_ext(p@, self.a@, self.b@, m) && on_curve_ext(
                q@,
                self.a@,
                self.b@,
                m,
            ) {
                lemma_sum_on_curve_ext(p@, q@, self.a@, self.b@, m);
            }
        }
        match p {
            PointExt::Infinity => *q,
            PointExt::Affine(x1, y1) => match q {
                PointExt::Infinity => *p,
                PointExt::Affine(x2, y2) => {
                    let minus_y2 = y2.neg();
                    if x1.a.value == x2.a.value && x1.b.value == x2.b.value && y1.a.value
                        == minus_y2.a.value && y1.b.value == minus_y2.b.value {
                        return PointExt::Infinity;
                    }
                    let ghost m = self.a.modulus as int;
                    let slope = if x1.a.value == x2.a.value && x1.b.value == x2.b.value
                        && y1.a.value == y2.a.value && y1.b.value == y2.b.value {
                        let three = FieldElement::new(3, self.a.modulus);
                        let two = FieldElement::new(2, self.a.modulus);
                        let square = x1.times(x1);
                        let num = square.scaled(&three).plus(&FieldElementExt::from_base(self.a));
                        let den = y1.scaled(&two);
                        proof {
                            let sq = square@;
                            lemma_mul_mod_noop_right(sq.0, 3, m);
                            lemma_mul_mod_noop_right(sq.1, 3, m);
                            lemma_mul_mod_noop_right(y1@.0, 2, m);
                            lemma_mul_mod_noop_right(y1@.1, 2, m);
                        }
                        num.over(&den)
                    } else {
                        let num = y2.minus(y1);
                        let den = x2.minus(x1);
                        num.over(&den)
                    };
                    let x3 = slope.times(&slope).minus(x1).minus(x2);
                    let y3 = slope.times(&x1.minus(&x3)).minus(y1);
                    PointExt::Affine(x3, y3)
                },
            },
        }
    }

    /// `[k]·p` by double-and-add from the least significant bit of `k`.
    pub(crate) fn multiple(&self, p: &Point, k: u64) -> (r: Point)
        requires
            self.a.wf(),
            p.in_field(self.modulus()),
        ensures
            r.in_field(self.modulus()),
            r@ == ec_mul(p@, k as nat, self.a@, self.modulus() as int),
            self.keeps_on_curve(p@, p@, r@),
    {
        proof {
            let m = self.a.modulus as int;
            if is_prime(m) && on_curve(p@, self.a@, self.b@, m) {
                lemma_multiple_on_curve(p@, k as nat, self.a@, self.b@, m);
            }
        }
        let mut result = Point::Infinity;
        let mut temp = *p;
        let mut s: u64 = k;
        while s > 0
            invariant
                self.a.wf(),
                result.in_field(self.modulus()),
                temp.in_field(self.modulus()),
                ec_mul_from(result@, temp@, s as nat, self.a@, self.modulus() as int) == ec_mul(
                    p@,
                    k as nat,
                    self.a@,
                    self.modulus() as int,
                ),
            decreases s,
        {
            proof {
                assert((s & 1 == 1) == (s % 2 == 1)) by (bit_vector);
                assert(s >> 1 == s / 2) by (bit_vector);
            }
            if s & 1 == 1 {
                result = self.sum(&result, &temp);
            }
            temp = self.sum(&temp, &temp);
            s = s >> 1;
        }
        result
    }

    /// `[k]·p` over the extension, by double-and-add from the least
    /// significant bit of `k`.
    pub(crate) fn multiple_ext(&self, p: &PointExt, k: u64) -> (r: PointExt)
        requires
            self.a.wf(),
            p.in_field(self.modulus()),
        ensures
            r.in_field(self.modulus()),
            r@ == ec_mul_ext(p@, k as nat, self.a@, self.modulus() as int),
            self.keeps_on_curve_ext(p@, p@, r@),
    {
        proof {
            let m = self.a.modulus as int;
            if extension_is_field(m) && on_curve_ext(p@, self.a@, self.b@, m) {
                lemma_multiple_on_curve_ext(p@, k as nat, self.a@, self.b@, m);
            }
        }
        let mut result = PointExt::Infinity;
        let mut temp = *p;
        let mut s: u64 = k;
        while s > 0
            invariant
                self.a.wf(),
                result.in_field(self.modulus()),
                temp.in_field(self.modulus()),
                ec_mul_ext_from(result@, temp@, s as nat, self.a@, self.modulus() as int)
                    == ec_mul_ext(p@, k as nat, self.a@, self.modulus() as int),
            decreases s,
        {
            proof {
                assert((s & 1 == 1) == (s % 2 == 1)) by (bit_vector);
                assert(s >> 1 == s / 2) by (bit_vector);
            }
            if s & 1 == 1 {
                result = self.sum_ext(&result, &temp);
            }
            temp = self.sum_ext(&temp, &temp);
            s = s >> 1;
        }
        result
    }
}

} // verus!
