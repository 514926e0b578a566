//! The KZG polynomial commitment scheme: a structured reference string of
//! curve points, commitments to polynomials, openings at a point, and the
//! check of an opening.

use crate::curve_math::{
    ec_add, ec_add_ext, ec_mul, ec_mul_ext, ec_neg, ec_neg_ext, on_curve, on_curve_ext,
};
use crate::elliptic_curve::{EllipticCurve, Point, PointExt};
use crate::error::AlgebraError;
use crate::field::FieldElement;
use crate::modular::{extension_is_field, is_prime, mul_mod};
use crate::poly_math::{linear_quotient, poly_eval};
use crate::polynomial::Polynomial;
use crate::toy_pairing::Pairing;
use ark_std::rand::rngs::ThreadRng;
use ark_std::rand::Rng;
use vstd::prelude::*;

verus! {

/// The thread-local generator `rand::rngs::ThreadRng`, which `ark_std`
/// hands on: an opaque value that is only carried through to `gen_range`.
#[verifier::external_type_specification]
#[verifier::external_body]
pub struct ExThreadRng(ark_std::rand::rngs::ThreadRng);

/// Calls `rand::Rng::gen_range` on the half-open range `low..high`. The
/// range must not be empty, for `gen_range` panics on an empty range; the
/// sample lies in the range. Nothing else is claimed of it.
#[verifier::external_body]
fn draw_in_range(rng: &mut ThreadRng, low: u64, high: u64) -> (r: u64)
    requires
        low < high,
    ensures
        low <= r < high,
{
    rng.gen_range(low..high)
}

/// The points as the model sees them.
pub open spec fn point_views(points: Seq<Point>) -> Seq<Option<(int, int)>> {
    Seq::new(points.len(), |i: int| points[i]@)
}

/// The multi-scalar product of the first `n` points: the sum over `i < n`
/// of `[scalars[i]]·points[i]`, taken from the left starting at infinity.
pub open spec fn ec_msm(
    points: Seq<Option<(int, int)>>,
    scalars: Seq<int>,
    n: int,
    a: int,
    m: int,
) -> Option<(int, int)>
    decreases n,
{
    if n <= 0 {
        None
    } else {
        ec_add(
            ec_msm(points, scalars, n - 1, a, m),
            ec_mul(points[n - 1], scalars[n - 1] as nat, a, m),
            a,
            m,
        )
    }
}

/// The field value that the placeholder pairing reads off a point: its
/// abscissa, or one for infinity.
pub open spec fn projection(p: Option<(int, int)>, m: int) -> int {
    match p {
        None => 1int % m,
        Some((x, _)) => x,
    }
}

/// The field value that the placeholder pairing reads off a point over the
/// quadratic extension: the base-field part of its abscissa, or one for
/// infinity.
pub open spec fn projection_ext(p: Option<((int, int), (int, int))>, m: int) -> int {
    match p {
        None => 1int % m,
        Some((x, _)) => x.0,
    }
}

/// A structured reference string over a curve. It is built once and only
/// read afterwards; the secret scalar it was built from is not kept.
#[derive(Debug)]
pub struct KZG {
    pub curve: EllipticCurve,
    /// `G, [tau]·G, [tau²]·G, ...`
    pub setup_g1: Vec<Point>,
    /// `H, [tau]·H`
    pub setup_g2: Vec<PointExt>,
}

impl KZG {
    /// The curve is well formed, there is at least one point of the first
    /// group and there are two of the second, all over the field of the
    /// curve.
    pub open spec fn wf(&self) -> bool {
        &&& self.curve.wf()
        &&& self.setup_g1@.len() >= 1
        &&& forall|i: int|
            0 <= i < self.setup_g1@.len() ==> (#[trigger] self.setup_g1@[i]).in_field(
                self.curve.modulus(),
            )
        &&& self.setup_g2@.len() == 2
        &&& self.setup_g2@[0].in_field(self.curve.modulus())
        &&& self.setup_g2@[1].in_field(self.curve.modulus())
    }

    /// The largest degree of a polynomial that can be committed to.
    pub open spec fn max_degree(&self) -> int {
        self.setup_g1@.len() - 1
    }

    /// Whether this is the reference string of the secret scalar `tau`:
    /// the first group starts at `G` and each of its points is `tau` times
    /// the one before, so that `setup_g1[i] = [tau^i]·G`; and
    /// `setup_g2 = [H, [tau]·H]`.
    pub open spec fn is_setup_for(&self, tau: int) -> bool {
        let a = self.curve.a@;
        let m = self.curve.modulus() as int;
        &&& self.setup_g1@[0] == self.curve.g1
        &&& forall|i: int|
            1 <= i < self.setup_g1@.len() ==> (#[trigger] self.setup_g1@[i])@ == ec_mul(
                self.setup_g1@[i - 1]@,
                tau as nat,
                a,
                m,
            )
        &&& self.setup_g2@[0] == self.curve.g2
        &&& self.setup_g2@[1]@ == ec_mul_ext(self.curve.g2@, tau as nat, a, m)
    }

    /// Whether the points of the first group are on the curve.
    pub open spec fn first_group_on_curve(&self) -> bool {
        forall|i: int|
            0 <= i < self.setup_g1@.len() ==> on_curve(
                #[trigger] self.setup_g1@[i]@,
                self.curve.a@,
                self.curve.b@,
                self.curve.modulus() as int,
            )
    }

    /// Whether the points of the second group are on the curve.
    pub open spec fn second_group_on_curve(&self) -> bool {
        forall|i: int|
            0 <= i < self.setup_g2@.len() ==> on_curve_ext(
                #[trigger] self.setup_g2@[i]@,
                self.curve.a@,
                self.curve.b@,
                self.curve.modulus() as int,
            )
    }

    /// Over a prime field, and with the points of the first group on the
    /// curve, `c` is on the curve.
    pub open spec fn commits_on_curve(&self, c: Option<(int, int)>) -> bool {
        is_prime(self.curve.modulus() as int) && self.first_group_on_curve() ==> on_curve(
            c,
            self.curve.a@,
            self.curve.b@,
            self.curve.modulus() as int,
        )
    }

    /// The reference string of `tau` over `curve`, for polynomials of degree
    /// up to `max_degree`.
    fn build(curve: EllipticCurve, max_degree: usize, tau: FieldElement) -> (r: Self)
        requires
            curve.wf(),
            tau.wf(),
            tau.modulus == curve.modulus(),
            max_degree < usize::MAX,
        ensures
            r.wf(),
            r.curve == curve,
            r.max_degree() == max_degree,
            r.is_setup_for(tau@),
            is_prime(curve.modulus() as int) ==> r.first_group_on_curve(),
            extension_is_field(curve.modulus() as int) ==> r.second_group_on_curve(),
    {
        let g = curve.g1;
        let h = curve.g2;
        let mut setup_g1: Vec<Point> = Vec::new();
        setup_g1.push(g);
        let mut n: usize = 1;
        while n <= max_degree
            invariant
                curve.wf(),
                tau.wf(),
                tau.modulus == curve.modulus(),
                max_degree < usize::MAX,
                g == curve.g1,
                1 <= n <= max_degree + 1,
                setup_g1@.len() == n,
                setup_g1@[0] == g,
                forall|i: int|
                    0 <= i < n ==> (#[trigger] setup_g1@[i]).in_field(curve.modulus()),
                is_prime(curve.modulus() as int) ==> forall|i: int|
                    0 <= i < n ==> on_curve(
                        #[trigger] setup_g1@[i]@,
                        curve.a@,
                        curve.b@,
                        curve.modulus() as int,
                    ),
                forall|i: int|
                    1 <= i < n ==> (#[trigger] setup_g1@[i])@ == ec_mul(
                        setup_g1@[i - 1]@,
                        tau@ as nat,
                        curve.a@,
                        curve.modulus() as int,
                    ),
            decreases max_degree + 1 - n,
        {
            let previous = setup_g1[n - 1];
            let point = curve.multiple(&previous, tau.value);
            setup_g1.push(point);
            n = n + 1;
        }
        let mut setup_g2: Vec<PointExt> = Vec::new();
        setup_g2.push(h);
        let tau_h = curve.multiple_ext(&h, tau.value);
        setup_g2.push(tau_h);
        KZG { curve, setup_g1, setup_g2 }
    }

    /// Setup from a given secret scalar: the reference string of `tau` over
    /// `curve`, for polynomials of degree up to `max_degree`. Fails with
    /// `ConfigMismatch` exactly when `tau` is not of the field of the curve.
    pub fn setup(curve: EllipticCurve, max_degree: usize, tau: FieldElement) -> (r: Result<
        Self,
        AlgebraError,
    >)
        requires
            curve.wf(),
            tau.wf(),
            max_degree < usize::MAX,
        ensures
            match r {
                Ok(kzg) => {
                    &&& tau.modulus == curve.modulus()
                    &&& kzg.wf()
                    &&& kzg.curve == curve
                    &&& kzg.max_degree() == max_degree
                    &&& kzg.is_setup_for(tau@)
                    &&& is_prime(curve.modulus() as int) ==> kzg.first_group_on_curve()
                    &&& extension_is_field(curve.modulus() as int)
                        ==> kzg.second_group_on_curve()
                },
                Err(e) => tau.modulus != curve.modulus() && e == AlgebraError::ConfigMismatch,
            },
    {
        if tau.modulus != curve.a.modulus {
            return Err(AlgebraError::ConfigMismatch);
        }
        Ok(Self::build(curve, max_degree, tau))
    }

    /// Setup over the curve of `EllipticCurve::new`: draws the secret scalar
    /// uniformly from `[1, 101)` and builds its reference string. The scalar
    /// is dropped on return.
    pub fn new(max_degree: usize, rng: &mut ThreadRng) -> (r: Self)
        requires
            max_degree < usize::MAX,
        ensures
            r.wf(),
            r.curve.modulus() == 101,
            r.curve.a@ == 0,
            r.curve.b@ == 3,
            r.curve.g1@ == Some((1int, 2int)),
            r.curve.g2@ == Some(((36int, 0int), (0int, 31int))),
            r.curve.order == 17,
            r.max_degree() == max_degree,
            exists|tau: int| 1 <= tau < 101 && r.is_setup_for(tau),
            r.first_group_on_curve(),
            r.second_group_on_curve(),
    {
        let curve = EllipticCurve::new();
        let tau = FieldElement::new(draw_in_range(rng, 1, 101), 101);
        let kzg = Self::build(curve, max_degree, tau);
        assert(1 <= tau@ < 101 && kzg.is_setup_for(tau@));
        kzg
    }

    /// The commitment to a polynomial whose coefficients are `scalars`,
    /// which the reference string has points for.
    fn combine(&self, scalars: &Polynomial) -> (r: Point)
        requires
            self.wf(),
            scalars.wf(),
            scalars@.len() <= self.setup_g1@.len(),
        ensures
            r.in_field(self.curve.modulus()),
            r@ == ec_msm(
                point_views(self.setup_g1@),
                scalars@,
                scalars@.len() as int,
                self.curve.a@,
                self.curve.modulus() as int,
            ),
            self.commits_on_curve(r@),
    {
        let mut commitment = self.curve.infinity();
        let count: usize = scalars.coeffs.len();
        let mut i: usize = 0;
        while i < count
            invariant
                self.wf(),
                scalars.wf(),
                count == scalars@.len(),
                count <= self.setup_g1@.len(),
                i <= count,
                commitment.in_field(self.curve.modulus()),
                self.commits_on_curve(commitment@),
                commitment@ == ec_msm(
                    point_views(self.setup_g1@),
                    scalars@,
                    i as int,
                    self.curve.a@,
                    self.curve.modulus() as int,
                ),
            decreases count - i,
        {
            let coeff = scalars.coeffs[i];
            let power = self.setup_g1[i];
            let scaled_power = self.curve.multiple(&power, coeff.value);
            commitment = self.curve.sum(&commitment, &scaled_power);
            i = i + 1;
        }
        commitment
    }

    /// The commitment to `poly`: the sum over `i` of
    /// `[coeff_i]·setup_g1[i]`.
    ///
    /// Fails with `ConfigMismatch` when the polynomial is not over the field
    /// of the curve, else with `DegreeExceeded` when its degree is above the
    /// largest that the reference string supports; on every other input it
    /// succeeds.
    pub fn commit(&self, poly: &Polynomial) -> (r: Result<Point, AlgebraError>)
        requires
            self.wf(),
            poly.wf(),
        ensures
            match r {
                Ok(c) => {
                    &&& poly.modulus() == self.curve.modulus()
                    &&& poly@.len() - 1 <= self.max_degree()
                    &&& c.in_field(self.curve.modulus())
                    &&& c@ == ec_msm(
                        point_views(self.setup_g1@),
                        poly@,
                        poly@.len() as int,
                        self.curve.a@,
                        self.curve.modulus() as int,
                    )
                    &&& self.commits_on_curve(c@)
                },
                Err(e) => if poly.modulus() != self.curve.modulus() {
                    e == AlgebraError::ConfigMismatch
                } else {
                    poly@.len() - 1 > self.max_degree() && e == AlgebraError::DegreeExceeded
                },
            },
    {
        if poly.coeffs[0].modulus != self.curve.a.modulus {
            return Err(AlgebraError::ConfigMismatch);
        }
        if poly.coeffs.len() > self.setup_g1.len() {
            return Err(AlgebraError::DegreeExceeded);
        }
        Ok(self.combine(poly))
    }

    /// The opening of `poly` at `z`: the value `y = poly(z)` and the proof,
    /// which is the commitment to the quotient of `poly - y` by `x - z`.
    /// That division is exact, because `poly - y` vanishes at `z`.
    ///
    /// Fails with `ConfigMismatch` when the polynomial or `z` is not over
    /// the field of the curve, else with `DegreeExceeded` when the degree of
    /// the polynomial is above the largest that the reference string
    /// supports; on every other input it succeeds.
    pub fn prove(&self, poly: &Polynomial, z: FieldElement) -> (r: Result<
        (FieldElement, Point),
        AlgebraError,
    >)
        requires
            self.wf(),
            poly.wf(),
            z.wf(),
        ensures
            match r {
                Ok((y, proof)) => {
                    let m = self.curve.modulus();
                    let quotient = linear_quotient(poly@, z@, m as int);
                    &&& poly.modulus() == m
                    &&& z.modulus == m
                    &&& poly@.len() - 1 <= self.max_degree()
                    &&& y.wf()
                    &&& y.modulus == m
                    &&& y@ == poly_eval(poly@, z@, m as int)
                    &&& proof.in_field(m)
                    &&& proof@ == ec_msm(
                        point_views(self.setup_g1@),
                        quotient,
                        quotient.len() as int,
                        self.curve.a@,
                        m as int,
                    )
                    &&& self.commits_on_curve(proof@)
                },
                Err(e) => if poly.modulus() != self.curve.modulus() || z.modulus
                    != self.curve.modulus() {
                    e == AlgebraError::ConfigMismatch
                } else {
                    poly@.len() - 1 > self.max_degree() && e == AlgebraError::DegreeExceeded
                },
            },
    {
        if poly.coeffs[0].modulus != self.curve.a.modulus || z.modulus != self.curve.a.modulus {
            return Err(AlgebraError::ConfigMismatch);
        }
        if poly.coeffs.len() > self.setup_g1.len() {
            return Err(AlgebraError::DegreeExceeded);
        }
        let y = poly.value_at(&z);
        // Dividing `poly` by `x - z` leaves `poly(z)`; dividing `poly - y`
        // leaves `poly(z) - y` with the same quotient.
        let (quotient, left_over) = poly.ruffini(&z);
        if left_over.minus(&y).value != 0 {
            return Err(AlgebraError::RemainderMismatch);
        }
        Ok((y, self.combine(&quotient)))
    }

    /// The left side of the pairing equation, `e(C - [y]·G, H)`, in the
    /// placeholder pairing: the projection of `C - [y]·G` times that of `H`.
    pub open spec fn left_side(&self, commitment: Option<(int, int)>, y: int) -> int {
        let a = self.curve.a@;
        let m = self.curve.modulus() as int;
        let g = self.setup_g1@[0]@;
        let h = self.setup_g2@[0]@;
        mul_mod(
            projection(ec_add(commitment, ec_neg(ec_mul(g, y as nat, a, m), m), a, m), m),
            projection_ext(h, m),
            m,
        )
    }

    /// The right side of the pairing equation, `e(π, [tau]·H - [z]·H)`, in
    /// the placeholder pairing: the projection of `π` times that of
    /// `[tau]·H - [z]·H`.
    pub open spec fn right_side(&self, proof: Option<(int, int)>, z: int) -> int {
        let a = self.curve.a@;
        let m = self.curve.modulus() as int;
        let h = self.setup_g2@[0]@;
        let tau_h = self.setup_g2@[1]@;
        mul_mod(
            projection(proof, m),
            projection_ext(
                ec_add_ext(tau_h, ec_neg_ext(ec_mul_ext(h, z as nat, a, m), m), a, m),
                m,
            ),
            m,
        )
    }

    /// The two sides of the pairing equation for an opening,
    /// `e(C - [y]·G, H)` and `e(π, [tau]·H - [z]·H)`, in the placeholder
    /// pairing. The scalars count by their residues. Fails with
    /// `ConfigMismatch` exactly when the commitment or the proof is not over
    /// the field of the curve.
    pub fn pairing_sides(
        &self,
        commitment: &Point,
        z: FieldElement,
        y: FieldElement,
        proof: &Point,
    ) -> (r: Result<(Pairing, Pairing), AlgebraError>)
        requires
            self.wf(),
            commitment.wf(),
            proof.wf(),
        ensures
            match r {
                Ok((left, right)) => {
                    &&& commitment.in_field(self.curve.modulus())
                    &&& proof.in_field(self.curve.modulus())
                    &&& left.wf()
                    &&& right.wf()
                    &&& left.e.modulus == self.curve.modulus()
                    &&& right.e.modulus == self.curve.modulus()
                    &&& left.e@ == self.left_side(commitment@, y@)
                    &&& right.e@ == self.right_side(proof@, z@)
                },
                Err(e) => {
                    &&& !(commitment.in_field(self.curve.modulus()) && proof.in_field(
                        self.curve.modulus(),
                    ))
                    &&& e == AlgebraError::ConfigMismatch
                },
            },
    {
        if !self.curve.holds(commitment) || !self.curve.holds(proof) {
            return Err(AlgebraError::ConfigMismatch);
        }
        let g1 = self.setup_g1[0];
        let g2 = self.setup_g2[0];
        let tau_g2 = self.setup_g2[1];
        let y_g1 = self.curve.multiple(&g1, y.value);
        let commitment_minus_y_g1 = self.curve.sum(commitment, &y_g1.negate());
        let z_g2 = self.curve.multiple_ext(&g2, z.value);
        let tau_g2_minus_z_g2 = self.curve.sum_ext(&tau_g2, &z_g2.negate());
        let left = Pairing {
            e: self.to_scalar(&commitment_minus_y_g1).times(&self.to_scalar_ext(&g2)),
        };
        let right = Pairing {
            e: self.to_scalar(proof).times(&self.to_scalar_ext(&tau_g2_minus_z_g2)),
        };
        Ok((left, right))
    }

    /// The field value that the placeholder pairing reads off a point.
    fn to_scalar(&self, p: &Point) -> (r: FieldElement)
        requires
            self.curve.a.wf(),
            p.in_field(self.curve.modulus()),
        ensures
            r.wf(),
            r.modulus == self.curve.modulus(),
            r@ == projection(p@, self.curve.modulus() as int),
    {
        match p {
            Point::Infinity => FieldElement::one(self.curve.a.modulus),
            Point::Affine(x, _) => *x,
        }
    }

    /// The field value that the placeholder pairing reads off a point over
    /// the quadratic extension.
    fn to_scalar_ext(&self, p: &PointExt) -> (r: FieldElement)
        requires
            self.curve.a.wf(),
            p.in_field(self.curve.modulus()),
        ensures
            r.wf(),
            r.modulus == self.curve.modulus(),
            r@ == projection_ext(p@, self.curve.modulus() as int),
    {
        match p {
            PointExt::Infinity => FieldElement::one(self.curve.a.modulus),
            PointExt::Affine(x, _) => x.a,
        }
    }

    /// The check of an opening: whether `e(C - [y]·G, H)` equals
    /// `e(π, [tau]·H - [z]·H)`. An opening is accepted exactly when the
    /// commitment and the proof are points over the field of the curve and
    /// the two sides of the pairing equation are equal.
    ///
    /// With a genuine pairing the equality certifies that the committed
    /// polynomial takes the value `y` at `z`. The placeholder pairing is not
    /// bilinear: it can refuse a true opening and accept a false one, so the
    /// result is good for tests only.
    pub fn verify(
        &self,
        commitment: &Point,
        z: FieldElement,
        y: FieldElement,
        proof: &Point,
    ) -> (accepted: bool)
        requires
            self.wf(),
            commitment.wf(),
            proof.wf(),
        ensures
            accepted == {
                &&& commitment.in_field(self.curve.modulus())
                &&& proof.in_field(self.curve.modulus())
                &&& self.left_side(commitment@, y@) == self.right_side(proof@, z@)
            },
    {
        match self.pairing_sides(commitment, z, y, proof) {
            Ok((left, right)) => left.e.value == right.e.value,
            Err(_) => false,
        }
    }
}

} // verus!
