use kzg_algebra::elliptic_curve::{EllipticCurve, Point, PointExt};
use kzg_algebra::error::AlgebraError;
use kzg_algebra::field::{FieldElement, FieldElementExt};
use kzg_algebra::kzg::KZG;
use kzg_algebra::polynomial::Polynomial;

const P: u64 = 101;

fn fe(v: u64) -> FieldElement {
    FieldElement::new(v, P)
}

fn affine(x: u64, y: u64) -> Point {
    Point::Affine(fe(x), fe(y))
}

fn poly(values: &[u64]) -> Polynomial {
    Polynomial::new(values.iter().map(|v| fe(*v)).collect(), P)
}

#[test]
fn test_kzg() {
    // The placeholder pairing is not bilinear: the two sides of the pairing
    // equation agree for some secret scalars only. Every draw opens to the
    // same value and proof; the check is the comparison of the two sides,
    // and it accepts on the draws where they agree.
    let mut accepted_once = false;
    for _ in 0..400 {
        let kzg = KZG::new(2, &mut rand::thread_rng());
        let poly = Polynomial::new(vec![FieldElement::one(P), FieldElement::new(2, P)], P); // 1 + 2x
        let commitment = kzg.commit(&poly).unwrap();
        let z = FieldElement::new(3, P);
        let (y, proof) = kzg.prove(&poly, z.clone()).unwrap();
        assert_eq!(
            proof,
            kzg.curve
                .generator_g1()
                .scalar_mul(&kzg.curve, FieldElement::new(2, P))
                .unwrap()
        );
        assert_eq!(y.value, 7); // 1 + 2*3 = 7
        let (left, right) = kzg.pairing_sides(&commitment, z, y, &proof).unwrap();
        assert_eq!(kzg.verify(&commitment, z, y, &proof), left == right);
        if left == right {
            assert!(kzg.verify(&commitment, z, y, &proof));
            accepted_once = true;
        }
    }
    assert!(accepted_once);
}

#[test]
fn round_trip_where_the_sides_agree() {
    // At tau = 7 both sides are 42.
    let kzg = KZG::setup(EllipticCurve::new(), 2, fe(7)).unwrap();
    let poly = Polynomial::new(vec![FieldElement::one(P), FieldElement::new(2, P)], P);
    let commitment = kzg.commit(&poly).unwrap();
    let z = FieldElement::new(3, P);
    let (y, proof) = kzg.prove(&poly, z).unwrap();
    assert_eq!(y.value, 7);
    assert_eq!(proof, affine(68, 74));
    assert!(kzg.verify(&commitment, z, y, &proof));
    // A wrong value is refused there.
    assert!(!kzg.verify(&commitment, z, fe(8), &proof));
}

#[test]
fn new_builds_the_reference_string_of_some_scalar() {
    let curve = EllipticCurve::new();
    let g = curve.generator_g1();
    let h = curve.generator_g2();
    let mut seen_other_than_g = false;
    for _ in 0..40 {
        let kzg = KZG::new(3, &mut rand::thread_rng());
        assert_eq!(kzg.curve, curve);
        assert_eq!(kzg.setup_g1.len(), 4);
        assert_eq!(kzg.setup_g2.len(), 2);
        assert_eq!(kzg.setup_g1[0], g);
        assert_eq!(kzg.setup_g2[0], h);
        // Some scalar in [1, 101) explains every point of the string.
        let explained = (1..P).any(|tau| {
            let t = fe(tau);
            (1..4usize).all(|i| {
                kzg.setup_g1[i] == kzg.setup_g1[i - 1].scalar_mul(&curve, t).unwrap()
            }) && kzg.setup_g2[1] == h.scalar_mul(&curve, t).unwrap()
        });
        assert!(explained);
        if kzg.setup_g1[1] != g {
            seen_other_than_g = true;
        }
    }
    // The scalar is drawn, not fixed: [tau]G differs from G in most draws.
    assert!(seen_other_than_g);
}

#[test]
fn setup_from_a_given_scalar() {
    let curve = EllipticCurve::new();
    let kzg = KZG::setup(curve, 3, fe(5)).unwrap();
    // Each point is 5 times the one before: [5]G, [25]G = [8]G and
    // [125]G = [6]G in the subgroup of order 17.
    assert_eq!(
        kzg.setup_g1,
        vec![affine(1, 2), affine(12, 32), affine(18, 49), affine(32, 42)]
    );
    // The power is not reduced modulo 101 on the way: at tau = 100 the
    // third point is [100]([100]G) = [4]G.
    let hundred = KZG::setup(curve, 3, fe(100)).unwrap();
    assert_eq!(
        hundred.setup_g1,
        vec![affine(1, 2), affine(68, 27), affine(65, 98), affine(18, 52)]
    );
    let ext = |a: u64, b: u64| FieldElementExt::new(fe(a), fe(b)).unwrap();
    assert_eq!(
        kzg.setup_g2,
        vec![
            PointExt::Affine(ext(36, 0), ext(0, 31)),
            PointExt::Affine(ext(74, 0), ext(0, 12)),
        ]
    );
    let smallest = KZG::setup(curve, 0, fe(5)).unwrap();
    assert_eq!(smallest.setup_g1, vec![affine(1, 2)]);
    assert_eq!(
        KZG::setup(curve, 3, FieldElement::new(5, 7)).map(|k| k.setup_g1),
        Err(AlgebraError::ConfigMismatch)
    );
}

#[test]
fn commit_is_the_multi_scalar_product() {
    let kzg = KZG::setup(EllipticCurve::new(), 3, fe(5)).unwrap();
    assert_eq!(kzg.commit(&poly(&[1, 2])), Ok(affine(32, 59)));
    assert_eq!(kzg.commit(&poly(&[4, 0, 1, 7])), Ok(affine(26, 45)));
    assert_eq!(kzg.commit(&poly(&[])), Ok(Point::Infinity));
    assert_eq!(kzg.commit(&poly(&[1])), Ok(affine(1, 2)));
    let other = KZG::setup(EllipticCurve::new(), 3, fe(50)).unwrap();
    assert_eq!(other.commit(&poly(&[4, 0, 1, 7])), Ok(affine(68, 27)));
}

#[test]
fn commit_rejects_a_degree_above_the_maximum() {
    let kzg = KZG::setup(EllipticCurve::new(), 2, fe(5)).unwrap();
    assert!(kzg.commit(&poly(&[1, 2, 3])).is_ok());
    assert_eq!(kzg.commit(&poly(&[1, 2, 3, 4])), Err(AlgebraError::DegreeExceeded));
    assert_eq!(
        kzg.prove(&poly(&[1, 2, 3, 4]), fe(3)),
        Err(AlgebraError::DegreeExceeded)
    );
    let none = KZG::setup(EllipticCurve::new(), 0, fe(5)).unwrap();
    assert!(none.commit(&poly(&[9])).is_ok());
    assert_eq!(none.commit(&poly(&[9, 1])), Err(AlgebraError::DegreeExceeded));
}

#[test]
fn commit_and_prove_reject_another_field() {
    let kzg = KZG::setup(EllipticCurve::new(), 2, fe(5)).unwrap();
    let elsewhere = Polynomial::new(vec![FieldElement::new(1, 7)], 7);
    assert_eq!(kzg.commit(&elsewhere), Err(AlgebraError::ConfigMismatch));
    assert_eq!(kzg.prove(&elsewhere, fe(3)), Err(AlgebraError::ConfigMismatch));
    assert_eq!(
        kzg.prove(&poly(&[1, 2]), FieldElement::new(3, 7)),
        Err(AlgebraError::ConfigMismatch)
    );
}

#[test]
fn prove_commits_to_the_quotient() {
    let kzg = KZG::setup(EllipticCurve::new(), 3, fe(5)).unwrap();
    let (y, proof) = kzg.prove(&poly(&[1, 2]), fe(3)).unwrap();
    assert_eq!(y, fe(7));
    assert_eq!(proof, affine(68, 74));
    // (4 + x^2 + 7x^3 - 96) / (x - 5) = 79 + 36x + 7x^2.
    let p = poly(&[4, 0, 1, 7]);
    let (y, proof) = kzg.prove(&p, fe(5)).unwrap();
    assert_eq!(y, fe(96));
    assert_eq!(proof, affine(18, 52));
    assert_eq!(proof, kzg.commit(&poly(&[79, 36, 7])).unwrap());
    let (quotient, remainder) =
        p.sub(&poly(&[96])).unwrap().divide(&poly(&[96, 1])).unwrap();
    assert_eq!(kzg.commit(&quotient).unwrap(), proof);
    assert_eq!(remainder, poly(&[]));
    // A constant opens to itself with the proof at infinity.
    assert_eq!(kzg.prove(&poly(&[9]), fe(5)), Ok((fe(9), Point::Infinity)));
}

#[test]
fn pairing_sides_in_the_placeholder_pairing() {
    let kzg = KZG::setup(EllipticCurve::new(), 3, fe(5)).unwrap();
    let p = poly(&[1, 2]);
    let commitment = kzg.commit(&p).unwrap();
    let (y, proof) = kzg.prove(&p, fe(3)).unwrap();
    let (left, right) = kzg.pairing_sides(&commitment, fe(3), y, &proof).unwrap();
    // The placeholder is not bilinear: at tau = 5 the sides differ for a
    // true opening, and the check refuses it.
    assert_eq!((left.e.value, right.e.value), (17, 60));
    assert!(!kzg.verify(&commitment, fe(3), y, &proof));
    let seven = KZG::setup(EllipticCurve::new(), 3, fe(7)).unwrap();
    let commitment = seven.commit(&p).unwrap();
    let (y, proof) = seven.prove(&p, fe(3)).unwrap();
    let (left, right) = seven.pairing_sides(&commitment, fe(3), y, &proof).unwrap();
    assert_eq!((left.e.value, right.e.value), (42, 42));
    assert!(seven.verify(&commitment, fe(3), y, &proof));
    // A cubic at tau = 7: 28 against 52.
    let cubic = poly(&[4, 0, 1, 7]);
    let commitment = seven.commit(&cubic).unwrap();
    let (y, proof) = seven.prove(&cubic, fe(5)).unwrap();
    let (left, right) = seven.pairing_sides(&commitment, fe(5), y, &proof).unwrap();
    assert_eq!((left.e.value, right.e.value), (28, 52));
    assert!(!seven.verify(&commitment, fe(5), y, &proof));
}

#[test]
fn verify_compares_the_two_sides() {
    // The string of tau = 1, the commitment [2]G, z = y = 0 and the proof
    // at infinity: 24 against 36.
    let kzg = KZG::setup(EllipticCurve::new(), 2, fe(1)).unwrap();
    let commitment = affine(68, 74);
    let (left, right) =
        kzg.pairing_sides(&commitment, fe(0), fe(0), &Point::Infinity).unwrap();
    assert_eq!((left.e.value, right.e.value), (24, 36));
    assert!(!kzg.verify(&commitment, fe(0), fe(0), &Point::Infinity));
    // Whatever the inputs, the result is the comparison.
    let five = KZG::setup(EllipticCurve::new(), 2, fe(5)).unwrap();
    let points = [Point::Infinity, affine(1, 2), affine(68, 74), affine(1, 99)];
    for c in &points {
        for proof in &points {
            for (z, y) in [(0u64, 0u64), (3, 7), (16, 1), (100, 50)] {
                let (left, right) = five.pairing_sides(c, fe(z), fe(y), proof).unwrap();
                assert_eq!(five.verify(c, fe(z), fe(y), proof), left == right);
            }
        }
    }
}

#[test]
fn verify_rejects_points_of_another_field() {
    let kzg = KZG::setup(EllipticCurve::new(), 2, fe(5)).unwrap();
    let elsewhere = Point::Affine(FieldElement::new(1, 7), FieldElement::new(2, 7));
    let g = affine(1, 2);
    assert!(!kzg.verify(&elsewhere, fe(3), fe(7), &g));
    assert!(!kzg.verify(&g, fe(3), fe(7), &elsewhere));
    assert_eq!(
        kzg.pairing_sides(&elsewhere, fe(3), fe(7), &g),
        Err(AlgebraError::ConfigMismatch)
    );
    // Over the field the sides decide: 44 against 90 with both at infinity.
    let (left, right) = kzg
        .pairing_sides(&Point::Infinity, fe(3), fe(7), &Point::Infinity)
        .unwrap();
    assert_eq!((left.e.value, right.e.value), (44, 90));
    assert!(!kzg.verify(&Point::Infinity, fe(3), fe(7), &Point::Infinity));
}
