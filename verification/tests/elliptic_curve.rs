use kzg_algebra::elliptic_curve::{EllipticCurve, Point, PointExt};
use kzg_algebra::error::AlgebraError;
use kzg_algebra::field::{FieldElement, FieldElementExt};

const P: u64 = 101;

fn fe(v: u64) -> FieldElement {
    FieldElement::new(v, P)
}

fn affine(x: u64, y: u64) -> Point {
    Point::Affine(fe(x), fe(y))
}

fn ext(a: u64, b: u64) -> FieldElementExt {
    FieldElementExt::new(fe(a), fe(b)).unwrap()
}

fn affine_ext(x: (u64, u64), y: (u64, u64)) -> PointExt {
    PointExt::Affine(ext(x.0, x.1), ext(y.0, y.1))
}

/// The multiples `[0]G, [1]G, ..., [17]G` of the generator `(1, 2)`.
fn multiples_of_g1() -> Vec<Point> {
    let affine_multiples = [
        (1, 2),
        (68, 74),
        (26, 45),
        (65, 98),
        (12, 32),
        (32, 42),
        (91, 35),
        (18, 49),
        (18, 52),
        (91, 66),
        (32, 59),
        (12, 69),
        (65, 3),
        (26, 56),
        (68, 27),
        (1, 99),
    ];
    let mut all = vec![Point::Infinity];
    all.extend(affine_multiples.iter().map(|(x, y)| affine(*x, *y)));
    all.push(Point::Infinity);
    all
}

#[test]
fn test_curve_order() {
    let curve = EllipticCurve::new();
    let g1 = curve.generator_g1();
    let order = FieldElement::new(curve.order, P);
    let result = g1.scalar_mul(&curve, order).unwrap();
    assert_eq!(result, Point::infinity());
}

#[test]
fn test_double_g1() {
    let curve = EllipticCurve::new();
    let g1 = curve.generator_g1(); // (1, 2)
    let double_g1 = curve.add(&g1, &g1).unwrap();
    assert_eq!(double_g1, Point::Affine(FieldElement::new(68, P), FieldElement::new(74, P)));
}

#[test]
fn test_point_addition() {
    let curve = EllipticCurve::new();
    let first = curve.generator_g1();
    let second = curve.generator_g1().scalar_mul(&curve, fe(2)).unwrap();
    let sum = curve.add(&first, &second).unwrap();
    let expected = curve.generator_g1().scalar_mul(&curve, fe(3)).unwrap();
    assert_eq!(sum, expected);
}

#[test]
fn test_scalar_mul() {
    let curve = EllipticCurve::new();
    let p = curve.generator_g1();
    let result = p.scalar_mul(&curve, fe(3)).unwrap();
    let expected = curve.add(&curve.add(&p, &p).unwrap(), &p).unwrap();
    assert_eq!(result, expected);
    assert_eq!(result, affine(26, 45));
}

#[test]
fn test_infinity() {
    let curve = EllipticCurve::new();
    let p = curve.generator_g1();
    let inf = curve.infinity();
    let sum = curve.add(&p.clone(), &inf).unwrap();
    assert_eq!(sum, p);
}

#[test]
fn test_basic_mul() {
    let curve = EllipticCurve::new();
    let g = curve.generator_g1();
    let result = g.scalar_mul(&curve, fe(1)).unwrap();
    assert_eq!(result, g);
}

#[test]
fn test_new() {
    let curve = EllipticCurve::new();
    assert_eq!(curve.a, fe(0));
    assert_eq!(curve.b, fe(3));
    assert_eq!(curve.order, 17);
    assert_eq!(curve.generator_g1(), affine(1, 2));
    assert_eq!(curve.generator_g2(), affine_ext((36, 0), (0, 31)));
    assert!(curve.contains(&curve.generator_g1()));
    assert!(curve.contains_ext(&curve.generator_g2()));
}

#[test]
fn infinity_is_the_identity() {
    let curve = EllipticCurve::new();
    let g = curve.generator_g1();
    assert_eq!(curve.add(&g, &Point::Infinity).unwrap(), g);
    assert_eq!(curve.add(&Point::Infinity, &g).unwrap(), g);
    assert_eq!(curve.add(&Point::Infinity, &Point::Infinity).unwrap(), Point::Infinity);
    assert_eq!(curve.infinity(), Point::Infinity);
    let h = curve.generator_g2();
    assert_eq!(curve.add_ext(&h, &PointExt::Infinity).unwrap(), h);
    assert_eq!(curve.add_ext(&PointExt::Infinity, &h).unwrap(), h);
    assert_eq!(curve.infinity_ext(), PointExt::infinity());
}

#[test]
fn a_point_and_its_negation_give_infinity() {
    let curve = EllipticCurve::new();
    for p in multiples_of_g1() {
        let minus = p.negate();
        assert_eq!(curve.add(&p, &minus).unwrap(), Point::Infinity);
        assert_eq!(curve.add(&minus, &p).unwrap(), Point::Infinity);
    }
    assert_eq!(affine(1, 2).negate(), affine(1, 99));
    assert_eq!(Point::Infinity.negate(), Point::Infinity);
    let h = curve.generator_g2();
    assert_eq!(h.negate(), affine_ext((36, 0), (0, 70)));
    assert_eq!(curve.add_ext(&h, &h.negate()).unwrap(), PointExt::Infinity);
}

#[test]
fn scalar_mul_walks_the_subgroup() {
    let curve = EllipticCurve::new();
    let g = curve.generator_g1();
    let expected = multiples_of_g1();
    let mut running = Point::Infinity;
    for k in 0..=17u64 {
        let multiple = g.scalar_mul(&curve, fe(k)).unwrap();
        assert_eq!(multiple, expected[k as usize]);
        assert_eq!(multiple, running);
        assert!(curve.contains(&multiple));
        running = curve.add(&running, &g).unwrap();
    }
    // The scalar is not reduced by the order: [100]G = [15]G.
    assert_eq!(g.scalar_mul(&curve, fe(100)).unwrap(), affine(68, 27));
    // It counts by its residue, whatever its modulus.
    assert_eq!(g.scalar_mul(&curve, FieldElement::new(20, 1000)).unwrap(), affine(26, 45));
    assert_eq!(Point::Infinity.scalar_mul(&curve, fe(5)).unwrap(), Point::Infinity);
}

#[test]
fn addition_of_distinct_points() {
    let curve = EllipticCurve::new();
    // [2]G + [3]G = [5]G, and [16]G + [2]G = [18]G = G.
    assert_eq!(curve.add(&affine(68, 74), &affine(26, 45)).unwrap(), affine(12, 32));
    assert_eq!(curve.add(&affine(1, 99), &affine(68, 74)).unwrap(), affine(1, 2));
}

#[test]
fn second_group_follows_the_same_law() {
    let curve = EllipticCurve::new();
    let h = curve.generator_g2();
    let two_h = curve.add_ext(&h, &h).unwrap();
    assert_eq!(two_h, affine_ext((90, 0), (0, 82)));
    let three_h = curve.add_ext(&two_h, &h).unwrap();
    assert_eq!(three_h, affine_ext((10, 0), (0, 16)));
    assert_eq!(h.scalar_mul(&curve, fe(3)).unwrap(), three_h);
    assert_eq!(h.scalar_mul(&curve, fe(16)).unwrap(), affine_ext((36, 0), (0, 70)));
    assert_eq!(h.scalar_mul(&curve, fe(17)).unwrap(), PointExt::Infinity);
    assert_eq!(h.scalar_mul(&curve, fe(0)).unwrap(), PointExt::Infinity);
    let mut running = PointExt::Infinity;
    for k in 0..=17u64 {
        let multiple = h.scalar_mul(&curve, fe(k)).unwrap();
        assert_eq!(multiple, running);
        assert!(curve.contains_ext(&multiple));
        running = curve.add_ext(&running, &h).unwrap();
    }
}

#[test]
fn point_checks_the_curve_equation() {
    let curve = EllipticCurve::new();
    assert_eq!(curve.point(fe(1), fe(2)), Ok(affine(1, 2)));
    assert_eq!(curve.point(fe(68), fe(74)), Ok(affine(68, 74)));
    assert_eq!(curve.point(fe(1), fe(3)), Err(AlgebraError::NotOnCurve));
    assert_eq!(
        curve.point(FieldElement::new(1, 7), FieldElement::new(2, 7)),
        Err(AlgebraError::ConfigMismatch)
    );
    assert!(!curve.contains(&affine(1, 3)));
    assert!(curve.contains(&Point::Infinity));
    assert!(!curve.contains_ext(&affine_ext((36, 0), (0, 30))));
}

#[test]
fn with_parameters_accepts_a_curve_modulo_seventeen() {
    // y^2 = x^3 + 7 modulo 17.
    let f = |v: u64| FieldElement::new(v, 17);
    let g1 = Point::Affine(f(1), f(5));
    let curve =
        EllipticCurve::with_parameters(f(0), f(7), g1, PointExt::Infinity, 18).unwrap();
    assert_eq!(curve.generator_g1(), g1);
    assert_eq!(curve.generator_g2(), PointExt::Infinity);
    let sum = curve.add(&g1, &Point::Affine(f(2), f(7))).unwrap();
    assert_eq!(sum, Point::Affine(f(1), f(12)));
    assert_eq!(g1.scalar_mul(&curve, f(2)).unwrap(), Point::Affine(f(2), f(10)));
    // (3, 0) is a point of order two: it is its own negation.
    let two_torsion = curve.point(f(3), f(0)).unwrap();
    assert_eq!(curve.add(&two_torsion, &two_torsion).unwrap(), Point::Infinity);
    assert_eq!(curve.point(f(3), f(10)), Err(AlgebraError::NotOnCurve));
}

#[test]
fn with_parameters_rejects_a_singular_curve() {
    let f = |v: u64| FieldElement::new(v, P);
    // a = b = 0 has discriminant zero.
    assert_eq!(
        EllipticCurve::with_parameters(f(0), f(0), Point::Infinity, PointExt::Infinity, 1),
        Err(AlgebraError::SingularCurve)
    );
    // 4a^3 + 27b^2 = 4 * (-27) + 27 * 4 = 0 for a = -3, b = 2.
    assert_eq!(
        EllipticCurve::with_parameters(f(98), f(2), Point::Infinity, PointExt::Infinity, 1),
        Err(AlgebraError::SingularCurve)
    );
}

#[test]
fn with_parameters_rejects_bad_generators() {
    let f = |v: u64| FieldElement::new(v, P);
    assert_eq!(
        EllipticCurve::with_parameters(f(0), f(3), affine(1, 3), PointExt::Infinity, 17),
        Err(AlgebraError::NotOnCurve)
    );
    assert_eq!(
        EllipticCurve::with_parameters(
            f(0),
            f(3),
            affine(1, 2),
            affine_ext((36, 0), (0, 30)),
            17
        ),
        Err(AlgebraError::NotOnCurve)
    );
    assert_eq!(
        EllipticCurve::with_parameters(
            f(0),
            FieldElement::new(3, 7),
            affine(1, 2),
            PointExt::Infinity,
            17
        ),
        Err(AlgebraError::ConfigMismatch)
    );
    let elsewhere = Point::Affine(FieldElement::new(1, 7), FieldElement::new(2, 7));
    assert_eq!(
        EllipticCurve::with_parameters(f(0), f(3), elsewhere, PointExt::Infinity, 17),
        Err(AlgebraError::ConfigMismatch)
    );
    let rebuilt = EllipticCurve::with_parameters(
        f(0),
        f(3),
        affine(1, 2),
        affine_ext((36, 0), (0, 31)),
        17,
    );
    assert_eq!(rebuilt, Ok(EllipticCurve::new()));
}

#[test]
fn group_operations_reject_points_of_another_field() {
    let curve = EllipticCurve::new();
    let g = curve.generator_g1();
    let elsewhere = Point::Affine(FieldElement::new(1, 7), FieldElement::new(2, 7));
    assert_eq!(curve.add(&g, &elsewhere), Err(AlgebraError::ConfigMismatch));
    assert_eq!(curve.add(&elsewhere, &g), Err(AlgebraError::ConfigMismatch));
    assert_eq!(elsewhere.scalar_mul(&curve, fe(2)), Err(AlgebraError::ConfigMismatch));
    let seven = |v: u64| FieldElementExt::from_base(FieldElement::new(v, 7));
    let elsewhere_ext = PointExt::Affine(seven(1), seven(2));
    let h = curve.generator_g2();
    assert_eq!(curve.add_ext(&h, &elsewhere_ext), Err(AlgebraError::ConfigMismatch));
    assert_eq!(elsewhere_ext.scalar_mul(&curve, fe(2)), Err(AlgebraError::ConfigMismatch));
}

#[test]
fn sums_and_multiples_stay_on_the_curve() {
    let curve = EllipticCurve::new();
    let points = multiples_of_g1();
    for p in &points {
        assert!(curve.contains(p));
        for q in &points {
            let sum = curve.add(p, q).unwrap();
            assert!(curve.contains(&sum));
        }
        for k in [0u64, 1, 2, 16, 17, 18, 100, u64::MAX] {
            let multiple = p.scalar_mul(&curve, FieldElement::new(k, u64::MAX / 2)).unwrap();
            assert!(curve.contains(&multiple));
        }
    }
}

#[test]
fn elliptic_curve_test_point_addition() {
    let order = 17;
    let f = |v: u64| FieldElement::new(v, order);
    // y² = x³ + 7 modulo 17
    let curve =
        EllipticCurve::with_parameters(f(0), f(7), Point::Infinity, PointExt::Infinity, 18)
            .unwrap();
    // Neither (3, 10) nor (9, 7) satisfies the equation: they are refused.
    assert_eq!(curve.point(f(3), f(10)), Err(AlgebraError::NotOnCurve));
    assert_eq!(curve.point(f(9), f(7)), Err(AlgebraError::NotOnCurve));
    // Points that do: (1, 5) + (2, 7) = (1, 12).
    let first = curve.point(f(1), f(5)).unwrap();
    let second = curve.point(f(2), f(7)).unwrap();
    let sum = curve.add(&first, &second).unwrap();
    if let Point::Affine(x, y) = sum {
        assert_eq!(x.value, 1);
        assert_eq!(y.value, 12);
    } else {
        panic!("Expected affine point");
    }
}

#[test]
fn elliptic_curve_test_scalar_mul() {
    let order = 17;
    let f = |v: u64| FieldElement::new(v, order);
    let curve =
        EllipticCurve::with_parameters(f(0), f(7), Point::Infinity, PointExt::Infinity, 18)
            .unwrap();
    assert_eq!(curve.point(f(3), f(10)), Err(AlgebraError::NotOnCurve));
    let p = curve.point(f(1), f(5)).unwrap();
    let result = p.scalar_mul(&curve, f(2)).unwrap(); // 2P
    if let Point::Affine(x, y) = result {
        assert_eq!(x.value, 2);
        assert_eq!(y.value, 10);
    } else {
        panic!("Expected affine point");
    }
}

#[test]
fn sums_in_the_second_group_stay_on_the_curve() {
    let curve = EllipticCurve::new();
    let h = curve.generator_g2();
    let multiples: Vec<PointExt> =
        (0..=17u64).map(|k| h.scalar_mul(&curve, fe(k)).unwrap()).collect();
    for p in &multiples {
        assert!(curve.contains_ext(p));
        for q in &multiples {
            let sum = curve.add_ext(p, q).unwrap();
            assert!(curve.contains_ext(&sum));
        }
    }
    // Doubling the negated generator stays on the curve too.
    let minus = h.negate();
    assert!(curve.contains_ext(&curve.add_ext(&minus, &minus).unwrap()));
}
