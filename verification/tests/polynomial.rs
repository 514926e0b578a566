use kzg_algebra::error::AlgebraError;
use kzg_algebra::field::FieldElement;
use kzg_algebra::polynomial::Polynomial;

const P: u64 = 101;

fn fe(v: u64) -> FieldElement {
    FieldElement::new(v, P)
}

fn poly(values: &[u64], modulus: u64) -> Polynomial {
    Polynomial::new(
        values.iter().map(|v| FieldElement::new(*v, modulus)).collect(),
        modulus,
    )
}

fn residues(p: &Polynomial) -> Vec<u64> {
    p.coeffs.iter().map(|c| c.value).collect()
}

#[test]
fn test_polys() {
    // P(x) = 1 + 2x + 3x^2 (mod 101)
    let first = Polynomial::new(vec![fe(1), fe(2), fe(3)], P);
    // Q(x) = 5 + 4x (mod 101)
    let second = Polynomial::new(vec![fe(5), fe(4)], P);

    let sum = first.clone().add(&second.clone()).unwrap();
    println!("Sum: {:?}", sum.coeffs);
    assert_eq!(sum.coeffs, vec![fe(6), fe(6), fe(3)]);

    let product = first.clone().mul(&second.clone()).unwrap();
    println!("Product: {:?}", product.coeffs);
    assert_eq!(product.coeffs, vec![fe(5), fe(14), fe(23), fe(12)]);

    let value = first.evaluate(fe(2)).unwrap();
    println!("P1(2) = {:?}", value);
    assert_eq!(value, fe(17));
}

#[test]
fn polynomial_test_polys() {
    let order = 7;
    let f = |v: u64| FieldElement::new(v, order);

    // P(x) = 1 + 2x + 3x^2 (mod 7)
    let first = Polynomial::new(vec![f(1), f(2), f(3)], order);
    // Q(x) = 5 + 4x (mod 7)
    let second = Polynomial::new(vec![f(5), f(4)], order);

    let sum = first.clone().add(&second.clone()).unwrap();
    println!("Sum: {:?}", sum.coeffs);
    assert_eq!(sum.coeffs, vec![f(6), f(6), f(3)]);

    // 5 + 14x + 23x^2 + 12x^3 = 5 + 0x + 2x^2 + 5x^3 (mod 7)
    let product = first.clone().mul(&second.clone()).unwrap();
    println!("Product: {:?}", product.coeffs);
    assert_eq!(product.coeffs, vec![f(5), f(0), f(2), f(5)]);

    // 1 + 2*2 + 3*4 = 17 = 3 (mod 7)
    let value = first.evaluate(f(2)).unwrap();
    println!("P1(2) = {:?}", value);
    assert_eq!(value, f(3));
}

#[test]
fn test_polynomial_add() {
    let first = Polynomial::new(vec![fe(1), fe(2)], P);
    let second = Polynomial::new(vec![fe(3), fe(4)], P);
    let sum = first.add(&second).unwrap();
    assert_eq!(sum.coeffs, vec![fe(4), fe(6)]);
}

#[test]
fn test_add() {
    let first = Polynomial::new(vec![fe(1), fe(2)], P);
    let second = Polynomial::new(vec![fe(3), fe(4)], P);
    let sum = first.add(&second).unwrap();
    let expected = Polynomial::new(vec![fe(4), fe(6)], P);
    assert_eq!(sum, expected);
}

#[test]
fn test_polynomial_mul() {
    let first = Polynomial::new(vec![fe(1), fe(2)], P);
    let second = Polynomial::new(vec![fe(3), fe(4)], P);
    let product = first.mul(&second).unwrap();
    let expected = Polynomial::new(
        vec![
            fe(3),  // 1*3
            fe(10), // 1*4 + 2*3
            fe(8),  // 2*4
        ],
        P,
    );
    assert_eq!(product, expected);
}

#[test]
fn polynomial_test_scalar_mul() {
    let p = Polynomial::new(vec![fe(1), fe(2)], P);
    let scalar = fe(3);
    let result = p.scalar_mul(scalar).unwrap();
    let expected = Polynomial::new(vec![fe(3), fe(6)], P);
    assert_eq!(result, expected);
}

#[test]
fn test_polynomial_divide() {
    // P(x) = 1 + 2x + 3x^2
    let p = Polynomial::new(vec![fe(1), fe(2), fe(3)], P);
    // D(x) = 2 + x
    let d = Polynomial::new(vec![fe(2), fe(1)], P);
    let (q, r) = p.divide(&d).unwrap();
    // 3x^2 + 2x + 1 = (x + 2)(3x - 4) + 9
    assert_eq!(q.coeffs, vec![fe(97), fe(3)]); // -4 = 97 mod 101
    assert_eq!(r.coeffs, vec![fe(9)]);
}

#[test]
fn polynomial_test_polynomial_divide() {
    let p = Polynomial::new(vec![fe(1), fe(2), fe(3)], P);
    let d = Polynomial::new(vec![fe(2), FieldElement::one(P)], P);
    let (q, r) = p.divide(&d).unwrap();
    assert_eq!(q.coeffs, vec![fe(4).negate(), fe(3)]);
    assert_eq!(r.coeffs, vec![fe(9)]);
}

#[test]
fn test_polynomial_degree() {
    let p = Polynomial::new(vec![fe(1), fe(2), fe(3)], P);
    assert_eq!(p.degree(), 2);
    let zero = Polynomial::new(vec![], P);
    assert_eq!(zero.degree(), 0);
}

#[test]
fn test_degree() {
    let p = Polynomial::new(vec![fe(0), fe(2), fe(3)], P);
    assert_eq!(p.degree(), 2);
    // The zero polynomial has degree zero by convention.
    let p_zero = Polynomial::new(vec![fe(0)], P);
    assert_eq!(p_zero.degree(), 0);
}

#[test]
fn test_vanishing_polynomial() {
    let n = 2; // x^2 - 1
    let z = Polynomial::vanishing_polynomial(n, P);
    assert_eq!(
        z.coeffs,
        vec![
            fe(100), // -1 = 100 mod 101
            fe(0),
            fe(1),
        ]
    );
    // Roots at x = 1 and x = -1 (100 mod 101)
    assert_eq!(z.evaluate(fe(1)).unwrap().value, 0);
    assert_eq!(z.evaluate(fe(100)).unwrap().value, 0);
}

#[test]
fn polynomial_test_vanishing_polynomial() {
    let n = 2;
    let z = Polynomial::vanishing_polynomial(n, P);
    assert_eq!(
        z.coeffs,
        vec![FieldElement::one(P).negate(), FieldElement::zero(P), fe(1)]
    );
    assert_eq!(z.evaluate(FieldElement::one(P)).unwrap(), FieldElement::zero(P));
    assert_eq!(
        z.evaluate(FieldElement::one(P).negate()).unwrap(),
        FieldElement::zero(P)
    );
}

#[test]
fn test_lagrange_interpolate() {
    let points = vec![(fe(0), fe(1)), (fe(1), fe(2)), (fe(2), fe(4))];
    let p = Polynomial::lagrange_interpolate(&points).unwrap();
    for (x, y) in points {
        assert_eq!(p.evaluate(x.clone()).unwrap(), y);
    }
}

#[test]
fn polynomial_test_lagrange_interpolate() {
    let points = vec![
        (FieldElement::zero(P), FieldElement::one(P)),
        (FieldElement::one(P), fe(2)),
        (fe(2), fe(4)),
    ];
    let p = Polynomial::lagrange_interpolate(&points).unwrap();
    assert_eq!(residues(&p), vec![1, 51, 51]);
    for (x, y) in points {
        assert_eq!(p.evaluate(x.clone()).unwrap(), y);
    }
}

#[test]
fn vanishing_polynomial_modulo_seven() {
    let z = Polynomial::vanishing_polynomial(2, 7);
    assert_eq!(residues(&z), vec![6, 0, 1]);
    assert_eq!(z.evaluate(FieldElement::new(1, 7)).unwrap().value, 0);
    assert_eq!(z.evaluate(FieldElement::new(6, 7)).unwrap().value, 0);
    assert_ne!(z.evaluate(FieldElement::new(2, 7)).unwrap().value, 0);
}

#[test]
fn vanishing_polynomial_edge_orders() {
    // x^0 - 1 is the zero polynomial, x^1 - 1 is x - 1.
    assert_eq!(residues(&Polynomial::vanishing_polynomial(0, P)), vec![0]);
    assert_eq!(residues(&Polynomial::vanishing_polynomial(1, P)), vec![100, 1]);
    // Modulo 2, -1 = 1.
    assert_eq!(residues(&Polynomial::vanishing_polynomial(3, 2)), vec![1, 0, 0, 1]);
    // It vanishes on the subgroup of order 4 of the units modulo 101:
    // 10^2 = 100 = -1.
    let z = Polynomial::vanishing_polynomial(4, P);
    for x in [1u64, 10, 100, 91] {
        assert_eq!(z.evaluate(fe(x)).unwrap().value, 0);
    }
}

#[test]
fn lagrange_interpolate_modulo_seven() {
    let f = |v: u64| FieldElement::new(v, 7);
    let points = vec![(f(0), f(1)), (f(1), f(2)), (f(2), f(4))];
    let p = Polynomial::lagrange_interpolate(&points).unwrap();
    assert_eq!(residues(&p), vec![1, 4, 4]);
    assert_eq!(p.evaluate(f(0)).unwrap().value, 1);
    assert_eq!(p.evaluate(f(1)).unwrap().value, 2);
    assert_eq!(p.evaluate(f(2)).unwrap().value, 4);
}

#[test]
fn lagrange_interpolate_recovers_a_cubic() {
    let points: Vec<(FieldElement, FieldElement)> =
        [(1u64, 1u64), (2, 8), (3, 27), (4, 64)].iter().map(|(x, y)| (fe(*x), fe(*y))).collect();
    let p = Polynomial::lagrange_interpolate(&points).unwrap();
    assert_eq!(residues(&p), vec![0, 0, 0, 1]);
    let single = Polynomial::lagrange_interpolate(&[(fe(3), fe(5))]).unwrap();
    assert_eq!(residues(&single), vec![5]);
}

#[test]
fn lagrange_interpolate_rejects_a_repeated_abscissa() {
    let points = vec![(fe(1), fe(2)), (fe(5), fe(3)), (fe(1), fe(4))];
    assert_eq!(
        Polynomial::lagrange_interpolate(&points),
        Err(AlgebraError::DivisionByZero)
    );
    let same = vec![(fe(1), fe(2)), (fe(1), fe(2))];
    assert_eq!(
        Polynomial::lagrange_interpolate(&same),
        Err(AlgebraError::DivisionByZero)
    );
}

#[test]
fn lagrange_interpolate_rejects_a_denominator_without_inverse() {
    // Modulo 6 the difference 2 - 0 is no unit.
    let f = |v: u64| FieldElement::new(v, 6);
    let points = vec![(f(0), f(1)), (f(2), f(3))];
    assert_eq!(
        Polynomial::lagrange_interpolate(&points),
        Err(AlgebraError::NonInvertible)
    );
    // 3 - 0 and 0 - 3 multiply to zero with 2 - 0 ... the first denominator
    // (0 - 2)(0 - 3) = 6 = 0 is zero outright.
    let more = vec![(f(0), f(1)), (f(2), f(3)), (f(3), f(3))];
    assert_eq!(
        Polynomial::lagrange_interpolate(&more),
        Err(AlgebraError::DivisionByZero)
    );
}

#[test]
fn lagrange_interpolate_rejects_mixed_moduli() {
    let points = vec![(fe(0), fe(1)), (FieldElement::new(1, 7), fe(2))];
    assert_eq!(
        Polynomial::lagrange_interpolate(&points),
        Err(AlgebraError::ConfigMismatch)
    );
    let ordinate = vec![(fe(0), fe(1)), (fe(1), FieldElement::new(2, 7))];
    assert_eq!(
        Polynomial::lagrange_interpolate(&ordinate),
        Err(AlgebraError::ConfigMismatch)
    );
}

#[test]
fn new_trims_and_reduces() {
    assert_eq!(residues(&poly(&[1, 2, 0, 0], P)), vec![1, 2]);
    assert_eq!(residues(&poly(&[0, 0, 0], P)), vec![0]);
    assert_eq!(residues(&poly(&[], P)), vec![0]);
    // Coefficients of another modulus are taken by their value.
    let mixed = Polynomial::new(
        vec![FieldElement::new(6, 7), FieldElement { value: 205, modulus: 3 }],
        P,
    );
    assert_eq!(mixed.coeffs, vec![fe(6), fe(3)]);
    // A leading coefficient that reduces to zero is trimmed.
    let reduced = Polynomial::new(vec![fe(1), FieldElement { value: 101, modulus: 200 }], P);
    assert_eq!(residues(&reduced), vec![1]);
}

#[test]
fn add_and_sub_pad_and_trim() {
    let a = poly(&[1, 2], P);
    let b = poly(&[1, 2, 3], P);
    assert_eq!(residues(&a.add(&b).unwrap()), vec![2, 4, 3]);
    assert_eq!(residues(&a.sub(&b).unwrap()), vec![0, 0, 98]);
    assert_eq!(residues(&b.sub(&a).unwrap()), vec![0, 0, 3]);
    assert_eq!(residues(&b.sub(&b).unwrap()), vec![0]);
    // The leading coefficients cancel.
    let c = poly(&[5, 0, 98], P);
    assert_eq!(residues(&b.add(&c).unwrap()), vec![6, 2]);
}

#[test]
fn scalar_mul_by_zero_is_the_zero_polynomial() {
    let p = poly(&[1, 2, 3], P);
    assert_eq!(residues(&p.scalar_mul(fe(0)).unwrap()), vec![0]);
    assert_eq!(residues(&p.scalar_mul(fe(100)).unwrap()), vec![100, 99, 98]);
}

#[test]
fn mul_has_the_length_of_the_convolution() {
    let a = poly(&[5, 0, 0, 1], P);
    let b = poly(&[3, 0, 2], P);
    let product = a.mul(&b).unwrap();
    assert_eq!(residues(&product), vec![15, 0, 10, 3, 0, 2]);
    assert_eq!(product.coeffs.len(), a.coeffs.len() + b.coeffs.len() - 1);
    assert_eq!(residues(&a.mul(&poly(&[], P)).unwrap()), vec![0]);
    // Modulo 6 two nonzero polynomials multiply to zero.
    assert_eq!(residues(&poly(&[0, 2], 6).mul(&poly(&[3], 6)).unwrap()), vec![0]);
}

#[test]
fn evaluate_by_horner() {
    let p = poly(&[4, 0, 1, 7], P);
    // 4 + 25 + 7 * 125 = 904 = 96 mod 101
    assert_eq!(p.evaluate(fe(5)).unwrap().value, 96);
    assert_eq!(p.evaluate(fe(0)).unwrap().value, 4);
    assert_eq!(poly(&[], P).evaluate(fe(5)).unwrap().value, 0);
}

#[test]
fn divide_reconstructs_the_dividend() {
    let cases: Vec<(Vec<u64>, Vec<u64>)> = vec![
        (vec![5, 0, 0, 1], vec![3, 0, 2]),
        (vec![1, 2, 3, 4, 5], vec![7, 0, 3]),
        (vec![1, 2, 3], vec![4]),
        (vec![1, 2, 3], vec![1, 4, 0, 5]),
        (vec![0, 0, 1], vec![0, 1]),
        (vec![], vec![1, 1]),
        (vec![7], vec![9]),
    ];
    for (pv, dv) in cases {
        let p = poly(&pv, P);
        let d = poly(&dv, P);
        let (q, r) = p.divide(&d).unwrap();
        let back = q.mul(&d).unwrap().add(&r).unwrap();
        assert_eq!(back, p);
        assert!(residues(&r) == vec![0] || r.degree() < d.degree());
    }
}

#[test]
fn divide_gives_the_expected_quotients() {
    let (q, r) = poly(&[5, 0, 0, 1], P).divide(&poly(&[3, 0, 2], P)).unwrap();
    assert_eq!((residues(&q), residues(&r)), (vec![0, 51], vec![5, 49]));
    let (q, r) = poly(&[1, 2, 3, 4, 5], P).divide(&poly(&[7, 0, 3], P)).unwrap();
    assert_eq!((residues(&q), residues(&r)), (vec![42, 35, 69], vec![10, 60]));
    // A constant divisor divides every coefficient and leaves nothing.
    let (q, r) = poly(&[1, 2, 3], P).divide(&poly(&[4], P)).unwrap();
    assert_eq!((residues(&q), residues(&r)), (vec![76, 51, 26], vec![0]));
    // A dividend of lower degree is the remainder.
    let (q, r) = poly(&[1, 2, 3], P).divide(&poly(&[1, 4, 0, 5], P)).unwrap();
    assert_eq!((residues(&q), residues(&r)), (vec![0], vec![1, 2, 3]));
    let (q, r) = poly(&[1, 2, 3], 7).divide(&poly(&[2, 1], 7)).unwrap();
    assert_eq!((residues(&q), residues(&r)), (vec![3, 3], vec![2]));
}

#[test]
fn divide_by_the_zero_polynomial_fails() {
    let p = poly(&[1, 2, 3], P);
    assert_eq!(p.divide(&poly(&[], P)), Err(AlgebraError::DivisionByZero));
    assert_eq!(p.divide(&poly(&[0], P)), Err(AlgebraError::DivisionByZero));
    assert_eq!(p.divide(&poly(&[0, 0], P)), Err(AlgebraError::DivisionByZero));
}

#[test]
fn divide_needs_an_invertible_leading_coefficient() {
    // Modulo 6 the leading coefficient 2 has no inverse.
    let p = poly(&[1, 2, 3], 6);
    assert_eq!(p.divide(&poly(&[1, 2], 6)), Err(AlgebraError::NonInvertible));
    assert_eq!(p.divide(&poly(&[3], 6)), Err(AlgebraError::NonInvertible));
    // 5 is a unit modulo 6.
    let (q, r) = p.divide(&poly(&[1, 5], 6)).unwrap();
    assert_eq!(q.mul(&poly(&[1, 5], 6)).unwrap().add(&r).unwrap(), p);
}

#[test]
fn polynomial_operations_reject_different_moduli() {
    let a = poly(&[1, 2], 7);
    let b = poly(&[1, 2], 11);
    assert_eq!(a.add(&b), Err(AlgebraError::ConfigMismatch));
    assert_eq!(a.sub(&b), Err(AlgebraError::ConfigMismatch));
    assert_eq!(a.mul(&b), Err(AlgebraError::ConfigMismatch));
    assert_eq!(a.divide(&b), Err(AlgebraError::ConfigMismatch));
    assert_eq!(a.evaluate(FieldElement::new(1, 11)), Err(AlgebraError::ConfigMismatch));
    assert_eq!(a.scalar_mul(FieldElement::new(1, 11)), Err(AlgebraError::ConfigMismatch));
    assert_eq!(
        a.divide_by_linear(FieldElement::new(1, 11)),
        Err(AlgebraError::ConfigMismatch)
    );
}

#[test]
fn divide_by_linear_leaves_the_value() {
    let p = poly(&[4, 0, 1, 7], P);
    let (q, r) = p.divide_by_linear(fe(5)).unwrap();
    assert_eq!(residues(&q), vec![79, 36, 7]);
    assert_eq!(r.value, 96);
    assert_eq!(r, p.evaluate(fe(5)).unwrap());
    // It agrees with long division by x - 5.
    let (q2, r2) = p.divide(&poly(&[96, 1], P)).unwrap();
    assert_eq!(q2, q);
    assert_eq!(residues(&r2), vec![96]);
    // A constant has the zero quotient.
    let (q, r) = poly(&[9], P).divide_by_linear(fe(5)).unwrap();
    assert_eq!((residues(&q), r.value), (vec![0], 9));
}

#[test]
fn lagrange_interpolate_passes_through_its_points_for_odd_moduli() {
    for m in [7u64, 9, 11, 15, 101, 1_000_003] {
        let f = |v: u64| FieldElement::new(v, m);
        let points = vec![(f(0), f(1)), (f(1), f(2)), (f(2), f(4))];
        let p = Polynomial::lagrange_interpolate(&points).unwrap();
        for (x, y) in points {
            assert_eq!(p.evaluate(x).unwrap(), y);
        }
    }
    // Modulo an even number the denominator 2 has no inverse.
    for m in [8u64, 10, 100] {
        let f = |v: u64| FieldElement::new(v, m);
        let points = vec![(f(0), f(1)), (f(1), f(2)), (f(2), f(4))];
        assert_eq!(
            Polynomial::lagrange_interpolate(&points),
            Err(AlgebraError::NonInvertible)
        );
    }
}

#[test]
fn evaluate_respects_the_arithmetic() {
    let a = poly(&[4, 0, 1, 7], P);
    let b = poly(&[3, 100, 5], P);
    for x in [0u64, 1, 2, 50, 100] {
        let ax = a.evaluate(fe(x)).unwrap();
        let bx = b.evaluate(fe(x)).unwrap();
        assert_eq!(a.add(&b).unwrap().evaluate(fe(x)).unwrap(), ax.add(&bx).unwrap());
        assert_eq!(a.sub(&b).unwrap().evaluate(fe(x)).unwrap(), ax.substract(&bx).unwrap());
        assert_eq!(a.mul(&b).unwrap().evaluate(fe(x)).unwrap(), ax.multiply(&bx).unwrap());
        assert_eq!(
            a.scalar_mul(fe(9)).unwrap().evaluate(fe(x)).unwrap(),
            ax.multiply(&fe(9)).unwrap()
        );
    }
}

#[test]
fn vanishing_polynomial_takes_the_value_of_the_power_less_one() {
    for n in [0usize, 1, 2, 5, 17] {
        let z = Polynomial::vanishing_polynomial(n, P);
        for x in [0u64, 1, 2, 10, 100] {
            let expected = fe(x).pow(n as u64).substract(&fe(1)).unwrap();
            assert_eq!(z.evaluate(fe(x)).unwrap(), expected);
        }
    }
}

#[test]
fn products_of_nonzero_polynomials_add_their_degrees() {
    let a = poly(&[4, 0, 1, 7], P);
    let b = poly(&[3, 100, 5], P);
    assert_eq!(a.mul(&b).unwrap().degree(), a.degree() + b.degree());
    assert_eq!(a.mul(&poly(&[2], P)).unwrap().degree(), a.degree());
}

#[test]
fn polynomial_test_add() {
    let first = Polynomial::new(vec![fe(1), fe(2)], P);
    let second = Polynomial::new(vec![fe(3), fe(4)], P);
    let sum = first.add(&second).unwrap();
    let expected = Polynomial::new(vec![fe(4), fe(6)], P);
    assert_eq!(sum, expected);
}

#[test]
fn polynomial_test_polynomial_mul() {
    let first = Polynomial::new(vec![fe(1), fe(2)], P);
    let second = Polynomial::new(vec![fe(3), fe(4)], P);
    let product = first.mul(&second).unwrap();
    let expected = Polynomial::new(vec![fe(3), fe(10), fe(8)], P);
    assert_eq!(product, expected);
}

#[test]
fn polynomial_test_degree() {
    let p = Polynomial::new(vec![fe(0), fe(2), fe(3)], P);
    assert_eq!(p.degree(), 2);
    let p_zero = Polynomial::new(vec![fe(0)], P);
    assert_eq!(p_zero.degree(), 0);
}
