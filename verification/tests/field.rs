use kzg_algebra::error::AlgebraError;
use kzg_algebra::field::{FieldElement, FieldElementExt, MAX_MODULUS};
use kzg_algebra::gcd::ext_gcd;

const P: u64 = 101;

#[test]
fn test_negate() {
    let x: FieldElement = FieldElement { value: 3, modulus: P };
    let y: FieldElement = x.negate().add(&x).unwrap();
    println!("{:?}", y);
    assert_eq!(y.value, 0);
}

#[test]
fn field_test_negate() {
    let x: FieldElement = FieldElement { value: 3, modulus: 14 };
    let y: FieldElement = x.negate().add(&x).unwrap();
    println!("{:?}", y);
    assert_eq!(y.value, 0);
}

#[test]
fn test_inverse_basic() {
    // Inverse of 1 is 1.
    let a = FieldElement::new(1, P);
    let inv_a = a.inverse();
    println!("Inverse: {:?}", inv_a);
    assert_eq!(inv_a.value, 1);
    assert_eq!(a.multiply(&inv_a).unwrap().value, 1);

    // 2 * 51 = 102 = 1 mod 101.
    let b = FieldElement::new(2, P);
    let inv_b = b.inverse();
    assert_eq!(inv_b.value, 51);
    assert_eq!(b.multiply(&inv_b).unwrap().value, 1);

    // 3 * 34 = 102 = 1 mod 101.
    let c = FieldElement::new(3, P);
    let inv_c = c.inverse();
    assert_eq!(inv_c.value, 34);
    assert_eq!(c.multiply(&inv_c).unwrap().value, 1);
}

#[test]
fn test_pow_basic() {
    let a = FieldElement::new(3, P);
    let pow_0 = a.pow(0);
    assert_eq!(pow_0.value, 1);

    let pow_1 = a.pow(1);
    assert_eq!(pow_1.value, 3);

    let pow_2 = a.pow(2);
    assert_eq!(pow_2.value, 9);
    assert_eq!(pow_2, a.multiply(&a).unwrap());

    let pow_3 = a.pow(3);
    assert_eq!(pow_3.value, 27);
    assert_eq!(
        pow_3,
        a.clone()
            .multiply(&a.clone())
            .unwrap()
            .multiply(&a.clone())
            .unwrap()
    );
}

#[test]
fn test_pow_larger_exponent() {
    // 2^8 = 256 = 54 mod 101.
    let b = FieldElement::new(2, P);
    let pow_8 = b.pow(8);
    assert_eq!(pow_8.value, 54);

    let b2 = b.multiply(&b).unwrap();
    let b4 = b2.multiply(&b2).unwrap();
    let b8 = b4.multiply(&b4).unwrap();
    assert_eq!(b8.value, 54);
}

#[test]
fn test_pow_zero_base() {
    let zero = FieldElement::new(0, P);
    let pow_0 = zero.pow(0);
    assert_eq!(pow_0.value, 1);

    let pow_1 = zero.pow(1);
    assert_eq!(pow_1.value, 0);

    let pow_2 = zero.pow(2);
    assert_eq!(pow_2.value, 0);
}

#[test]
fn test_field_ext_operations() {
    let a = FieldElementExt::new(FieldElement::new(50, P), FieldElement::new(60, P)).unwrap();
    let b = FieldElementExt::new(FieldElement::new(30, P), FieldElement::new(40, P)).unwrap();
    let sum = a.add(&b).unwrap();
    assert_eq!(sum.a.value, 80);
    assert_eq!(sum.b.value, 100);
    let prod = a.mul(&b).unwrap();
    // (50 + 60u)(30 + 40u) = 1500 + 3800u + 2400u^2, with u^2 = -2:
    // 1500 - 4800 = -3300 = 33 and 3800 = 63 mod 101.
    assert_eq!(prod.a.value, 33);
    assert_eq!(prod.b.value, 63);
}

#[test]
fn test_field_element_add() {
    let a = FieldElement::new(5, P);
    let b = FieldElement::new(10, P);
    let c = a.add(&b).unwrap();
    assert_eq!(c.value, 15);
}

#[test]
fn test_field_element_mul() {
    let a = FieldElement::new(3, P);
    let b = FieldElement::new(4, P);
    let c = a.multiply(&b).unwrap();
    assert_eq!(c.value, 12);
}

#[test]
fn test_field_element_pow() {
    let a = FieldElement::new(3, P);
    let c = a.pow(3);
    assert_eq!(c.value, 27);
}

#[test]
fn test_field_element_inverse() {
    let a = FieldElement::new(5, P);
    let inv = a.inverse();
    assert_eq!(a.multiply(&inv).unwrap(), FieldElement::one(P));
}

#[test]
fn new_reduces_the_value() {
    assert_eq!(FieldElement::new(205, P).value, 3);
    assert_eq!(FieldElement::new(101, P).value, 0);
    assert_eq!(FieldElement::new(u64::MAX, 7).value, u64::MAX % 7);
    assert_eq!(FieldElement::new(5, P).modulus, P);
}

#[test]
fn zero_and_one() {
    assert_eq!(FieldElement::zero(P), FieldElement { value: 0, modulus: P });
    assert_eq!(FieldElement::one(P), FieldElement { value: 1, modulus: P });
    // Modulo one there is a single residue.
    assert_eq!(FieldElement::one(1).value, 0);
}

#[test]
fn add_wraps_around_the_modulus() {
    let a = FieldElement::new(100, P);
    let b = FieldElement::new(5, P);
    assert_eq!(a.add(&b).unwrap().value, 4);
}

#[test]
fn substract_wraps_below_zero() {
    let a = FieldElement::new(3, P);
    let b = FieldElement::new(5, P);
    assert_eq!(a.substract(&b).unwrap().value, 99);
    assert_eq!(b.substract(&a).unwrap().value, 2);
    assert_eq!(a.substract(&a).unwrap().value, 0);
}

#[test]
fn multiply_does_not_overflow_near_the_largest_modulus() {
    let m = MAX_MODULUS;
    let a = FieldElement::new(m - 1, m);
    // (m - 1)^2 = 1 mod m, and (m - 1) + (m - 1) = m - 2 mod m.
    assert_eq!(a.multiply(&a).unwrap().value, 1);
    assert_eq!(a.add(&a).unwrap().value, m - 2);
    assert_eq!(a.negate().value, 1);
    assert_eq!(a.inverse().value, m - 1);
}

#[test]
fn binary_operations_reject_different_moduli() {
    let a = FieldElement::new(3, 7);
    let b = FieldElement::new(3, 11);
    assert_eq!(a.add(&b), Err(AlgebraError::ConfigMismatch));
    assert_eq!(a.substract(&b), Err(AlgebraError::ConfigMismatch));
    assert_eq!(a.multiply(&b), Err(AlgebraError::ConfigMismatch));
    assert_eq!(a.divide(&b), Err(AlgebraError::ConfigMismatch));
}

#[test]
fn negation_cancels_for_every_residue() {
    for m in [1u64, 2, 7, 14, 101] {
        for v in 0..m {
            let a = FieldElement::new(v, m);
            assert_eq!(a.add(&a.negate()).unwrap().value, 0);
        }
    }
}

#[test]
fn inverse_cancels_exactly_for_coprime_residues() {
    for m in [2u64, 7, 14, 15, 101] {
        for v in 0..m {
            let a = FieldElement::new(v, m);
            let (_, _, g) = ext_gcd(v as i64, m as i64);
            let inv = a.inverse();
            if g == 1 {
                assert_eq!(a.multiply(&inv).unwrap().value, 1);
                assert_eq!(a.mod_inverse(), Some(inv.value));
                assert_eq!(a.checked_inverse(), Ok(inv));
            } else {
                assert_eq!(inv.value, 0);
                assert_eq!(a.mod_inverse(), None);
                assert_eq!(a.checked_inverse(), Err(AlgebraError::NonInvertible));
            }
        }
    }
}

#[test]
fn inverse_of_a_zero_divisor_is_the_zero_sentinel() {
    // gcd(5, 15) = 5.
    let d = FieldElement::new(5, 15);
    assert_eq!(d.inverse().value, 0);
    let zero = FieldElement::new(0, 7);
    assert_eq!(zero.inverse().value, 0);
}

#[test]
fn divide_multiplies_by_the_inverse() {
    let a = FieldElement::new(10, P);
    let b = FieldElement::new(4, P);
    // 4 * 76 = 304 = 1 mod 101, and 10 * 76 = 760 = 53 mod 101.
    assert_eq!(b.inverse().value, 76);
    assert_eq!(a.divide(&b).unwrap().value, 53);
    // Dividing by a value without inverse gives the zero sentinel.
    let c = FieldElement::new(7, 15);
    let d = FieldElement::new(5, 15);
    assert_eq!(c.divide(&d).unwrap().value, 0);
}

#[test]
fn pow_matches_repeated_multiplication() {
    let a = FieldElement::new(7, P);
    let mut expected = FieldElement::one(P);
    for e in 0..40u64 {
        assert_eq!(a.pow(e), expected);
        expected = expected.multiply(&a).unwrap();
    }
    // Fermat: a^(p-1) = 1, a^p = a.
    assert_eq!(a.pow(100).value, 1);
    assert_eq!(a.pow(101).value, 7);
    assert_eq!(FieldElement::new(2, P).pow(u64::MAX).value, {
        // 2 has order 100 modulo 101 and u64::MAX = 15 mod 100.
        let mut v = 1u64;
        for _ in 0..15 {
            v = v * 2 % P;
        }
        v
    });
}

#[test]
fn pow_one_is_the_element() {
    for v in 0..P {
        assert_eq!(FieldElement::new(v, P).pow(1).value, v);
        assert_eq!(FieldElement::new(v, P).pow(0).value, 1);
    }
}

#[test]
fn extension_new_rejects_different_moduli() {
    let r = FieldElementExt::new(FieldElement::new(1, 7), FieldElement::new(1, 11));
    assert_eq!(r, Err(AlgebraError::ConfigMismatch));
}

#[test]
fn extension_arithmetic() {
    let a = FieldElementExt::new(FieldElement::new(50, P), FieldElement::new(60, P)).unwrap();
    let b = FieldElementExt::new(FieldElement::new(30, P), FieldElement::new(40, P)).unwrap();
    let diff = a.sub(&b).unwrap();
    assert_eq!((diff.a.value, diff.b.value), (20, 20));
    let back = b.sub(&a).unwrap();
    assert_eq!((back.a.value, back.b.value), (81, 81));
    let neg = a.neg();
    assert_eq!((neg.a.value, neg.b.value), (51, 41));
    let scaled = a.scalar_mul(FieldElement::new(3, P)).unwrap();
    assert_eq!((scaled.a.value, scaled.b.value), (49, 79));
    let zero = FieldElementExt::zero(P);
    assert_eq!(a.add(&zero).unwrap(), a);
    let lifted = FieldElementExt::from_base(FieldElement::new(9, P));
    assert_eq!((lifted.a.value, lifted.b.value), (9, 0));
    // u * u = -2.
    let u = FieldElementExt::new(FieldElement::zero(P), FieldElement::one(P)).unwrap();
    let uu = u.mul(&u).unwrap();
    assert_eq!((uu.a.value, uu.b.value), (99, 0));
}

#[test]
fn extension_inverse_and_division() {
    let one = FieldElementExt::from_base(FieldElement::one(P));
    for (x, y) in [(50u64, 60u64), (0, 31), (36, 0), (1, 1), (100, 100)] {
        let a = FieldElementExt::new(FieldElement::new(x, P), FieldElement::new(y, P)).unwrap();
        let inv = a.inverse();
        assert_eq!(a.mul(&inv).unwrap(), one);
        assert_eq!(a.div(&a).unwrap(), one);
    }
    // Zero has no inverse: the sentinel is zero.
    let zero = FieldElementExt::zero(P);
    assert_eq!(zero.inverse(), zero);
    // 1 / u = -u / 2 = 50u, since 2 * 51 = 1 and -51 = 50.
    let u = FieldElementExt::new(FieldElement::zero(P), FieldElement::one(P)).unwrap();
    let inv_u = u.inverse();
    assert_eq!((inv_u.a.value, inv_u.b.value), (0, 50));
}

#[test]
fn extension_operations_reject_different_moduli() {
    let a = FieldElementExt::from_base(FieldElement::new(1, 7));
    let b = FieldElementExt::from_base(FieldElement::new(1, 11));
    assert_eq!(a.add(&b), Err(AlgebraError::ConfigMismatch));
    assert_eq!(a.sub(&b), Err(AlgebraError::ConfigMismatch));
    assert_eq!(a.mul(&b), Err(AlgebraError::ConfigMismatch));
    assert_eq!(a.div(&b), Err(AlgebraError::ConfigMismatch));
    assert_eq!(
        a.scalar_mul(FieldElement::new(1, 11)),
        Err(AlgebraError::ConfigMismatch)
    );
}

#[test]
fn ext_gcd_gives_bezout_coefficients() {
    assert_eq!(ext_gcd(240, 46), (-9, 47, 2));
    assert_eq!(ext_gcd(2, 101), (-50, 1, 1));
    assert_eq!(ext_gcd(0, 5), (0, 1, 5));
    assert_eq!(ext_gcd(5, 0), (1, 0, 5));
    assert_eq!(ext_gcd(0, 0), (1, 0, 0));
    for a in 0..60i64 {
        for b in 0..60i64 {
            let (s, t, g) = ext_gcd(a, b);
            assert_eq!(s * a + t * b, g);
            if g != 0 {
                assert_eq!(a % g, 0);
                assert_eq!(b % g, 0);
            }
        }
    }
    let big = i64::MAX;
    let (s, t, g) = ext_gcd(big, big - 1);
    assert_eq!(g, 1);
    assert_eq!((s as i128) * (big as i128) + (t as i128) * ((big - 1) as i128), 1);
}

#[test]
fn ext_gcd_on_negative_numbers() {
    // Quotients round towards zero, so the gcd can come out negative.
    assert_eq!(ext_gcd(-240, 46), (9, 47, 2));
    assert_eq!(ext_gcd(240, -46), (9, 47, -2));
    assert_eq!(ext_gcd(-240, -46), (-9, 47, -2));
    assert_eq!(ext_gcd(-7, 0), (1, 0, -7));
    assert_eq!(ext_gcd(0, -7), (0, 1, -7));
    for a in -40..40i64 {
        for b in -40..40i64 {
            let (s, t, g) = ext_gcd(a, b);
            assert_eq!(s * a + t * b, g);
            let (_, _, positive) = ext_gcd(a.abs(), b.abs());
            assert_eq!(g.abs(), positive);
        }
    }
    let big = i64::MAX;
    let (s, t, g) = ext_gcd(-big, big - 1);
    assert_eq!((s as i128) * (-big as i128) + (t as i128) * ((big - 1) as i128), g as i128);
    assert_eq!(g.abs(), 1);
    assert_eq!(ext_gcd(big, -big), (0, 1, -big));
}

#[test]
fn ext_gcd_with_a_zero_second_argument() {
    for a in [i64::MIN, i64::MIN + 1, -5, 0, 5, i64::MAX] {
        assert_eq!(ext_gcd(a, 0), (1, 0, a));
    }
}
