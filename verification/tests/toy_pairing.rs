use kzg_algebra::error::AlgebraError;
use kzg_algebra::field::FieldElement;
use kzg_algebra::toy_pairing::Pairing;

const P: u64 = 101;

#[test]
fn pairing_new_multiplies_its_arguments() {
    let p = Pairing::new(FieldElement::new(7, P), FieldElement::new(20, P)).unwrap();
    assert_eq!(p.e, FieldElement::new(39, P));
    assert_eq!(
        Pairing::new(FieldElement::new(7, P), FieldElement::new(20, 7)),
        Err(AlgebraError::ConfigMismatch)
    );
}

#[test]
fn pairing_mul_multiplies_the_values() {
    let a = Pairing { e: FieldElement::new(50, P) };
    let b = Pairing { e: FieldElement::new(3, P) };
    assert_eq!(a.mul(&b).unwrap().e.value, 49);
    let elsewhere = Pairing { e: FieldElement::new(3, 7) };
    assert_eq!(a.mul(&elsewhere), Err(AlgebraError::ConfigMismatch));
}

#[test]
fn pairing_pow_is_the_power_in_the_field() {
    let a = Pairing { e: FieldElement::new(7, P) };
    assert_eq!(a.pow(0).e.value, 1);
    assert_eq!(a.pow(1).e.value, 7);
    assert_eq!(a.pow(13).e.value, 75);
    for n in 0..120u64 {
        assert_eq!(a.pow(n).e, a.e.pow(n));
    }
    assert_eq!(a.pow(u64::MAX).e, a.e.pow(u64::MAX));
    let zero = Pairing { e: FieldElement::new(0, P) };
    assert_eq!(zero.pow(0).e.value, 1);
    assert_eq!(zero.pow(5).e.value, 0);
}
