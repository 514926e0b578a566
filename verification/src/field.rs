//! Elements of the integers modulo `m`, and of the quadratic extension
//! obtained by adjoining a square root of `-2`.

use crate::error::AlgebraError;
use crate::gcd::ext_gcd;
use crate::modular::{
    add_mod, div_mod, inv_mod, invertible, lemma_add_neg_cancels, lemma_inv_mod_is_inverse,
    lemma_mod_of_negation, lemma_pow_mod_double, lemma_pow_mod_one, lemma_pow_mod_succ,
    lemma_pow_mod_zero, lemma_quad_inverse, mul_mod, neg_mod, pow_mod, quad_add, quad_div, quad_inv,
    quad_mul, quad_neg, quad_norm, quad_scale, quad_sub, sub_mod,
};
use vstd::arithmetic::div_mod::{
    lemma_add_mod_noop, lemma_mod_add_multiples_vanish, lemma_mul_mod_noop_general, lemma_small_mod,
    lemma_sub_mod_noop_right,
};
use vstd::prelude::*;

verus! {

/// The largest modulus a field element can carry: inverses are computed in
/// signed 64-bit arithmetic.
pub const MAX_MODULUS: u64 = 0x7fff_ffff_ffff_ffff;

/// A residue `value` modulo `modulus`.
#[derive(Clone, Copy, Debug, PartialEq, Eq, Structural)]
pub struct FieldElement {
    pub value: u64,
    pub modulus: u64,
}

impl View for FieldElement {
    type V = int;

    /// The residue as a mathematical integer.
    open spec fn view(&self) -> int {
        self.value as int
    }
}

impl FieldElement {
    /// The modulus is positive and within range, and the value is reduced.
    pub open spec fn wf(&self) -> bool {
        &&& 0 < self.modulus <= MAX_MODULUS
        &&& self.value < self.modulus
    }

    /// Whether both elements are well formed and share a modulus.
    pub open spec fn compatible(&self, other: &Self) -> bool {
        &&& self.wf()
        &&& other.wf()
        &&& self.modulus == other.modulus
    }

    /// The residue of `value` modulo `modulus`.
    pub fn new(value: u64, modulus: u64) -> (r: Self)
        requires
            0 < modulus <= MAX_MODULUS,
        ensures
            r.wf(),
            r.modulus == modulus,
            r@ == value % modulus,
    {
        FieldElement { value: value % modulus, modulus }
    }

    /// The additive identity.
    pub fn zero(modulus: u64) -> (r: Self)
        requires
            0 < modulus <= MAX_MODULUS,
        ensures
            r.wf(),
            r.modulus == modulus,
            r@ == 0,
    {
        Self::new(0, modulus)
    }

    /// The multiplicative identity, which is `0` where the modulus is `1`.
    pub fn one(modulus: u64) -> (r: Self)
        requires
            0 < modulus <= MAX_MODULUS,
        ensures
            r.wf(),
            r.modulus == modulus,
            r@ == 1int % (modulus as int),
    {
        Self::new(1, modulus)
    }

    /// The sum of two elements of one field.
    pub(crate) fn plus(&self, other: &Self) -> (r: Self)
        requires
            self.compatible(other),
        ensures
            r.wf(),
            r.modulus == self.modulus,
            r@ == add_mod(self@, other@, self.modulus as int),
    {
        FieldElement { value: (self.value + other.value) % self.modulus, modulus: self.modulus }
    }

    /// The difference of two elements of one field.
    pub(crate) fn minus(&self, other: &Self) -> (r: Self)
        requires
            self.compatible(other),
        ensures
            r.wf(),
            r.modulus == self.modulus,
            r@ == sub_mod(self@, other@, self.modulus as int),
    {
        proof {
            lemma_mod_add_multiples_vanish(self.value - other.value, self.modulus as int);
        }
        FieldElement {
            value: (self.value + self.modulus - other.value) % self.modulus,
            modulus: self.modulus,
        }
    }

    /// The product of two elements of one field.
    pub(crate) fn times(&self, other: &Self) -> (r: Self)
        requires
            self.compatible(other),
        ensures
            r.wf(),
            r.modulus == self.modulus,
            r@ == mul_mod(self@, other@, self.modulus as int),
    {
        assert(self.value * other.value <= u128::MAX) by (nonlinear_arith)
            requires
                self.value <= u64::MAX,
                other.value <= u64::MAX,
        ;
        let wide: u128 = (self.value as u128) * (other.value as u128);
        let reduced: u128 = wide % (self.modulus as u128);
        FieldElement { value: reduced as u64, modulus: self.modulus }
    }

    /// Addition. Fails with `ConfigMismatch` exactly when the moduli differ.
    pub fn add(&self, other: &Self) -> (r: Result<Self, AlgebraError>)
        requires
            self.wf(),
            other.wf(),
        ensures
            match r {
                Ok(v) => {
                    &&& self.modulus == other.modulus
                    &&& v.wf()
                    &&& v.modulus == self.modulus
                    &&& v@ == add_mod(self@, other@, self.modulus as int)
                },
                Err(e) => self.modulus != other.modulus && e == AlgebraError::ConfigMismatch,
            },
    {
        if self.modulus != other.modulus {
            return Err(AlgebraError::ConfigMismatch);
        }
        Ok(self.plus(other))
    }

    /// Subtraction. Fails with `ConfigMismatch` exactly when the moduli differ.
    pub fn substract(&self, other: &Self) -> (r: Result<Self, AlgebraError>)
        requires
            self.wf(),
            other.wf(),
        ensures
            match r {
                Ok(v) => {
                    &&& self.modulus == other.modulus
                    &&& v.wf()
                    &&& v.modulus == self.modulus
                    &&& v@ == sub_mod(self@, other@, self.modulus as int)
                },
                Err(e) => self.modulus != other.modulus && e == AlgebraError::ConfigMismatch,
            },
    {
        if self.modulus != other.modulus {
            return Err(AlgebraError::ConfigMismatch);
        }
        Ok(self.minus(other))
    }

    /// Multiplication. Fails with `ConfigMismatch` exactly when the moduli
    /// differ.
    pub fn multiply(&self, other: &Self) -> (r: Result<Self, AlgebraError>)
        requires
            self.wf(),
            other.wf(),
        ensures
            match r {
                Ok(v) => {
                    &&& self.modulus == other.modulus
                    &&& v.wf()
                    &&& v.modulus == self.modulus
                    &&& v@ == mul_mod(self@, other@, self.modulus as int)
                },
                Err(e) => self.modulus != other.modulus && e == AlgebraError::ConfigMismatch,
            },
    {
        if self.modulus != other.modulus {
            return Err(AlgebraError::ConfigMismatch);
        }
        Ok(self.times(other))
    }

    /// The additive inverse: added to `self` it gives zero.
    pub fn negate(&self) -> (r: Self)
        requires
            self.wf(),
        ensures
            r.wf(),
            r.modulus == self.modulus,
            r@ == neg_mod(self@, self.modulus as int),
            add_mod(self@, r@, self.modulus as int) == 0,
    {
        proof {
            lemma_mod_add_multiples_vanish(-(self@), self.modulus as int);
            lemma_add_neg_cancels(self@, self.modulus as int);
        }
        FieldElement { value: (self.modulus - self.value) % self.modulus, modulus: self.modulus }
    }

    /// The multiplicative inverse by the extended Euclidean algorithm, or
    /// `None` where the value shares a factor with the modulus.
    pub fn mod_inverse(&self) -> (r: Option<u64>)
        requires
            self.wf(),
        ensures
            r is Some <==> invertible(self@, self.modulus as int),
            r matches Some(v) ==> v < self.modulus && v == inv_mod(self@, self.modulus as int),
    {
        let m: i64 = self.modulus as i64;
        let (s, _t, g) = ext_gcd(self.value as i64, m);
        if g != 1 {
            return None;
        }
        let rem: i64 = s % m;
        proof {
            if s < 0 {
                lemma_mod_of_negation(-s, m as int);
            }
        }
        let reduced: i64 = if rem < 0 {
            rem + m
        } else {
            rem
        };
        Some(reduced as u64)
    }

    /// The multiplicative inverse, with zero standing for "there is none":
    /// a zero result is a failure, never a true inverse.
    pub fn inverse(&self) -> (r: Self)
        requires
            self.wf(),
        ensures
            r.wf(),
            r.modulus == self.modulus,
            r@ == inv_mod(self@, self.modulus as int),
            invertible(self@, self.modulus as int) ==> mul_mod(self@, r@, self.modulus as int)
                == 1int % (self.modulus as int),
            !invertible(self@, self.modulus as int) ==> r@ == 0,
    {
        proof {
            if invertible(self@, self.modulus as int) {
                lemma_inv_mod_is_inverse(self@, self.modulus as int);
            }
        }
        match self.mod_inverse() {
            Some(v) => FieldElement { value: v, modulus: self.modulus },
            None => Self::zero(self.modulus),
        }
    }

    /// The multiplicative inverse, or `NonInvertible` exactly when the value
    /// shares a factor with the modulus.
    pub fn checked_inverse(&self) -> (r: Result<Self, AlgebraError>)
        requires
            self.wf(),
        ensures
            match r {
                Ok(v) => {
                    &&& invertible(self@, self.modulus as int)
                    &&& v.wf()
                    &&& v.modulus == self.modulus
                    &&& v@ == inv_mod(self@, self.modulus as int)
                },
                Err(e) => {
                    &&& !invertible(self@, self.modulus as int)
                    &&& e == AlgebraError::NonInvertible
                },
            },
    {
        match self.mod_inverse() {
            Some(v) => Ok(FieldElement { value: v, modulus: self.modulus }),
            None => Err(AlgebraError::NonInvertible),
        }
    }

    /// The quotient of two elements of one field: `self` times the inverse
    /// of `other`, hence zero where `other` has no inverse.
    pub(crate) fn over(&self, other: &Self) -> (r: Self)
        requires
            self.compatible(other),
        ensures
            r.wf(),
            r.modulus == self.modulus,
            r@ == div_mod(self@, other@, self.modulus as int),
    {
        let inv = other.inverse();
        self.times(&inv)
    }

    /// Division: `self` times the inverse of `other`, hence zero where
    /// `other` has no inverse. Fails with `ConfigMismatch` exactly when the
    /// moduli differ.
    pub fn divide(&self, other: &Self) -> (r: Result<Self, AlgebraError>)
        requires
            self.wf(),
            other.wf(),
        ensures
            match r {
                Ok(v) => {
                    &&& self.modulus == other.modulus
                    &&& v.wf()
                    &&& v.modulus == self.modulus
                    &&& v@ == div_mod(self@, other@, self.modulus as int)
                },
                Err(e) => self.modulus != other.modulus && e == AlgebraError::ConfigMismatch,
            },
    {
        if self.modulus != other.modulus {
            return Err(AlgebraError::ConfigMismatch);
        }
        Ok(self.over(other))
    }

    /// `self` to the power `exp`, by square-and-multiply from the most
    /// significant set bit of `exp` down. The power zero is one, of zero
    /// too, and the power one is `self`.
    pub fn pow(&self, exp: u64) -> (r: Self)
        requires
            self.wf(),
        ensures
            r.wf(),
            r.modulus == self.modulus,
            r@ == pow_mod(self@, exp as nat, self.modulus as int),
            exp == 0 ==> r@ == 1int % (self.modulus as int),
            exp == 1 ==> r@ == self@,
    {
        proof {
            lemma_pow_mod_zero(self@, self.modulus as int);
            lemma_pow_mod_one(self@, self.modulus as int);
            lemma_small_mod(self@ as nat, self.modulus as nat);
        }
        if exp == 0 {
            proof {
                lemma_pow_mod_zero(self@, self.modulus as int);
            }
            return Self::one(self.modulus);
        }
        let ghost a = self@;
        let ghost m = self.modulus as int;
        let mut found: bool = false;
        let mut result: Self = *self;
        let mut n: u64 = 64;
        let ghost mut high: u64 = 0;
        while n > 0
            invariant
                n <= 64,
                self.wf(),
                a == self.value,
                m == self.modulus,
                result.wf(),
                result.modulus == self.modulus,
                n < 64 ==> high == exp >> n,
                n == 64 ==> high == 0,
                !found ==> high == 0 && result == *self,
                found ==> high > 0 && result.value == pow_mod(a, high as nat, m),
            decreases n,
        {
            n = n - 1;
            let bin: u64 = (exp >> n) & 1;
            proof {
                let low = exp >> n;
                assert(bin == 0 || bin == 1) by (bit_vector)
                    requires
                        bin == (exp >> n) & 1,
                ;
                if n == 63 {
                    assert(low == 2 * high + bin) by (bit_vector)
                        requires
                            n == 63,
                            low == exp >> n,
                            bin == (exp >> n) & 1,
                            high == 0,
                    ;
                } else {
                    assert(low == 2 * high + bin) by (bit_vector)
                        requires
                            n < 63,
                            low == exp >> n,
                            bin == (exp >> n) & 1,
                            high == exp >> ((n + 1) as u64),
                    ;
                }
                if found {
                    lemma_pow_mod_double(a, high as nat, m);
                    lemma_pow_mod_succ(a, (2 * high) as nat, m);
                } else {
                    lemma_pow_mod_one(a, m);
                    lemma_small_mod(a as nat, m as nat);
                }
                high = low;
            }
            if found {
                if bin == 1 {
                    result = result.times(&result).times(self);
                } else {
                    result = result.times(&result);
                }
            } else if bin == 1 {
                found = true;
            }
        }
        proof {
            assert(exp >> 0u64 == exp) by (bit_vector);
        }
        result
    }
}

/// An element plus its negation is zero: `a + (-a) = 0`.
pub proof fn law_negation_cancels(a: FieldElement)
    requires
        a.wf(),
    ensures
        add_mod(a@, neg_mod(a@, a.modulus as int), a.modulus as int) == 0,
{
    lemma_add_neg_cancels(a@, a.modulus as int);
}

/// An element that is coprime to the modulus, times its inverse, is one:
/// `a · inverse(a) = 1`.
pub proof fn law_inverse_cancels(a: FieldElement)
    requires
        a.wf(),
        invertible(a@, a.modulus as int),
    ensures
        mul_mod(a@, inv_mod(a@, a.modulus as int), a.modulus as int) == 1int % (a.modulus as int),
{
    lemma_inv_mod_is_inverse(a@, a.modulus as int);
}

/// The power zero of every element, zero included, is one: `a^0 = 1`.
pub proof fn law_pow_zero(a: FieldElement)
    requires
        a.wf(),
    ensures
        pow_mod(a@, 0, a.modulus as int) == 1int % (a.modulus as int),
{
    lemma_pow_mod_zero(a@, a.modulus as int);
}

/// The power one of an element is the element: `a^1 = a`.
pub proof fn law_pow_one(a: FieldElement)
    requires
        a.wf(),
    ensures
        pow_mod(a@, 1, a.modulus as int) == a@,
{
    lemma_pow_mod_one(a@, a.modulus as int);
    lemma_small_mod(a@ as nat, a.modulus as nat);
}

/// An element `a + b·u` of the quadratic extension of a field, where
/// `u² = -2`.
#[derive(Clone, Copy, Debug, PartialEq, Eq, Structural)]
pub struct FieldElementExt {
    /// The part in the base field.
    pub a: FieldElement,
    /// The coefficient of `u`.
    pub b: FieldElement,
}

impl View for FieldElementExt {
    type V = (int, int);

    /// The pair of residues `(a, b)`.
    open spec fn view(&self) -> (int, int) {
        (self.a@, self.b@)
    }
}

impl FieldElementExt {
    /// Both parts are well formed and share a modulus.
    pub open spec fn wf(&self) -> bool {
        self.a.compatible(&self.b)
    }

    /// The modulus of the base field.
    pub open spec fn modulus(&self) -> u64 {
        self.a.modulus
    }

    /// Whether both elements are well formed and share a modulus.
    pub open spec fn compatible(&self, other: &Self) -> bool {
        &&& self.wf()
        &&& other.wf()
        &&& self.modulus() == other.modulus()
    }

    /// The element `a + b·u`. Fails with `ConfigMismatch` exactly when the
    /// two parts have different moduli.
    pub fn new(a: FieldElement, b: FieldElement) -> (r: Result<Self, AlgebraError>)
        requires
            a.wf(),
            b.wf(),
        ensures
            match r {
                Ok(v) => a.modulus == b.modulus && v.a == a && v.b == b && v.wf(),
                Err(e) => a.modulus != b.modulus && e == AlgebraError::ConfigMismatch,
            },
    {
        if a.modulus != b.modulus {
            return Err(AlgebraError::ConfigMismatch);
        }
        Ok(FieldElementExt { a, b })
    }

    /// The base-field element `a`, seen in the extension.
    pub fn from_base(a: FieldElement) -> (r: Self)
        requires
            a.wf(),
        ensures
            r.wf(),
            r.modulus() == a.modulus,
            r@ == (a@, 0int),
    {
        FieldElementExt { a, b: FieldElement::zero(a.modulus) }
    }

    /// The additive identity.
    pub fn zero(modulus: u64) -> (r: Self)
        requires
            0 < modulus <= MAX_MODULUS,
        ensures
            r.wf(),
            r.modulus() == modulus,
            r@ == (0int, 0int),
    {
        FieldElementExt { a: FieldElement::zero(modulus), b: FieldElement::zero(modulus) }
    }

    /// The sum of two elements over one field.
    pub(crate) fn plus(&self, other: &Self) -> (r: Self)
        requires
            self.compatible(other),
        ensures
            r.wf(),
            r.modulus() == self.modulus(),
            r@ == quad_add(self@, other@, self.modulus() as int),
    {
        FieldElementExt { a: self.a.plus(&other.a), b: self.b.plus(&other.b) }
    }

    /// The difference of two elements over one field.
    pub(crate) fn minus(&self, other: &Self) -> (r: Self)
        requires
            self.compatible(other),
        ensures
            r.wf(),
            r.modulus() == self.modulus(),
            r@ == quad_sub(self@, other@, self.modulus() as int),
    {
        FieldElementExt { a: self.a.minus(&other.a), b: self.b.minus(&other.b) }
    }

    /// The product of two elements over one field, with `u² = -2`.
    pub(crate) fn times(&self, other: &Self) -> (r: Self)
        requires
            self.compatible(other),
        ensures
            r.wf(),
            r.modulus() == self.modulus(),
            r@ == quad_mul(self@, other@, self.modulus() as int),
    {
        let ac = self.a.times(&other.a);
        let ad = self.a.times(&other.b);
        let bc = self.b.times(&other.a);
        let bd = self.b.times(&other.b);
        let minus_two = FieldElement::new(2, self.a.modulus).negate();
        let bd_u2 = bd.times(&minus_two);
        proof {
            let m = self.a.modulus as int;
            lemma_sub_mod_noop_right(0, 2, m);
            lemma_mul_mod_noop_general(self.b@ * other.b@, -2, m);
            lemma_add_mod_noop(self.a@ * other.a@, (self.b@ * other.b@) * (-2), m);
            lemma_add_mod_noop(self.a@ * other.b@, self.b@ * other.a@, m);
        }
        FieldElementExt { a: ac.plus(&bd_u2), b: ad.plus(&bc) }
    }

    /// Addition. Fails with `ConfigMismatch` exactly when the moduli differ.
    pub fn add(&self, other: &Self) -> (r: Result<Self, AlgebraError>)
        requires
            self.wf(),
            other.wf(),
        ensures
            match r {
                Ok(v) => {
                    &&& self.modulus() == other.modulus()
                    &&& v.wf()
                    &&& v.modulus() == self.modulus()
                    &&& v@ == quad_add(self@, other@, self.modulus() as int)
                },
                Err(e) => self.modulus() != other.modulus() && e
                    == AlgebraError::ConfigMismatch,
            },
    {
        if self.a.modulus != other.a.modulus {
            return Err(AlgebraError::ConfigMismatch);
        }
        Ok(self.plus(other))
    }

    /// Subtraction. Fails with `ConfigMismatch` exactly when the moduli differ.
    pub fn sub(&self, other: &Self) -> (r: Result<Self, AlgebraError>)
        requires
            self.wf(),
            other.wf(),
        ensures
            match r {
                Ok(v) => {
                    &&& self.modulus() == other.modulus()
                    &&& v.wf()
                    &&& v.modulus() == self.modulus()
                    &&& v@ == quad_sub(self@, other@, self.modulus() as int)
                },
                Err(e) => self.modulus() != other.modulus() && e
                    == AlgebraError::ConfigMismatch,
            },
    {
        if self.a.modulus != other.a.modulus {
            return Err(AlgebraError::ConfigMismatch);
        }
        Ok(self.minus(other))
    }

    /// Multiplication, with `u² = -2`. Fails with `ConfigMismatch` exactly
    /// when the moduli differ.
    pub fn mul(&self, other: &Self) -> (r: Result<Self, AlgebraError>)
        requires
            self.wf(),
            other.wf(),
        ensures
            match r {
                Ok(v) => {
                    &&& self.modulus() == other.modulus()
                    &&& v.wf()
                    &&& v.modulus() == self.modulus()
                    &&& v@ == quad_mul(self@, other@, self.modulus() as int)
                },
                Err(e) => self.modulus() != other.modulus() && e
                    == AlgebraError::ConfigMismatch,
            },
    {
        if self.a.modulus != other.a.modulus {
            return Err(AlgebraError::ConfigMismatch);
        }
        Ok(self.times(other))
    }

    /// Both parts multiplied by an element of the base field.
    pub(crate) fn scaled(&self, scalar: &FieldElement) -> (r: Self)
        requires
            self.wf(),
            scalar.wf(),
            scalar.modulus == self.modulus(),
        ensures
            r.wf(),
            r.modulus() == self.modulus(),
            r@ == quad_scale(self@, scalar@, self.modulus() as int),
    {
        FieldElementExt { a: self.a.times(scalar), b: self.b.times(scalar) }
    }

    /// Multiplication of both parts by an element of the base field. Fails
    /// with `ConfigMismatch` exactly when the moduli differ.
    pub fn scalar_mul(&self, scalar: FieldElement) -> (r: Result<Self, AlgebraError>)
        requires
            self.wf(),
            scalar.wf(),
        ensures
            match r {
                Ok(v) => {
                    &&& self.modulus() == scalar.modulus
                    &&& v.wf()
                    &&& v.modulus() == self.modulus()
                    &&& v@ == quad_scale(self@, scalar@, self.modulus() as int)
                },
                Err(e) => self.modulus() != scalar.modulus && e
                    == AlgebraError::ConfigMismatch,
            },
    {
        if self.a.modulus != scalar.modulus {
            return Err(AlgebraError::ConfigMismatch);
        }
        Ok(self.scaled(&scalar))
    }

    /// The additive inverse.
    pub fn neg(&self) -> (r: Self)
        requires
            self.wf(),
        ensures
            r.wf(),
            r.modulus() == self.modulus(),
            r@ == quad_neg(self@, self.modulus() as int),
    {
        FieldElementExt { a: self.a.negate(), b: self.b.negate() }
    }

    /// The multiplicative inverse: the conjugate over the norm, which times
    /// `self` is one. Where the norm has no inverse the result is zero,
    /// which stands for a failure.
    pub fn inverse(&self) -> (r: Self)
        requires
            self.wf(),
        ensures
            r.wf(),
            r.modulus() == self.modulus(),
            r@ == quad_inv(self@, self.modulus() as int),
            invertible(quad_norm(self@, self.modulus() as int), self.modulus() as int)
                ==> quad_mul(self@, r@, self.modulus() as int) == (
                1int % (self.modulus() as int),
                0int,
            ),
    {
        proof {
            let m = self.a.modulus as int;
            if invertible(quad_norm(self@, m), m) {
                lemma_quad_inverse(self@, m);
            }
        }
        let aa = self.a.times(&self.a);
        let bb = self.b.times(&self.b);
        let two = FieldElement::new(2, self.a.modulus);
        let norm = aa.plus(&bb.times(&two));
        proof {
            let m = self.a.modulus as int;
            lemma_mul_mod_noop_general(self.b@ * self.b@, 2, m);
            lemma_add_mod_noop(self.a@ * self.a@, (self.b@ * self.b@) * 2, m);
        }
        let n = norm.inverse();
        FieldElementExt { a: self.a.times(&n), b: self.b.negate().times(&n) }
    }

    /// The quotient of two elements over one field: `self` times the
    /// inverse of `other`.
    pub(crate) fn over(&self, other: &Self) -> (r: Self)
        requires
            self.compatible(other),
        ensures
            r.wf(),
            r.modulus() == self.modulus(),
            r@ == quad_div(self@, other@, self.modulus() as int),
    {
        let inv = other.inverse();
        self.times(&inv)
    }

    /// Division: `self` times the inverse of `other`. Fails with
    /// `ConfigMismatch` exactly when the moduli differ.
    pub fn div(&self, other: &Self) -> (r: Result<Self, AlgebraError>)
        requires
            self.wf(),
            other.wf(),
        ensures
            match r {
                Ok(v) => {
                    &&& self.modulus() == other.modulus()
                    &&& v.wf()
                    &&& v.modulus() == self.modulus()
                    &&& v@ == quad_div(self@, other@, self.modulus() as int)
                },
                Err(e) => self.modulus() != other.modulus() && e
                    == AlgebraError::ConfigMismatch,
            },
    {
        if self.a.modulus != other.a.modulus {
            return Err(AlgebraError::ConfigMismatch);
        }
        Ok(self.over(other))
    }
}

} // verus!
