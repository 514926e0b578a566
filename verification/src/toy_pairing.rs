//! A stand-in for a bilinear pairing.
//!
//! The real thing maps a point of each group to a target group so that
//! `e([a]P, [b]Q) = e(P, Q)^(ab)`. This one multiplies two field values that
//! were read off the points, which is not bilinear: it keeps the place of a
//! pairing in the protocol and certifies nothing.

use crate::error::AlgebraError;
use crate::field::FieldElement;
use crate::modular::{lemma_pow_mod_halve, lemma_pow_mod_zero, mul_mod, pow_mod};
use vstd::arithmetic::div_mod::{lemma_mul_mod_noop_general, lemma_small_mod};
use vstd::prelude::*;

verus! {

/// A value of the placeholder pairing.
#[derive(Clone, Copy, Debug, PartialEq, Eq, Structural)]
pub struct Pairing {
    pub e: FieldElement,
}

impl Pairing {
    /// The value is a well-formed field element.
    pub open spec fn wf(&self) -> bool {
        self.e.wf()
    }

    /// The placeholder pairing of two field values: their product. Fails
    /// with `ConfigMismatch` exactly when the moduli differ.
    pub fn new(a: FieldElement, b: FieldElement) -> (r: Result<Self, AlgebraError>)
        requires
            a.wf(),
            b.wf(),
        ensures
            match r {
                Ok(p) => {
                    &&& a.modulus == b.modulus
                    &&& p.wf()
                    &&& p.e.modulus == a.modulus
                    &&& p.e@ == mul_mod(a@, b@, a.modulus as int)
                },
                Err(e) => a.modulus != b.modulus && e == AlgebraError::ConfigMismatch,
            },
    {
        if a.modulus != b.modulus {
            return Err(AlgebraError::ConfigMismatch);
        }
        Ok(Pairing { e: a.times(&b) })
    }

    /// The product of two pairing values. Fails with `ConfigMismatch`
    /// exactly when the moduli differ.
    pub fn mul(&self, other: &Self) -> (r: Result<Self, AlgebraError>)
        requires
            self.wf(),
            other.wf(),
        ensures
            match r {
                Ok(p) => {
                    &&& self.e.modulus == other.e.modulus
                    &&& p.wf()
                    &&& p.e.modulus == self.e.modulus
                    &&& p.e@ == mul_mod(self.e@, other.e@, self.e.modulus as int)
                },
                Err(e) => self.e.modulus != other.e.modulus && e
                    == AlgebraError::ConfigMismatch,
            },
    {
        if self.e.modulus != other.e.modulus {
            return Err(AlgebraError::ConfigMismatch);
        }
        Ok(Pairing { e: self.e.times(&other.e) })
    }

    /// The `n`-th power, by square-and-multiply from the least significant
    /// bit of `n`.
    pub fn pow(&self, n: u64) -> (r: Self)
        requires
            self.wf(),
        ensures
            r.wf(),
            r.e.modulus == self.e.modulus,
            r.e@ == pow_mod(self.e@, n as nat, self.e.modulus as int),
    {
        let ghost m = self.e.modulus as int;
        let mut result = FieldElement::one(self.e.modulus);
        let mut base = self.e;
        let mut exp: u64 = n;
        proof {
            lemma_mul_mod_noop_general(1, pow_mod(self.e@, n as nat, m), m);
            lemma_small_mod(pow_mod(self.e@, n as nat, m) as nat, m as nat);
        }
        while exp > 0
            invariant
                self.wf(),
                m == self.e.modulus,
                result.wf(),
                base.wf(),
                result.modulus == self.e.modulus,
                base.modulus == self.e.modulus,
                mul_mod(result@, pow_mod(base@, exp as nat, m), m) == pow_mod(self.e@, n as nat, m),
            decreases exp,
        {
            proof {
                assert((exp & 1 == 1) == (exp % 2 == 1)) by (bit_vector);
                assert(exp >> 1 == exp / 2) by (bit_vector);
                lemma_pow_mod_halve(result@, base@, exp as nat, m);
            }
            if exp & 1 == 1 {
                result = result.times(&base);
            }
            base = base.times(&base);
            exp = exp >> 1;
        }
        proof {
            lemma_pow_mod_zero(base@, m);
            lemma_mul_mod_noop_general(result@, 1, m);
            lemma_small_mod(result@ as nat, m as nat);
        }
        Pairing { e: result }
    }
}

} // verus!
