//! Dense polynomials over the integers modulo `m`.

use crate::error::AlgebraError;
use crate::field::{FieldElement, MAX_MODULUS};
use crate::modular::{
    add_mod, invertible, is_prime, lemma_divide_then_multiply, lemma_elimination_step,
    lemma_horner_step, lemma_inv_mod_is_inverse, lemma_lead_cancels, mul_mod, neg_mod, sub_mod,
};
use crate::poly_laws::{
    lemma_division_unique, lemma_lagrange_interpolates, lemma_linear_quotient,
    lemma_product_length, lemma_vanishing_value,
};
use crate::poly_math::{
    canonical, coeff, conv, conv_upto, horner, is_zero, lagrange_denominator, lagrange_numerator,
    lagrange_sum, lagrange_term_defined, lemma_conv_all_zero, lemma_conv_beyond,
    lemma_conv_constant, lemma_conv_update, lemma_division_identity, lemma_repeated_abscissa,
    lemma_trim_len, linear_factor, linear_quotient, poly_add, poly_eval, poly_mul, poly_scale,
    poly_sub, reduce, trim, vanishing, vanishing_coeffs,
};
use vstd::arithmetic::div_mod::{
    lemma_add_mod_noop, lemma_add_mod_noop_right, lemma_mod_twice, lemma_small_mod,
    lemma_sub_mod_noop_right,
};
use vstd::arithmetic::power::pow;
use vstd::prelude::*;

verus! {

/// The residues that a sequence of field elements holds.
pub open spec fn values(v: Seq<FieldElement>) -> Seq<int> {
    Seq::new(v.len(), |i: int| v[i]@)
}

/// Every element is well formed and has the modulus `m`.
pub open spec fn all_in_field(v: Seq<FieldElement>, m: u64) -> bool {
    forall|i: int| 0 <= i < v.len() ==> (#[trigger] v[i]).wf() && v[i].modulus == m
}

/// A polynomial in dense form: `coeffs[i]` is the coefficient of `x^i`, so
/// `[1, 2, 3]` stands for `1 + 2x + 3x²`.
#[derive(Clone, Debug, PartialEq, Eq)]
pub struct Polynomial {
    pub coeffs: Vec<FieldElement>,
}

impl View for Polynomial {
    type V = Seq<int>;

    /// The coefficients as residues, lowest degree first.
    open spec fn view(&self) -> Seq<int> {
        values(self.coeffs@)
    }
}

impl Polynomial {
    /// The modulus of the coefficients.
    pub open spec fn modulus(&self) -> u64 {
        self.coeffs@[0].modulus
    }

    /// There is at least one coefficient, all coefficients are well formed
    /// and share one modulus, and the last one is nonzero unless it is the
    /// only one: the zero polynomial is `[0]`.
    pub open spec fn wf(&self) -> bool {
        &&& self.coeffs@.len() >= 1
        &&& all_in_field(self.coeffs@, self.modulus())
        &&& canonical(self@, self.modulus() as int)
    }

    /// Whether both polynomials are well formed and share a modulus.
    pub open spec fn compatible(&self, other: &Self) -> bool {
        &&& self.wf()
        &&& other.wf()
        &&& self.modulus() == other.modulus()
    }

    /// Brings a vector of elements of one field to canonical form.
    fn normalized(v: Vec<FieldElement>, modulus: u64) -> (r: Self)
        requires
            0 < modulus <= MAX_MODULUS,
            all_in_field(v@, modulus),
        ensures
            r.wf(),
            r.modulus() == modulus,
            r@ == trim(values(v@)),
    {
        let mut v = v;
        let ghost given = v@;
        if v.len() == 0 {
            v.push(FieldElement::zero(modulus));
            assert(values(v@) =~= seq![0int]);
            assert(values(given) =~= Seq::<int>::empty());
            return Polynomial { coeffs: v };
        }
        while v.len() > 1 && v[v.len() - 1].value == 0
            invariant
                v.len() >= 1,
                all_in_field(v@, modulus),
                trim(values(v@)) == trim(values(given)),
            decreases v.len(),
        {
            proof {
                assert(values(v@.drop_last()) =~= values(v@).drop_last());
            }
            v.pop();
        }
        proof {
            assert(trim(values(v@)) == values(v@));
            assert(v@[0].wf());
        }
        Polynomial { coeffs: v }
    }

    /// The polynomial with the given coefficients, each taken modulo
    /// `modulus`, in canonical form. No coefficients give the zero
    /// polynomial.
    pub fn new(coeffs: Vec<FieldElement>, modulus: u64) -> (r: Self)
        requires
            0 < modulus <= MAX_MODULUS,
        ensures
            r.wf(),
            r.modulus() == modulus,
            r@ == trim(reduce(values(coeffs@), modulus as int)),
    {
        let mut reduced: Vec<FieldElement> = Vec::new();
        let mut i: usize = 0;
        while i < coeffs.len()
            invariant
                0 < modulus <= MAX_MODULUS,
                i <= coeffs.len(),
                reduced.len() == i,
                all_in_field(reduced@, modulus),
                forall|k: int| 0 <= k < i ==> (#[trigger] reduced@[k])@ == coeffs@[k]@ % (modulus as int),
            decreases coeffs.len() - i,
        {
            reduced.push(FieldElement::new(coeffs[i].value, modulus));
            i = i + 1;
        }
        assert(values(reduced@) =~= reduce(values(coeffs@), modulus as int));
        Self::normalized(reduced, modulus)
    }

    /// The degree: the index of the last coefficient. The zero polynomial
    /// has degree zero.
    pub fn degree(&self) -> (d: usize)
        requires
            self.wf(),
        ensures
            d == self@.len() - 1,
    {
        self.coeffs.len() - 1
    }

    /// The sum of two polynomials over one field.
    pub(crate) fn plus(&self, other: &Self) -> (r: Self)
        requires
            self.compatible(other),
        ensures
            r.wf(),
            r.modulus() == self.modulus(),
            r@ == poly_add(self@, other@, self.modulus() as int),
    {
        let n: usize = self.coeffs.len();
        let k: usize = other.coeffs.len();
        let max_len: usize = if n >= k {
            n
        } else {
            k
        };
        let modulus: u64 = self.coeffs[0].modulus;
        let zero = FieldElement::zero(modulus);
        let mut result: Vec<FieldElement> = Vec::with_capacity(max_len);
        let mut i: usize = 0;
        while i < max_len
            invariant
                self.compatible(other),
                n == self.coeffs@.len(),
                k == other.coeffs@.len(),
                max_len == if n >= k {
                    n
                } else {
                    k
                },
                modulus == self.modulus(),
                zero.wf(),
                zero.modulus == modulus,
                zero@ == 0,
                i <= max_len,
                result@.len() == i,
                all_in_field(result@, modulus),
                forall|j: int|
                    0 <= j < i ==> (#[trigger] result@[j])@ == add_mod(
                        coeff(self@, j),
                        coeff(other@, j),
                        modulus as int,
                    ),
            decreases max_len - i,
        {
            let a = if i < n {
                self.coeffs[i]
            } else {
                zero
            };
            let b = if i < k {
                other.coeffs[i]
            } else {
                zero
            };
            result.push(a.plus(&b));
            i = i + 1;
        }
        assert(values(result@) =~= Seq::new(
            max_len as nat,
            |j: int| add_mod(coeff(self@, j), coeff(other@, j), modulus as int),
        ));
        Self::normalized(result, modulus)
    }

    /// The difference of two polynomials over one field.
    pub(crate) fn minus(&self, other: &Self) -> (r: Self)
        requires
            self.compatible(other),
        ensures
            r.wf(),
            r.modulus() == self.modulus(),
            r@ == poly_sub(self@, other@, self.modulus() as int),
    {
        let n: usize = self.coeffs.len();
        let k: usize = other.coeffs.len();
        let max_len: usize = if n >= k {
            n
        } else {
            k
        };
        let modulus: u64 = self.coeffs[0].modulus;
        let zero = FieldElement::zero(modulus);
        let mut result: Vec<FieldElement> = Vec::with_capacity(max_len);
        let mut i: usize = 0;
        while i < max_len
            invariant
                self.compatible(other),
                n == self.coeffs@.len(),
                k == other.coeffs@.len(),
                max_len == if n >= k {
                    n
                } else {
                    k
                },
                modulus == self.modulus(),
                zero.wf(),
                zero.modulus == modulus,
                zero@ == 0,
                i <= max_len,
                result@.len() == i,
                all_in_field(result@, modulus),
                forall|j: int|
                    0 <= j < i ==> (#[trigger] result@[j])@ == sub_mod(
                        coeff(self@, j),
                        coeff(other@, j),
                        modulus as int,
                    ),
            decreases max_len - i,
        {
            let a = if i < n {
                self.coeffs[i]
            } else {
                zero
            };
            let b = if i < k {
                other.coeffs[i]
            } else {
                zero
            };
            result.push(a.minus(&b));
            i = i + 1;
        }
        assert(values(result@) =~= Seq::new(
            max_len as nat,
            |j: int| sub_mod(coeff(self@, j), coeff(other@, j), modulus as int),
        ));
        Self::normalized(result, modulus)
    }

    /// Every coefficient multiplied by a scalar of the same field.
    pub(crate) fn scaled(&self, scalar: &FieldElement) -> (r: Self)
        requires
            self.wf(),
            scalar.wf(),
            scalar.modulus == self.modulus(),
        ensures
            r.wf(),
            r.modulus() == self.modulus(),
            r@ == poly_scale(self@, scalar@, self.modulus() as int),
    {
        let n: usize = self.coeffs.len();
        let modulus: u64 = self.coeffs[0].modulus;
        let mut result: Vec<FieldElement> = Vec::with_capacity(n);
        let mut i: usize = 0;
        while i < n
            invariant
                self.wf(),
                scalar.wf(),
                scalar.modulus == self.modulus(),
                n == self.coeffs@.len(),
                modulus == self.modulus(),
                i <= n,
                result@.len() == i,
                all_in_field(result@, modulus),
                forall|j: int|
                    0 <= j < i ==> (#[trigger] result@[j])@ == mul_mod(
                        self@[j],
                        scalar@,
                        modulus as int,
                    ),
            decreases n - i,
        {
            result.push(self.coeffs[i].times(scalar));
            i = i + 1;
        }
        assert(values(result@) =~= Seq::new(
            n as nat,
            |j: int| mul_mod(self@[j], scalar@, modulus as int),
        ));
        Self::normalized(result, modulus)
    }

    /// The sum: pointwise, zero-padded to the longer length. Fails with
    /// `ConfigMismatch` exactly when the moduli differ.
    pub fn add(&self, other: &Self) -> (r: Result<Self, AlgebraError>)
        requires
            self.wf(),
            other.wf(),
        ensures
            match r {
                Ok(p) => {
                    &&& self.modulus() == other.modulus()
                    &&& p.wf()
                    &&& p.modulus() == self.modulus()
                    &&& p@ == poly_add(self@, other@, self.modulus() as int)
                },
                Err(e) => self.modulus() != other.modulus() && e
                    == AlgebraError::ConfigMismatch,
            },
    {
        if self.coeffs[0].modulus != other.coeffs[0].modulus {
            return Err(AlgebraError::ConfigMismatch);
        }
        Ok(self.plus(other))
    }

    /// The difference: pointwise, zero-padded to the longer length. Fails
    /// with `ConfigMismatch` exactly when the moduli differ.
    pub fn sub(&self, other: &Self) -> (r: Result<Self, AlgebraError>)
        requires
            self.wf(),
            other.wf(),
        ensures
            match r {
                Ok(p) => {
                    &&& self.modulus() == other.modulus()
                    &&& p.wf()
                    &&& p.modulus() == self.modulus()
                    &&& p@ == poly_sub(self@, other@, self.modulus() as int)
                },
                Err(e) => self.modulus() != other.modulus() && e
                    == AlgebraError::ConfigMismatch,
            },
    {
        if self.coeffs[0].modulus != other.coeffs[0].modulus {
            return Err(AlgebraError::ConfigMismatch);
        }
        Ok(self.minus(other))
    }

    /// Every coefficient multiplied by `scalar`. Fails with `ConfigMismatch`
    /// exactly when the moduli differ.
    pub fn scalar_mul(&self, scalar: FieldElement) -> (r: Result<Self, AlgebraError>)
        requires
            self.wf(),
            scalar.wf(),
        ensures
            match r {
                Ok(p) => {
                    &&& self.modulus() == scalar.modulus
                    &&& p.wf()
                    &&& p.modulus() == self.modulus()
                    &&& p@ == poly_scale(self@, scalar@, self.modulus() as int)
                },
                Err(e) => self.modulus() != scalar.modulus && e
                    == AlgebraError::ConfigMismatch,
            },
    {
        if self.coeffs[0].modulus != scalar.modulus {
            return Err(AlgebraError::ConfigMismatch);
        }
        Ok(self.scaled(&scalar))
    }

    /// The value at a point of the same field, by Horner's rule.
    pub(crate) fn value_at(&self, x: &FieldElement) -> (r: FieldElement)
        requires
            self.wf(),
            x.wf(),
            x.modulus == self.modulus(),
        ensures
            r.wf(),
            r.modulus == self.modulus(),
            r@ == poly_eval(self@, x@, self.modulus() as int),
    {
        let modulus: u64 = self.coeffs[0].modulus;
        let mut acc = FieldElement::zero(modulus);
        let mut i: usize = self.coeffs.len();
        proof {
            lemma_small_mod(0, modulus as nat);
        }
        while i > 0
            invariant
                self.wf(),
                x.wf(),
                x.modulus == self.modulus(),
                modulus == self.modulus(),
                i <= self.coeffs@.len(),
                acc.wf(),
                acc.modulus == modulus,
                acc@ == horner(self@, x@, i as int) % (modulus as int),
            decreases i,
        {
            i = i - 1;
            proof {
                lemma_horner_step(horner(self@, x@, i + 1), x@, self@[i as int], modulus as int);
            }
            acc = acc.times(x).plus(&self.coeffs[i]);
        }
        acc
    }

    /// The value at `x`, by Horner's rule from the highest coefficient
    /// down. Fails with `ConfigMismatch` exactly when the moduli differ.
    pub fn evaluate(&self, x: FieldElement) -> (r: Result<FieldElement, AlgebraError>)
        requires
            self.wf(),
            x.wf(),
        ensures
            match r {
                Ok(v) => {
                    &&& self.modulus() == x.modulus
                    &&& v.wf()
                    &&& v.modulus == self.modulus()
                    &&& v@ == poly_eval(self@, x@, self.modulus() as int)
                },
                Err(e) => self.modulus() != x.modulus && e == AlgebraError::ConfigMismatch,
            },
    {
        if self.coeffs[0].modulus != x.modulus {
            return Err(AlgebraError::ConfigMismatch);
        }
        Ok(self.value_at(&x))
    }

    /// `len` zero coefficients.
    fn zeros(len: usize, modulus: u64) -> (v: Vec<FieldElement>)
        requires
            0 < modulus <= MAX_MODULUS,
        ensures
            v@.len() == len,
            all_in_field(v@, modulus),
            forall|i: int| 0 <= i < len ==> (#[trigger] v@[i])@ == 0,
    {
        let zero = FieldElement::zero(modulus);
        let mut v: Vec<FieldElement> = Vec::with_capacity(len);
        let mut i: usize = 0;
        while i < len
            invariant
                i <= len,
                v@.len() == i,
                zero.wf(),
                zero.modulus == modulus,
                zero@ == 0,
                all_in_field(v@, modulus),
                forall|j: int| 0 <= j < i ==> (#[trigger] v@[j])@ == 0,
            decreases len - i,
        {
            v.push(zero);
            i = i + 1;
        }
        v
    }

    /// The product of two polynomials over one field.
    pub(crate) fn times(&self, other: &Self) -> (r: Self)
        requires
            self.compatible(other),
            self@.len() + other@.len() <= usize::MAX,
        ensures
            r.wf(),
            r.modulus() == self.modulus(),
            r@ == poly_mul(self@, other@, self.modulus() as int),
            is_prime(self.modulus() as int) && !is_zero(self@) && !is_zero(other@) ==> r@.len()
                == self@.len() + other@.len() - 1,
    {
        proof {
            let md = self.coeffs@[0].modulus as int;
            if is_prime(md) && !is_zero(self@) && !is_zero(other@) {
                lemma_product_length(self@, other@, md);
            }
        }
        let n: usize = self.coeffs.len();
        let m: usize = other.coeffs.len();
        let total: usize = n + m - 1;
        let modulus: u64 = self.coeffs[0].modulus;
        let ghost md = modulus as int;
        let mut result = Self::zeros(total, modulus);
        let mut i: usize = 0;
        proof {
            lemma_small_mod(0, modulus as nat);
        }
        while i < n
            invariant
                self.compatible(other),
                n == self.coeffs@.len(),
                m == other.coeffs@.len(),
                total == n + m - 1,
                modulus == self.modulus(),
                md == modulus as int,
                i <= n,
                result@.len() == total,
                all_in_field(result@, modulus),
                forall|k: int|
                    0 <= k < total ==> (#[trigger] result@[k])@ == conv_upto(
                        self@,
                        other@,
                        k,
                        i as int,
                    ) % md,
            decreases n - i,
        {
            let mut j: usize = 0;
            while j < m
                invariant
                    self.compatible(other),
                    n == self.coeffs@.len(),
                    m == other.coeffs@.len(),
                    total == n + m - 1,
                    modulus == self.modulus(),
                    md == modulus as int,
                    i < n,
                    j <= m,
                    result@.len() == total,
                    all_in_field(result@, modulus),
                    forall|k: int|
                        0 <= k < total ==> (#[trigger] result@[k])@ == (conv_upto(
                            self@,
                            other@,
                            k,
                            i as int,
                        ) + if i <= k < i + j {
                            self@[i as int] * other@[k - i]
                        } else {
                            0
                        }) % md,
                decreases m - j,
            {
                let prod = self.coeffs[i].times(&other.coeffs[j]);
                let cur = result[i + j];
                proof {
                    lemma_add_mod_noop(
                        conv_upto(self@, other@, i + j, i as int),
                        self@[i as int] * other@[j as int],
                        md,
                    );
                }
                result.set(i + j, cur.plus(&prod));
                j = j + 1;
            }
            i = i + 1;
        }
        assert(values(result@) =~= Seq::new(
            total as nat,
            |k: int| conv(self@, other@, k) % md,
        ));
        Self::normalized(result, modulus)
    }

    /// The product: the convolution of the coefficients, brought to
    /// canonical form. Over a prime field the product of two nonzero
    /// polynomials keeps the full length `len(a) + len(b) - 1`. Fails with
    /// `ConfigMismatch` exactly when the moduli differ.
    pub fn mul(&self, other: &Self) -> (r: Result<Self, AlgebraError>)
        requires
            self.wf(),
            other.wf(),
            self@.len() + other@.len() <= usize::MAX,
        ensures
            match r {
                Ok(p) => {
                    &&& self.modulus() == other.modulus()
                    &&& p.wf()
                    &&& p.modulus() == self.modulus()
                    &&& p@ == poly_mul(self@, other@, self.modulus() as int)
                    &&& is_prime(self.modulus() as int) && !is_zero(self@) && !is_zero(other@)
                        ==> p@.len() == self@.len() + other@.len() - 1
                },
                Err(e) => self.modulus() != other.modulus() && e
                    == AlgebraError::ConfigMismatch,
            },
    {
        if self.coeffs[0].modulus != other.coeffs[0].modulus {
            return Err(AlgebraError::ConfigMismatch);
        }
        Ok(self.times(other))
    }

    /// A copy of the coefficients.
    fn copy_of(v: &Vec<FieldElement>) -> (r: Vec<FieldElement>)
        ensures
            r@ == v@,
    {
        let mut r: Vec<FieldElement> = Vec::with_capacity(v.len());
        let mut i: usize = 0;
        while i < v.len()
            invariant
                i <= v@.len(),
                r@ == v@.take(i as int),
            decreases v@.len() - i,
        {
            r.push(v[i]);
            proof {
                assert(v@.take(i + 1) =~= v@.take(i as int).push(v@[i as int]));
            }
            i = i + 1;
        }
        proof {
            assert(v@.take(v@.len() as int) =~= v@);
        }
        r
    }

    /// Takes `term` times the divisor, shifted up by `at` places, from the
    /// dividend.
    fn subtract_multiple(
        dividend: &mut Vec<FieldElement>,
        divisor: &Vec<FieldElement>,
        term: &FieldElement,
        at: usize,
        modulus: u64,
    )
        requires
            0 < modulus <= MAX_MODULUS,
            all_in_field(old(dividend)@, modulus),
            all_in_field(divisor@, modulus),
            term.wf(),
            term.modulus == modulus,
            at + divisor@.len() <= old(dividend)@.len(),
        ensures
            final(dividend)@.len() == old(dividend)@.len(),
            all_in_field(final(dividend)@, modulus),
            forall|k: int|
                0 <= k < old(dividend)@.len() ==> (#[trigger] final(dividend)@[k])@ == if at <= k
                    < at + divisor@.len() {
                    sub_mod(
                        old(dividend)@[k]@,
                        mul_mod(divisor@[k - at]@, term@, modulus as int),
                        modulus as int,
                    )
                } else {
                    old(dividend)@[k]@
                },
    {
        let len: usize = dividend.len();
        let mut j: usize = 0;
        while j < divisor.len()
            invariant
                0 < modulus <= MAX_MODULUS,
                len == old(dividend)@.len(),
                all_in_field(divisor@, modulus),
                term.wf(),
                term.modulus == modulus,
                at + divisor@.len() <= old(dividend)@.len(),
                j <= divisor@.len(),
                dividend@.len() == old(dividend)@.len(),
                all_in_field(dividend@, modulus),
                forall|k: int|
                    0 <= k < old(dividend)@.len() ==> (#[trigger] dividend@[k])@ == if at <= k < at
                        + j {
                        sub_mod(
                            old(dividend)@[k]@,
                            mul_mod(divisor@[k - at]@, term@, modulus as int),
                            modulus as int,
                        )
                    } else {
                        old(dividend)@[k]@
                    },
            decreases divisor@.len() - j,
        {
            let prod = divisor[j].times(term);
            let cur = dividend[at + j];
            dividend.set(at + j, cur.minus(&prod));
            j = j + 1;
        }
    }

    /// Long division: the quotient and the remainder of `self` by
    /// `divisor`, so that `self == quotient * divisor + remainder` and the
    /// remainder is zero or of lower degree than the divisor; no other pair
    /// of polynomials satisfies both. A constant
    /// divisor divides every coefficient and leaves the zero remainder,
    /// whose degree is zero like that of the divisor.
    ///
    /// Fails with `ConfigMismatch` when the moduli differ, else with
    /// `DivisionByZero` when the divisor is the zero polynomial, else with
    /// `NonInvertible` when the leading coefficient of the divisor has no
    /// inverse; on every other input it succeeds.
    pub fn divide(&self, divisor: &Self) -> (r: Result<(Self, Self), AlgebraError>)
        requires
            self.wf(),
            divisor.wf(),
        ensures
            match r {
                Ok((quotient, remainder)) => {
                    &&& self.modulus() == divisor.modulus()
                    &&& !is_zero(divisor@)
                    &&& invertible(divisor@.last(), self.modulus() as int)
                    &&& quotient.wf()
                    &&& remainder.wf()
                    &&& quotient.modulus() == self.modulus()
                    &&& remainder.modulus() == self.modulus()
                    &&& self@ == poly_add(
                        poly_mul(quotient@, divisor@, self.modulus() as int),
                        remainder@,
                        self.modulus() as int,
                    )
                    &&& (is_zero(remainder@) || remainder@.len() < divisor@.len())
                    &&& divisor@.len() > 1 ==> remainder@.len() - 1 < divisor@.len() - 1
                    &&& forall|q: Seq<int>, r: Seq<int>|
                        {
                            &&& canonical(q, self.modulus() as int)
                            &&& canonical(r, self.modulus() as int)
                            &&& self@ == #[trigger] poly_add(
                                poly_mul(q, divisor@, self.modulus() as int),
                                r,
                                self.modulus() as int,
                            )
                            &&& (is_zero(r) || r.len() < divisor@.len())
                        } ==> q == quotient@ && r == remainder@
                },
                Err(e) => if self.modulus() != divisor.modulus() {
                    e == AlgebraError::ConfigMismatch
                } else if is_zero(divisor@) {
                    e == AlgebraError::DivisionByZero
                } else {
                    !invertible(divisor@.last(), self.modulus() as int) && e
                        == AlgebraError::NonInvertible
                },
            },
    {
        let result = self.long_division(divisor);
        proof {
            if result is Ok {
                let quotient = result->Ok_0.0;
                let remainder = result->Ok_0.1;
                let md = self.modulus() as int;
                assert forall|q: Seq<int>, r: Seq<int>|
                    {
                        &&& canonical(q, md)
                        &&& canonical(r, md)
                        &&& self@ == #[trigger] poly_add(poly_mul(q, divisor@, md), r, md)
                        &&& (is_zero(r) || r.len() < divisor@.len())
                    } implies q == quotient@ && r == remainder@ by {
                    lemma_division_unique(self@, divisor@, quotient@, remainder@, q, r, md);
                }
            }
        }
        result
    }

    /// The division itself: by a constant, every coefficient is divided;
    /// otherwise the leading term of the dividend is eliminated again and
    /// again, from the top down, and what is left is the remainder.
    fn long_division(&self, divisor: &Self) -> (r: Result<(Self, Self), AlgebraError>)
        requires
            self.wf(),
            divisor.wf(),
        ensures
            match r {
                Ok((quotient, remainder)) => {
                    &&& self.modulus() == divisor.modulus()
                    &&& !is_zero(divisor@)
                    &&& invertible(divisor@.last(), self.modulus() as int)
                    &&& quotient.wf()
                    &&& remainder.wf()
                    &&& quotient.modulus() == self.modulus()
                    &&& remainder.modulus() == self.modulus()
                    &&& self@ == poly_add(
                        poly_mul(quotient@, divisor@, self.modulus() as int),
                        remainder@,
                        self.modulus() as int,
                    )
                    &&& (is_zero(remainder@) || remainder@.len() < divisor@.len())
                    &&& divisor@.len() > 1 ==> remainder@.len() - 1 < divisor@.len() - 1
                },
                Err(e) => if self.modulus() != divisor.modulus() {
                    e == AlgebraError::ConfigMismatch
                } else if is_zero(divisor@) {
                    e == AlgebraError::DivisionByZero
                } else {
                    !invertible(divisor@.last(), self.modulus() as int) && e
                        == AlgebraError::NonInvertible
                },
            },
    {
        let modulus: u64 = self.coeffs[0].modulus;
        let ghost md = modulus as int;
        if modulus != divisor.coeffs[0].modulus {
            return Err(AlgebraError::ConfigMismatch);
        }
        if divisor.coeffs.len() == 1 && divisor.coeffs[0].value == 0 {
            return Err(AlgebraError::DivisionByZero);
        }
        let divisor_deg: usize = divisor.coeffs.len() - 1;
        let lead = divisor.coeffs[divisor_deg];
        let inv_lead = match lead.mod_inverse() {
            Some(v) => FieldElement { value: v, modulus },
            None => {
                return Err(AlgebraError::NonInvertible);
            },
        };
        proof {
            lemma_inv_mod_is_inverse(lead@, md);
        }
        if divisor_deg == 0 {
            // A constant divisor: divide every coefficient, nothing remains.
            let quotient = self.scaled(&inv_lead);
            let remainder = Self::normalized(Vec::new(), modulus);
            proof {
                let none = Seq::<int>::empty();
                let raw = Seq::new(self@.len(), |k: int| mul_mod(self@[k], inv_lead@, md));
                assert(values(Seq::<FieldElement>::empty()) =~= none);
                assert(divisor@ =~= seq![lead@]);
                assert forall|k: int| 0 <= k implies (#[trigger] conv(raw, divisor@, k) + coeff(
                    none,
                    k,
                )) % md == coeff(self@, k) by {
                    lemma_conv_constant(raw, lead@, k, raw.len() as int);
                    if k < self@.len() {
                        lemma_divide_then_multiply(self@[k], lead@, inv_lead@, md);
                        lemma_small_mod(self@[k] as nat, md as nat);
                    } else {
                        lemma_small_mod(0, md as nat);
                    }
                }
                lemma_division_identity(self@, raw, divisor@, none, md);
            }
            return Ok((quotient, remainder));
        }
        let mut dividend = Self::copy_of(&self.coeffs);
        if dividend.len() <= divisor_deg {
            // The dividend is of lower degree: it is the remainder.
            let quotient = Self::normalized(Vec::new(), modulus);
            let remainder = Self::normalized(dividend, modulus);
            proof {
                let none = Seq::<int>::empty();
                assert(values(Seq::<FieldElement>::empty()) =~= none);
                assert forall|k: int| 0 <= k implies (#[trigger] conv(none, divisor@, k) + coeff(
                    self@,
                    k,
                )) % md == coeff(self@, k) by {
                    assert(conv(none, divisor@, k) == 0);
                    if k < self@.len() {
                        lemma_small_mod(self@[k] as nat, md as nat);
                    } else {
                        lemma_small_mod(0, md as nat);
                    }
                }
                lemma_division_identity(self@, none, divisor@, self@, md);
                assert(trim(self@) == self@);
            }
            return Ok((quotient, remainder));
        }
        let total: usize = dividend.len();
        let quotient_len: usize = total - divisor_deg;
        let mut quotient = Self::zeros(quotient_len, modulus);
        let mut i: usize = quotient_len;
        proof {
            assert forall|k: int| 0 <= k < total implies (#[trigger] conv(
                values(quotient@),
                divisor@,
                k,
            ) + values(dividend@)[k]) % md == self@[k] by {
                lemma_conv_all_zero(values(quotient@), divisor@, k, quotient_len as int);
                lemma_small_mod(self@[k] as nat, md as nat);
            }
        }
        while i > 0
            invariant
                self.compatible(divisor),
                modulus == self.modulus(),
                md == modulus as int,
                divisor_deg == divisor.coeffs@.len() - 1,
                lead == divisor.coeffs@[divisor_deg as int],
                inv_lead.wf(),
                inv_lead.modulus == modulus,
                mul_mod(lead@, inv_lead@, md) == 1int % md,
                total == self.coeffs@.len(),
                total > divisor_deg,
                quotient_len == total - divisor_deg,
                i <= quotient_len,
                dividend@.len() == total,
                quotient@.len() == quotient_len,
                all_in_field(dividend@, modulus),
                all_in_field(quotient@, modulus),
                forall|k: int|
                    0 <= k < total ==> (#[trigger] conv(values(quotient@), divisor@, k) + values(
                        dividend@,
                    )[k]) % md == self@[k],
                forall|t: int| 0 <= t < i ==> (#[trigger] quotient@[t])@ == 0,
                forall|k: int| i + divisor_deg <= k < total ==> (#[trigger] dividend@[k])@ == 0,
            decreases i,
        {
            i = i - 1;
            let dividend_deg: usize = i + divisor_deg;
            let term = dividend[dividend_deg].times(&inv_lead);
            let ghost before_q = values(quotient@);
            let ghost before_d = values(dividend@);
            quotient.set(i, term);
            Self::subtract_multiple(&mut dividend, &divisor.coeffs, &term, i, modulus);
            proof {
                assert(values(quotient@) =~= before_q.update(i as int, term@));
                assert forall|k: int| 0 <= k < total implies (#[trigger] conv(
                    values(quotient@),
                    divisor@,
                    k,
                ) + values(dividend@)[k]) % md == self@[k] by {
                    lemma_conv_update(before_q, divisor@, k, i as int, term@, quotient_len as int);
                    assert((conv(before_q, divisor@, k) + before_d[k]) % md == self@[k]);
                    if i <= k < i + divisor.coeffs@.len() {
                        lemma_elimination_step(
                            conv(before_q, divisor@, k),
                            before_d[k],
                            divisor@[k - i],
                            term@,
                            md,
                        );
                    } else {
                        assert(coeff(divisor@, k - i) == 0);
                        assert(term@ * coeff(divisor@, k - i) == 0);
                    }
                }
                assert forall|k: int| i + divisor_deg <= k < total implies (
                #[trigger] dividend@[k])@ == 0 by {
                    if k == i + divisor_deg {
                        lemma_lead_cancels(before_d[k], lead@, inv_lead@, md);
                    }
                }
            }
        }
        // What is left above the degree of the divisor is zero.
        while dividend.len() > divisor_deg && dividend[dividend.len() - 1].value == 0
            invariant
                divisor_deg <= dividend@.len() <= total,
                all_in_field(dividend@, modulus),
                forall|k: int| divisor_deg <= k < dividend@.len() ==> (#[trigger] dividend@[k])@ == 0,
                forall|k: int|
                    0 <= k < total ==> (#[trigger] conv(values(quotient@), divisor@, k) + coeff(
                        values(dividend@),
                        k,
                    )) % md == self@[k],
            decreases dividend@.len(),
        {
            dividend.pop();
        }
        proof {
            let q = values(quotient@);
            let rest = values(dividend@);
            assert(rest.len() == divisor_deg);
            assert forall|k: int| 0 <= k implies (#[trigger] conv(q, divisor@, k) + coeff(
                rest,
                k,
            )) % md == coeff(self@, k) by {
                if k >= total {
                    lemma_conv_beyond(q, divisor@, k, quotient_len as int);
                    lemma_small_mod(0, md as nat);
                }
            }
            lemma_division_identity(self@, q, divisor@, rest, md);
            lemma_trim_len(rest);
        }
        Ok((Self::normalized(quotient, modulus), Self::normalized(dividend, modulus)))
    }

    /// Synthetic division by `x - z`, for `z` of the same field: the
    /// quotient, and the remainder, which is the value at `z`.
    pub(crate) fn ruffini(&self, z: &FieldElement) -> (r: (Self, FieldElement))
        requires
            self.wf(),
            z.wf(),
            z.modulus == self.modulus(),
        ensures
            r.0.wf(),
            r.0.modulus() == self.modulus(),
            r.0@ == linear_quotient(self@, z@, self.modulus() as int),
            r.0@.len() <= self@.len(),
            self@.len() > 1 ==> r.0@.len() < self@.len(),
            r.1.wf(),
            r.1.modulus == self.modulus(),
            r.1@ == poly_eval(self@, z@, self.modulus() as int),
            self@ == poly_add(
                poly_mul(r.0@, linear_factor(z@, self.modulus() as int), self.modulus() as int),
                seq![r.1@],
                self.modulus() as int,
            ),
    {
        proof {
            lemma_linear_quotient(self@, z@, self.coeffs@[0].modulus as int);
        }
        let n: usize = self.coeffs.len();
        let modulus: u64 = self.coeffs[0].modulus;
        let ghost md = modulus as int;
        let mut quotient = Self::zeros(n - 1, modulus);
        let mut carry = self.coeffs[n - 1];
        let mut i: usize = n - 1;
        proof {
            assert(horner(self@, z@, n as int) == 0);
            assert(z@ * 0 == 0);
            lemma_small_mod(self@[n - 1] as nat, md as nat);
        }
        while i > 0
            invariant
                self.wf(),
                z.wf(),
                z.modulus == self.modulus(),
                n == self.coeffs@.len(),
                modulus == self.modulus(),
                md == modulus as int,
                i < n,
                quotient@.len() == n - 1,
                all_in_field(quotient@, modulus),
                carry.wf(),
                carry.modulus == modulus,
                carry@ == horner(self@, z@, i as int) % md,
                forall|k: int|
                    i <= k < n - 1 ==> (#[trigger] quotient@[k])@ == horner(self@, z@, k + 1) % md,
            decreases i,
        {
            i = i - 1;
            quotient.set(i, carry);
            proof {
                lemma_horner_step(horner(self@, z@, i + 1), z@, self@[i as int], md);
            }
            carry = carry.times(z).plus(&self.coeffs[i]);
        }
        proof {
            let raw = Seq::new((n - 1) as nat, |k: int| horner(self@, z@, k + 1) % md);
            assert(values(quotient@) =~= raw);
            lemma_trim_len(raw);
        }
        (Self::normalized(quotient, modulus), carry)
    }

    /// Synthetic division by `x - z`: the quotient, and the remainder,
    /// which is the value of the polynomial at `z`, so that
    /// `self == quotient * (x - z) + remainder`. Fails with `ConfigMismatch`
    /// exactly when the moduli differ.
    pub fn divide_by_linear(&self, z: FieldElement) -> (r: Result<
        (Self, FieldElement),
        AlgebraError,
    >)
        requires
            self.wf(),
            z.wf(),
        ensures
            match r {
                Ok((quotient, remainder)) => {
                    &&& self.modulus() == z.modulus
                    &&& quotient.wf()
                    &&& quotient.modulus() == self.modulus()
                    &&& quotient@ == linear_quotient(self@, z@, self.modulus() as int)
                    &&& remainder.wf()
                    &&& remainder.modulus == self.modulus()
                    &&& remainder@ == poly_eval(self@, z@, self.modulus() as int)
                    &&& self@ == poly_add(
                        poly_mul(
                            quotient@,
                            linear_factor(z@, self.modulus() as int),
                            self.modulus() as int,
                        ),
                        seq![remainder@],
                        self.modulus() as int,
                    )
                },
                Err(e) => self.modulus() != z.modulus && e == AlgebraError::ConfigMismatch,
            },
    {
        if self.coeffs[0].modulus != z.modulus {
            return Err(AlgebraError::ConfigMismatch);
        }
        Ok(self.ruffini(&z))
    }

    /// The polynomial `x^n - 1`. It vanishes on the multiplicative subgroup
    /// of order `n`, every element of which satisfies `x^n = 1`, and takes
    /// two coefficient writes where the product of the `x - w_i` would take
    /// `n` multiplications.
    pub fn vanishing_polynomial(n: usize, modulus: u64) -> (r: Self)
        requires
            0 < modulus <= MAX_MODULUS,
            n < usize::MAX,
        ensures
            r.wf(),
            r.modulus() == modulus,
            r@ == vanishing(n as nat, modulus as int),
            forall|x: int|
                #[trigger] poly_eval(r@, x, modulus as int) == (pow(x, n as nat) - 1) % (
                modulus as int),
    {
        let one = FieldElement::one(modulus);
        let mut coeffs = Self::zeros(n + 1, modulus);
        coeffs.set(0, one.negate());
        let top = coeffs[n];
        coeffs.set(n, top.plus(&one));
        proof {
            let md = modulus as int;
            let want = vanishing_coeffs(n as nat, md);
            lemma_small_mod(0, md as nat);
            lemma_sub_mod_noop_right(0, 1, md);
            lemma_mod_twice(1, md);
            lemma_add_mod_noop_right(1int % md, -(1int % md), md);
            lemma_add_mod_noop(-(1int % md), 1, md);
            assert forall|k: int| 0 <= k <= n implies values(coeffs@)[k] == want[k] by {
                if k == 0 && n == 0 {
                    assert(values(coeffs@)[0] == add_mod(neg_mod(1int % md, md), 1int % md, md));
                } else if k == 0 {
                    assert(values(coeffs@)[0] == neg_mod(1int % md, md));
                } else if k == n {
                    assert(values(coeffs@)[k] == add_mod(0, 1int % md, md));
                } else {
                    assert(values(coeffs@)[k] == 0);
                }
            }
            assert(values(coeffs@) =~= want);
        }
        let result = Self::normalized(coeffs, modulus);
        proof {
            let md = modulus as int;
            assert(result@ == vanishing(n as nat, md));
            assert forall|x: int| #[trigger]
                poly_eval(result@, x, md) == (pow(x, n as nat) - 1) % md by {
                lemma_vanishing_value(n as nat, x, md);
            }
        }
        result
    }

    /// The polynomial through the given points, by Lagrange's formula: the
    /// sum over `i` of `y_i * l_i(x)`, where `l_i(x)` is the product over
    /// `j != i` of `(x - x_j) / (x_i - x_j)`. At the abscissa of each point
    /// it takes the ordinate of that point.
    ///
    /// Fails with `ConfigMismatch` when the coordinates do not all share one
    /// modulus. Otherwise it fails at the first point whose denominator, the
    /// product of the `x_i - x_j`, is zero (`DivisionByZero`) or has no
    /// inverse (`NonInvertible`); two points with one abscissa make such a
    /// denominator zero.
    pub fn lagrange_interpolate(points: &[(FieldElement, FieldElement)]) -> (r: Result<
        Self,
        AlgebraError,
    >)
        requires
            points@.len() >= 1,
            points@.len() + 2 <= usize::MAX,
            points_wf(points@),
        ensures
            match r {
                Ok(p) => {
                    let m = points@[0].0.modulus;
                    &&& points_in_field(points@, m)
                    &&& forall|i: int|
                        0 <= i < points@.len() ==> lagrange_term_defined(
                            abscissas(points@),
                            i,
                            m as int,
                        )
                    &&& p.wf()
                    &&& p.modulus() == m
                    &&& p@ == lagrange_sum(
                        abscissas(points@),
                        ordinates(points@),
                        points@.len() as int,
                        m as int,
                    )
                    &&& forall|k: int|
                        0 <= k < points@.len() ==> poly_eval(
                            p@,
                            #[trigger] abscissas(points@)[k],
                            m as int,
                        ) == ordinates(points@)[k]
                },
                Err(e) => {
                    let m = points@[0].0.modulus;
                    if !points_in_field(points@, m) {
                        e == AlgebraError::ConfigMismatch
                    } else {
                        exists|i: int|
                            {
                                &&& 0 <= i < points@.len()
                                &&& forall|t: int|
                                    0 <= t < i ==> lagrange_term_defined(
                                        abscissas(points@),
                                        t,
                                        m as int,
                                    )
                                &&& !#[trigger] lagrange_term_defined(
                                    abscissas(points@),
                                    i,
                                    m as int,
                                )
                                &&& e == if lagrange_denominator(
                                    abscissas(points@),
                                    i,
                                    points@.len() as int,
                                    m as int,
                                ) == 0 {
                                    AlgebraError::DivisionByZero
                                } else {
                                    AlgebraError::NonInvertible
                                }
                            }
                    }
                },
            },
            (exists|i: int, j: int|
                #![trigger points@[i], points@[j]]
                0 <= i < points@.len() && 0 <= j < points@.len() && i != j && points@[i].0@
                    == points@[j].0@) ==> r is Err,
    {
        let n: usize = points.len();
        let modulus: u64 = points[0].0.modulus;
        let ghost md = modulus as int;
        let ghost xs = abscissas(points@);
        let ghost ys = ordinates(points@);
        let mut c: usize = 0;
        while c < n
            invariant
                n == points@.len(),
                n >= 1,
                modulus == points@[0].0.modulus,
                c <= n,
                forall|t: int|
                    0 <= t < c ==> (#[trigger] points@[t]).0.modulus == modulus && points@[t].1.modulus
                        == modulus,
            decreases n - c,
        {
            if points[c].0.modulus != modulus || points[c].1.modulus != modulus {
                proof {
                    let bad = points@[c as int];
                    assert(bad.0.modulus != modulus || bad.1.modulus != modulus);
                }
                return Err(AlgebraError::ConfigMismatch);
            }
            c = c + 1;
        }
        let one = FieldElement::one(modulus);
        let mut result = Self::normalized(Vec::new(), modulus);
        proof {
            assert(values(Seq::<FieldElement>::empty()) =~= Seq::<int>::empty());
        }
        let mut i: usize = 0;
        while i < n
            invariant
                n == points@.len(),
                n + 2 <= usize::MAX,
                points_wf(points@),
                points_in_field(points@, modulus),
                modulus == points@[0].0.modulus,
                md == modulus as int,
                xs == abscissas(points@),
                ys == ordinates(points@),
                one.wf(),
                one.modulus == modulus,
                one@ == 1int % md,
                i <= n,
                result.wf(),
                result.modulus() == modulus,
                result@ == lagrange_sum(xs, ys, i as int, md),
                forall|t: int| 0 <= t < i ==> lagrange_term_defined(xs, t, md),
            decreases n - i,
        {
            let xi = points[i].0;
            let yi = points[i].1;
            let mut unit: Vec<FieldElement> = Vec::new();
            unit.push(one);
            proof {
                assert(values(unit@) =~= seq![1int % md]);
            }
            let mut term = Self::normalized(unit, modulus);
            let mut denominator = one;
            let mut j: usize = 0;
            while j < n
                invariant
                    n == points@.len(),
                    n + 2 <= usize::MAX,
                    points_wf(points@),
                    points_in_field(points@, modulus),
                    md == modulus as int,
                    xs == abscissas(points@),
                    one.wf(),
                    one.modulus == modulus,
                    one@ == 1int % md,
                    i < n,
                    j <= n,
                    xi == points@[i as int].0,
                    term.wf(),
                    term.modulus() == modulus,
                    term@.len() <= j + 1,
                    term@ == lagrange_numerator(xs, i as int, j as int, md),
                    denominator.wf(),
                    denominator.modulus == modulus,
                    denominator@ == lagrange_denominator(xs, i as int, j as int, md),
                decreases n - j,
            {
                if i != j {
                    let xj = points[j].0;
                    let mut factor: Vec<FieldElement> = Vec::new();
                    factor.push(xj.negate());
                    factor.push(one);
                    proof {
                        assert(values(factor@) =~= seq![neg_mod(xj@, md), 1int % md]);
                    }
                    let numerator = Self::normalized(factor, modulus);
                    proof {
                        lemma_trim_len(seq![neg_mod(xj@, md), 1int % md]);
                        lemma_trim_len(
                            Seq::new(
                                (term@.len() + numerator@.len() - 1) as nat,
                                |k: int| conv(term@, numerator@, k) % md,
                            ),
                        );
                    }
                    term = term.times(&numerator);
                    denominator = denominator.times(&xi.minus(&xj));
                }
                j = j + 1;
            }
            proof {
                assert(xs.len() == n);
                assert(denominator@ == lagrange_denominator(xs, i as int, xs.len() as int, md));
            }
            if denominator.value == 0 {
                proof {
                    assert(!lagrange_term_defined(xs, i as int, md));
                }
                return Err(AlgebraError::DivisionByZero);
            }
            let inv_denominator = match denominator.mod_inverse() {
                Some(v) => FieldElement { value: v, modulus },
                None => {
                    proof {
                        assert(!lagrange_term_defined(xs, i as int, md));
                    }
                    return Err(AlgebraError::NonInvertible);
                },
            };
            proof {
                assert(lagrange_term_defined(xs, i as int, md));
            }
            term = term.scaled(&inv_denominator);
            term = term.scaled(&yi);
            result = result.plus(&term);
            i = i + 1;
        }
        proof {
            if exists|a: int, b: int|
                #![trigger points@[a], points@[b]]
                0 <= a < points@.len() && 0 <= b < points@.len() && a != b && points@[a].0@
                    == points@[b].0@ {
                let (a, b) = choose|a: int, b: int|
                    #![trigger points@[a], points@[b]]
                    0 <= a < points@.len() && 0 <= b < points@.len() && a != b && points@[a].0@
                        == points@[b].0@;
                lemma_repeated_abscissa(xs, a, b, n as int, md);
                assert(lagrange_term_defined(xs, a, md));
            }
            assert forall|k: int| 0 <= k < n implies poly_eval(result@, #[trigger] xs[k], md)
                == ys[k] by {
                assert(points@[k].1.wf());
                lemma_lagrange_interpolates(xs, ys, k, md);
            }
        }
        Ok(result)
    }
}

/// The first coordinates of the points, as residues.
pub open spec fn abscissas(points: Seq<(FieldElement, FieldElement)>) -> Seq<int> {
    Seq::new(points.len(), |i: int| points[i].0@)
}

/// The second coordinates of the points, as residues.
pub open spec fn ordinates(points: Seq<(FieldElement, FieldElement)>) -> Seq<int> {
    Seq::new(points.len(), |i: int| points[i].1@)
}

/// Every coordinate is a well-formed field element.
pub open spec fn points_wf(points: Seq<(FieldElement, FieldElement)>) -> bool {
    forall|i: int| 0 <= i < points.len() ==> (#[trigger] points[i]).0.wf() && points[i].1.wf()
}

/// Every coordinate has the modulus `m`.
pub open spec fn points_in_field(points: Seq<(FieldElement, FieldElement)>, m: u64) -> bool {
    forall|i: int|
        0 <= i < points.len() ==> (#[trigger] points[i]).0.modulus == m && points[i].1.modulus
            == m
}

} // verus!
