//! A field element whose prime modulus is carried at run time.
//!
//! Construction validates both the modulus (an explicit primality check)
//! and the value (which must already lie in `[0, modulus)`); every binary
//! operation checks that the two operands share a modulus. Elements are
//! immutable values: each operation returns a new element.

use crate::errors::FieldError;
use crate::modular::{
    add_val, div_val, inv_val, lemma_add_mod_noop_general, lemma_sub_as_shifted_add, mul_mod_u64,
    mul_val, pow_mod_u64, pow_val, reduced_exp, rem_euclid_i128, sub_val,
};
use crate::fermat::lemma_fermat_little;
use crate::primality::{is_prime, is_prime_spec};
use vstd::arithmetic::div_mod::{
    lemma_fundamental_div_mod_converse, lemma_mod_bound, lemma_mod_twice,
    lemma_mul_mod_noop_right, lemma_small_mod,
};
use vstd::arithmetic::power::{lemma_pow1, lemma_pow_adds, pow};
use vstd::prelude::*;

verus! {

/// One element of the field of integers modulo a prime.
#[derive(Clone, Copy, Debug, PartialEq, Eq, Structural)]
pub struct FieldElement {
    /// The canonical representative of the residue class, in `[0, modulus)`.
    pub value: u64,
    /// The order of the field: a prime number.
    pub modulus: u64,
}

impl FieldElement {
    /// The invariant every element built by this module satisfies.
    pub open spec fn wf(self) -> bool {
        is_prime_spec(self.modulus as nat) && (self.value as nat) < (self.modulus as nat)
    }

    /// The element of the same field whose value is the sum of the two values.
    pub open spec fn spec_add(self, other: Self) -> Self
        recommends
            self.modulus == other.modulus,
    {
        FieldElement {
            value: add_val(self.value as nat, other.value as nat, self.modulus as nat) as u64,
            modulus: self.modulus,
        }
    }

    /// The element of the same field whose value is the difference of the two values.
    pub open spec fn spec_sub(self, other: Self) -> Self
        recommends
            self.modulus == other.modulus,
    {
        FieldElement {
            value: sub_val(self.value as nat, other.value as nat, self.modulus as nat) as u64,
            modulus: self.modulus,
        }
    }

    /// The element of the same field whose value is the product of the two values.
    pub open spec fn spec_mul(self, other: Self) -> Self
        recommends
            self.modulus == other.modulus,
    {
        FieldElement {
            value: mul_val(self.value as nat, other.value as nat, self.modulus as nat) as u64,
            modulus: self.modulus,
        }
    }

    /// The element raised to a signed exponent, reduced modulo `modulus - 1`.
    pub open spec fn spec_pow(self, exponent: int) -> Self
        recommends
            self.modulus >= 2,
    {
        FieldElement {
            value: pow_val(self.value as nat, exponent, self.modulus as nat) as u64,
            modulus: self.modulus,
        }
    }

    /// The quotient: the product with the divisor's multiplicative inverse.
    pub open spec fn spec_div(self, other: Self) -> Self
        recommends
            self.modulus == other.modulus,
            self.modulus >= 2,
    {
        FieldElement {
            value: div_val(self.value as nat, other.value as nat, self.modulus as nat) as u64,
            modulus: self.modulus,
        }
    }

    /// Validates the modulus and the value, and builds the element.
    ///
    /// The modulus must be prime (`FieldError::NotPrime` otherwise) and the
    /// value must already lie in `[0, modulus)` (`FieldError::OutOfRange`
    /// otherwise): an out-of-range value is rejected, never reduced.
    pub fn new(value: u64, modulus: u64) -> (r: Result<Self, FieldError>)
        ensures
            !is_prime_spec(modulus as nat) ==> r == Err::<Self, FieldError>(FieldError::NotPrime),
            is_prime_spec(modulus as nat) && value >= modulus ==> r == Err::<Self, FieldError>(
                FieldError::OutOfRange,
            ),
            is_prime_spec(modulus as nat) && value < modulus ==> r == Ok::<Self, FieldError>(
                (FieldElement { value, modulus }),
            ) && r.unwrap().wf(),
    {
        if !is_prime(modulus as u128) {
            return Err(FieldError::NotPrime);
        }
        if value >= modulus {
            return Err(FieldError::OutOfRange);
        }
        Ok(FieldElement { value, modulus })
    }

    /// Sum of two elements of the same field, `(a + b) mod p`.
    pub fn add(self, other: Self) -> (r: Result<Self, FieldError>)
        requires
            self.wf(),
            other.wf(),
        ensures
            self.modulus != other.modulus ==> r == Err::<Self, FieldError>(
                FieldError::FieldMismatch,
            ),
            self.modulus == other.modulus ==> r == Ok::<Self, FieldError>(self.spec_add(other))
                && r.unwrap().wf(),
    {
        if self.modulus != other.modulus {
            return Err(FieldError::FieldMismatch);
        }
        let wide: u128 = (self.value as u128 + other.value as u128) % (self.modulus as u128);
        proof {
            lemma_mod_bound(self.value as int + other.value as int, self.modulus as int);
        }
        Ok(FieldElement { value: wide as u64, modulus: self.modulus })
    }

    /// Difference of two elements of the same field, `(a - b) mod p`,
    /// normalized with the Euclidean remainder so the result is in `[0, p)`.
    pub fn sub(self, other: Self) -> (r: Result<Self, FieldError>)
        requires
            self.wf(),
            other.wf(),
        ensures
            self.modulus != other.modulus ==> r == Err::<Self, FieldError>(
                FieldError::FieldMismatch,
            ),
            self.modulus == other.modulus ==> r == Ok::<Self, FieldError>(self.spec_sub(other))
                && r.unwrap().wf(),
    {
        if self.modulus != other.modulus {
            return Err(FieldError::FieldMismatch);
        }
        let wide: u128 = (self.value as u128 + self.modulus as u128 - other.value as u128) % (
        self.modulus as u128);
        proof {
            lemma_sub_as_shifted_add(
                self.value as nat,
                other.value as nat,
                self.modulus as nat,
            );
            lemma_mod_bound(
                self.value as int + self.modulus as int - other.value as int,
                self.modulus as int,
            );
        }
        Ok(FieldElement { value: wide as u64, modulus: self.modulus })
    }

    /// Product of two elements of the same field, `(a * b) mod p`.
    pub fn mul(self, other: Self) -> (r: Result<Self, FieldError>)
        requires
            self.wf(),
            other.wf(),
        ensures
            self.modulus != other.modulus ==> r == Err::<Self, FieldError>(
                FieldError::FieldMismatch,
            ),
            self.modulus == other.modulus ==> r == Ok::<Self, FieldError>(self.spec_mul(other))
                && r.unwrap().wf(),
    {
        if self.modulus != other.modulus {
            return Err(FieldError::FieldMismatch);
        }
        let v = mul_mod_u64(self.value, other.value, self.modulus);
        Ok(FieldElement { value: v, modulus: self.modulus })
    }

    /// The element raised to any signed exponent.
    ///
    /// The exponent is first reduced modulo `p - 1` (the order of the
    /// multiplicative group, by Fermat's little theorem), which is also all
    /// that a negative exponent needs; then the power is computed by
    /// repeated squaring.
    pub fn pow(&self, exponent: i128) -> (r: Self)
        requires
            self.wf(),
        ensures
            r == self.spec_pow(exponent as int),
            r.wf(),
    {
        let reduced = rem_euclid_i128(exponent, self.modulus - 1);
        let v = pow_mod_u64(self.value, reduced, self.modulus);
        FieldElement { value: v, modulus: self.modulus }
    }

    /// Quotient of two elements of the same field: `a * b^(p-2) mod p`,
    /// the multiplicative inverse coming from Fermat's little theorem.
    pub fn div(self, other: Self) -> (r: Result<Self, FieldError>)
        requires
            self.wf(),
            other.wf(),
        ensures
            self.modulus != other.modulus ==> r == Err::<Self, FieldError>(
                FieldError::FieldMismatch,
            ),
            self.modulus == other.modulus && other.value == 0 ==> r == Err::<Self, FieldError>(
                FieldError::DivisionByZero,
            ),
            self.modulus == other.modulus && other.value != 0 ==> r == Ok::<Self, FieldError>(
                self.spec_div(other),
            ) && r.unwrap().wf(),
    {
        if self.modulus != other.modulus {
            return Err(FieldError::FieldMismatch);
        }
        if other.value == 0 {
            return Err(FieldError::DivisionByZero);
        }
        let inverse = pow_mod_u64(other.value, self.modulus - 2, self.modulus);
        let v = mul_mod_u64(self.value, inverse, self.modulus);
        Ok(FieldElement { value: v, modulus: self.modulus })
    }
}

/// Addition of field elements is commutative.
pub proof fn lemma_field_add_commutative(a: FieldElement, b: FieldElement)
    requires
        a.wf(),
        b.wf(),
        a.modulus == b.modulus,
    ensures
        a.spec_add(b) == b.spec_add(a),
{
}

/// Addition of field elements is associative.
pub proof fn lemma_field_add_associative(a: FieldElement, b: FieldElement, c: FieldElement)
    requires
        a.wf(),
        b.wf(),
        c.wf(),
        a.modulus == b.modulus,
        b.modulus == c.modulus,
    ensures
        a.spec_add(b).spec_add(c) == a.spec_add(b.spec_add(c)),
{
    let p = a.modulus as int;
    let x = a.value as int;
    let y = b.value as int;
    let z = c.value as int;
    lemma_add_mod_noop_general(x + y, z, p);
    lemma_add_mod_noop_general(x, y + z, p);
}

/// The zero element is the additive identity.
pub proof fn lemma_field_add_zero(a: FieldElement)
    requires
        a.wf(),
    ensures
        a.spec_add((FieldElement { value: 0, modulus: a.modulus })) == a,
{
    lemma_small_mod(a.value as nat, a.modulus as nat);
}

/// A nonzero element multiplied by its reciprocal gives one. The power
/// `a.pow(-1)` is `a^(p-2)` after the exponent reduction, so this is
/// Fermat's little theorem.
pub proof fn lemma_field_mul_inverse(a: FieldElement)
    requires
        a.wf(),
        a.value != 0,
    ensures
        a.spec_mul(a.spec_pow(-1)) == (FieldElement { value: 1, modulus: a.modulus }),
{
    let p = a.modulus as nat;
    let pi = p as int;
    let x = a.value as nat;
    let xi = x as int;
    // The exponent -1 reduces to p - 2 modulo the group order p - 1.
    assert((-1int) % ((p - 1) as int) == (p - 2) as int) by {
        lemma_fundamental_div_mod_converse(-1int, (p - 1) as int, -1int, (p - 2) as int);
    };
    assert(reduced_exp(-1, p) == (p - 2) as nat);
    let v = pow(xi, (p - 2) as nat) % pi;
    lemma_mod_bound(pow(xi, (p - 2) as nat), pi);
    assert(pow_val(x, -1, p) == v as nat);
    lemma_fermat_little(x, p);
    assert(pow(xi, (p - 1) as nat) == xi * pow(xi, (p - 2) as nat)) by {
        lemma_pow_adds(xi, 1, (p - 2) as nat);
        lemma_pow1(xi);
    };
    assert((xi * v) % pi == 1) by {
        lemma_mul_mod_noop_right(xi, pow(xi, (p - 2) as nat), pi);
    };
    assert(mul_val(x, v as nat, p) == 1) by {
        assert(xi * v == (x * (v as nat)) as int);
    };
    assert((pow_val(x, -1, p) as u64) as nat == pow_val(x, -1, p));
}

/// Exponentiation only depends on the exponent modulo `p - 1`: reducing the
/// exponent first changes nothing.
pub proof fn lemma_field_pow_exponent_reduction(a: FieldElement, k: int)
    requires
        a.wf(),
    ensures
        a.spec_pow(k) == a.spec_pow(k % (a.modulus - 1)),
{
    let p = a.modulus as nat;
    lemma_mod_twice(k, p - 1);
    assert(reduced_exp(k % (p - 1), p) == reduced_exp(k, p));
}

/// Division agrees with multiplication by `b^(p-2)`, the multiplicative
/// inverse given by Fermat's little theorem.
pub proof fn lemma_field_div_is_mul_inverse(a: FieldElement, b: FieldElement)
    requires
        a.wf(),
        b.wf(),
        a.modulus == b.modulus,
        b.value != 0,
    ensures
        a.spec_div(b) == a.spec_mul(b.spec_pow(a.modulus - 2)),
{
    let p = a.modulus as nat;
    lemma_small_mod((p - 2) as nat, (p - 1) as nat);
    assert(reduced_exp(p - 2, p) == (p - 2) as nat);
    assert(pow_val(b.value as nat, p - 2, p) == inv_val(b.value as nat, p));
}

} // verus!
