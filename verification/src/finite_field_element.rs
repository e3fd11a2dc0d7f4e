//! A field element whose prime order is a compile-time parameter.
//!
//! Carrying the order in the type makes a modulus mismatch impossible, so
//! the binary operations are total. The constructor validates the order
//! with an explicit primality check and normalizes the given signed value
//! into the canonical range `[0, P)` with the Euclidean remainder, so any
//! integer names its residue class.

use crate::errors::{FieldError, NotPrimeError};
use crate::modular::{
    add_val, div_val, inv_val, lemma_sub_as_shifted_add, mul_mod_u64, mul_val, pow_mod_u64,
    pow_val, reduced_exp, rem_euclid_i128, sub_val,
};
use crate::primality::{is_prime, is_prime_spec};
use vstd::arithmetic::div_mod::{lemma_mod_bound, lemma_small_mod};
use vstd::prelude::*;

verus! {

/// One element of the field of integers modulo the prime `P`.
#[derive(Clone, Copy, Debug, PartialEq, Eq)]
pub struct FiniteFieldElement<const P: u64> {
    /// The canonical representative of the residue class, in `[0, P)`.
    pub value: u64,
}

impl<const P: u64> FiniteFieldElement<P> {
    /// The invariant every element built by this module satisfies.
    pub open spec fn wf(self) -> bool {
        is_prime_spec(P as nat) && (self.value as nat) < (P as nat)
    }

    /// The element whose value is the sum of the two values modulo `P`.
    pub open spec fn spec_add(self, other: Self) -> Self {
        FiniteFieldElement { value: add_val(self.value as nat, other.value as nat, P as nat) as u64 }
    }

    /// The element whose value is the difference of the two values modulo `P`.
    pub open spec fn spec_sub(self, other: Self) -> Self {
        FiniteFieldElement { value: sub_val(self.value as nat, other.value as nat, P as nat) as u64 }
    }

    /// The element whose value is the product of the two values modulo `P`.
    pub open spec fn spec_mul(self, other: Self) -> Self {
        FiniteFieldElement { value: mul_val(self.value as nat, other.value as nat, P as nat) as u64 }
    }

    /// The element raised to a signed exponent, reduced modulo `P - 1`.
    pub open spec fn spec_pow(self, exponent: int) -> Self
        recommends
            P >= 2,
    {
        FiniteFieldElement { value: pow_val(self.value as nat, exponent, P as nat) as u64 }
    }

    /// The quotient: the product with the divisor's multiplicative inverse.
    pub open spec fn spec_div(self, other: Self) -> Self
        recommends
            P >= 2,
    {
        FiniteFieldElement { value: div_val(self.value as nat, other.value as nat, P as nat) as u64 }
    }

    /// Validates that the order `P` is prime and normalizes `value` into
    /// `[0, P)`: any signed integer is accepted as a name for its residue
    /// class modulo `P`.
    pub fn new(value: i128) -> (r: Result<Self, NotPrimeError>)
        ensures
            !is_prime_spec(P as nat) ==> r == Err::<Self, NotPrimeError>(NotPrimeError),
            is_prime_spec(P as nat) ==> (r matches Ok(element) && element.value as int == (
            value as int) % (P as int) && element.wf()),
    {
        if !is_prime(P as u128) {
            return Err(NotPrimeError);
        }
        let v = rem_euclid_i128(value, P);
        Ok(FiniteFieldElement { value: v })
    }

    /// Sum of two elements, `(a + b) mod P`.
    pub fn add(self, other: Self) -> (r: Self)
        requires
            self.wf(),
            other.wf(),
        ensures
            r == self.spec_add(other),
            r.wf(),
    {
        let wide: u128 = (self.value as u128 + other.value as u128) % (P as u128);
        proof {
            lemma_mod_bound(self.value as int + other.value as int, P as int);
        }
        FiniteFieldElement { value: wide as u64 }
    }

    /// Difference of two elements, `(a - b) mod P`, normalized with the
    /// Euclidean remainder so a negative intermediate value ends in `[0, P)`.
    pub fn sub(self, other: Self) -> (r: Self)
        requires
            self.wf(),
            other.wf(),
        ensures
            r == self.spec_sub(other),
            r.wf(),
    {
        let wide: u128 = (self.value as u128 + P as u128 - other.value as u128) % (P as u128);
        proof {
            lemma_sub_as_shifted_add(self.value as nat, other.value as nat, P as nat);
            lemma_mod_bound(self.value as int + P as int - other.value as int, P as int);
        }
        FiniteFieldElement { value: wide as u64 }
    }

    /// Product of two elements, `(a * b) mod P`.
    pub fn mul(self, other: Self) -> (r: Self)
        requires
            self.wf(),
            other.wf(),
        ensures
            r == self.spec_mul(other),
            r.wf(),
    {
        FiniteFieldElement { value: mul_mod_u64(self.value, other.value, P) }
    }

    /// The element raised to any signed exponent: the exponent is reduced
    /// modulo `P - 1` first (Fermat's little theorem), then the power is
    /// computed by repeated squaring.
    pub fn pow(&self, n: i128) -> (r: Self)
        requires
            self.wf(),
        ensures
            r == self.spec_pow(n as int),
            r.wf(),
    {
        let reduced = rem_euclid_i128(n, P - 1);
        FiniteFieldElement { value: pow_mod_u64(self.value, reduced, P) }
    }

    /// Quotient of two elements: `a * b^(P-2) mod P`, the inverse coming
    /// from Fermat's little theorem; division by zero is rejected.
    pub fn div(self, other: Self) -> (r: Result<Self, FieldError>)
        requires
            self.wf(),
            other.wf(),
        ensures
            other.value == 0 ==> r == Err::<Self, FieldError>(FieldError::DivisionByZero),
            other.value != 0 ==> r == Ok::<Self, FieldError>(self.spec_div(other))
                && r.unwrap().wf(),
    {
        if other.value == 0 {
            return Err(FieldError::DivisionByZero);
        }
        let inverse = pow_mod_u64(other.value, P - 2, P);
        proof {
            lemma_small_mod((P - 2) as nat, (P - 1) as nat);
            assert(reduced_exp(P - 2, P as nat) == (P - 2) as nat);
            assert(inv_val(other.value as nat, P as nat) == inverse as nat);
        }
        Ok(FiniteFieldElement { value: mul_mod_u64(self.value, inverse, P) })
    }

    /// Replaces the element with its sum with `other`; observably the same
    /// as `add` followed by an assignment.
    pub fn add_assign(&mut self, other: Self)
        requires
            old(self).wf(),
            other.wf(),
        ensures
            *final(self) == old(self).spec_add(other),
            final(self).wf(),
    {
        *self = self.add(other);
    }

    /// Replaces the element with its difference with `other`; observably
    /// the same as `sub` followed by an assignment.
    pub fn sub_assign(&mut self, other: Self)
        requires
            old(self).wf(),
            other.wf(),
        ensures
            *final(self) == old(self).spec_sub(other),
            final(self).wf(),
    {
        *self = self.sub(other);
    }

    /// Replaces the element with its product with `other`; observably the
    /// same as `mul` followed by an assignment.
    pub fn mul_assign(&mut self, other: Self)
        requires
            old(self).wf(),
            other.wf(),
        ensures
            *final(self) == old(self).spec_mul(other),
            final(self).wf(),
    {
        *self = self.mul(other);
    }
}

} // verus!
