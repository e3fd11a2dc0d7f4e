//! Residue-class arithmetic shared by the two field-element types.
//!
//! The spec functions here are the mathematical model: each operation on a
//! field element is specified as the corresponding operation on its value,
//! reduced into `[0, p)` by the Euclidean remainder. Exponents are signed
//! and are reduced modulo `p - 1` first, since the multiplicative group of
//! a prime field has order `p - 1` (Fermat's little theorem); the reduction
//! alone gives negative exponents their meaning.

use vstd::arithmetic::div_mod::{
    lemma_add_mod_noop_right, lemma_fundamental_div_mod, lemma_fundamental_div_mod_converse,
    lemma_mod_add_multiples_vanish, lemma_mod_bound, lemma_mod_twice, lemma_mul_mod_noop_general,
    lemma_small_mod,
};
use vstd::arithmetic::mul::{lemma_mul_is_associative, lemma_mul_upper_bound};
use vstd::arithmetic::power::{
    lemma_pow0, lemma_pow1, lemma_pow_adds, lemma_pow_mod_noop, lemma_pow_multiplies,
    lemma_square_is_pow2, pow,
};
use vstd::prelude::*;

verus! {

/// Sum of two residues modulo `p`.
pub open spec fn add_val(x: nat, y: nat, p: nat) -> nat {
    (x + y) % p
}

/// Difference of two residues modulo `p`, with the Euclidean remainder, so
/// a negative intermediate value normalizes back into `[0, p)`.
pub open spec fn sub_val(x: nat, y: nat, p: nat) -> nat {
    ((x - y) % (p as int)) as nat
}

/// Product of two residues modulo `p`.
pub open spec fn mul_val(x: nat, y: nat, p: nat) -> nat {
    (x * y) % p
}

/// A signed exponent reduced into `[0, p - 1)`, the exponent range that
/// matters in a field whose multiplicative group has order `p - 1`.
pub open spec fn reduced_exp(k: int, p: nat) -> nat
    recommends
        p >= 2,
{
    (k % (p - 1)) as nat
}

/// `x` raised to the signed exponent `k` modulo `p`: the exponent is
/// reduced modulo `p - 1` first, then ordinary exponentiation is reduced
/// modulo `p`.
pub open spec fn pow_val(x: nat, k: int, p: nat) -> nat
    recommends
        p >= 2,
{
    (pow(x as int, reduced_exp(k, p)) % (p as int)) as nat
}

/// The multiplicative inverse of `x` modulo a prime `p`, computed by
/// Fermat's little theorem as `x^(p-2) mod p`.
pub open spec fn inv_val(x: nat, p: nat) -> nat
    recommends
        p >= 2,
{
    (pow(x as int, (p - 2) as nat) % (p as int)) as nat
}

/// Quotient of two residues modulo a prime `p`: the product with the
/// multiplicative inverse of the divisor, never a direct division.
pub open spec fn div_val(x: nat, y: nat, p: nat) -> nat
    recommends
        p >= 2,
{
    mul_val(x, inv_val(y, p), p)
}

/// `(x * y) % m` computed without overflow through 128-bit intermediates.
pub fn mul_mod_u64(x: u64, y: u64, m: u64) -> (r: u64)
    requires
        1 <= m,
    ensures
        r as nat == mul_val(x as nat, y as nat, m as nat),
        r < m,
{
    proof {
        lemma_mul_upper_bound(x as int, u64::MAX as int, y as int, u64::MAX as int);
    }
    let wide: u128 = (x as u128) * (y as u128);
    let rem: u128 = wide % (m as u128);
    proof {
        lemma_mod_bound(wide as int, m as int);
    }
    rem as u64
}

/// The Euclidean remainder of a signed value by a positive 64-bit modulus:
/// the result is the unique representative of the value's residue class in
/// `[0, modulus)`.
pub fn rem_euclid_i128(value: i128, modulus: u64) -> (r: u64)
    requires
        1 <= modulus,
    ensures
        r as int == (value as int) % (modulus as int),
        r < modulus,
{
    let m_wide: u128 = modulus as u128;
    if value >= 0 {
        let rem: u128 = (value as u128) % m_wide;
        proof {
            lemma_mod_bound(value as int, modulus as int);
        }
        rem as u64
    } else {
        let neg: u128 = (-(value + 1)) as u128;
        let r0: u128 = neg % m_wide;
        proof {
            let v = value as int;
            let m = modulus as int;
            let t = -(v + 1);
            lemma_fundamental_div_mod(t, m);
            lemma_mod_bound(t, m);
            let q = t / m;
            let r0i = t % m;
            assert(v == m * (-q - 1) + (m - 1 - r0i)) by {
                assert(m * (-q - 1) == -(m * q) - m) by (nonlinear_arith);
            };
            lemma_fundamental_div_mod_converse(v, m, -q - 1, m - 1 - r0i);
        }
        modulus - 1 - (r0 as u64)
    }
}

/// Modular exponentiation by repeated squaring: `O(log exp)` modular
/// multiplications.
pub fn pow_mod_u64(base: u64, exp: u64, m: u64) -> (r: u64)
    requires
        1 <= m,
    ensures
        r as int == pow(base as int, exp as nat) % (m as int),
        r < m,
{
    let mut result: u64 = 1 % m;
    let mut b: u64 = base % m;
    let mut e: u64 = exp;
    proof {
        lemma_mod_bound(1int, m as int);
        lemma_mod_bound(base as int, m as int);
        lemma_pow_mod_noop(base as int, exp as nat, m as int);
        lemma_mul_mod_noop_general(1int, pow((base as int) % (m as int), exp as nat), m as int);
        lemma_mod_twice(pow((base as int) % (m as int), exp as nat), m as int);
    }
    while e > 0
        invariant
            1 <= m,
            result < m,
            b < m,
            (result as int * pow(b as int, e as nat)) % (m as int) == pow(base as int, exp as nat)
                % (m as int),
        decreases e,
    {
        proof {
            lemma_step_square_and_multiply(result as nat, b as nat, e as nat, m as nat);
        }
        if e % 2 == 1 {
            result = mul_mod_u64(result, b, m);
        }
        b = mul_mod_u64(b, b, m);
        e = e / 2;
    }
    proof {
        lemma_pow0(b as int);
        lemma_small_mod(result as nat, m as nat);
        assert(result as int * pow(b as int, 0) == result as int);
    }
    result
}

/// One step of square-and-multiply: splitting the exponent `e` into its
/// lowest bit and its upper bits preserves the running product modulo `m`.
proof fn lemma_step_square_and_multiply(r: nat, b: nat, e: nat, m: nat)
    requires
        m >= 1,
        e >= 1,
    ensures
        e % 2 == 1 ==> (mul_val(r, b, m) * pow(mul_val(b, b, m) as int, (e / 2) as nat)) % (
        m as int) == (r * pow(b as int, e)) % (m as int),
        e % 2 == 0 ==> (r * pow(mul_val(b, b, m) as int, (e / 2) as nat)) % (m as int) == (r * pow(
            b as int,
            e,
        )) % (m as int),
{
    let h = (e / 2) as nat;
    let bb = (b * b) as int;
    assert(pow(bb, h) == pow(b as int, 2 * h)) by {
        lemma_pow_multiplies(b as int, 2, h);
        lemma_square_is_pow2(b as int);
    };
    // Reducing the squared base modulo m does not change the product mod m.
    assert((r * pow(mul_val(b, b, m) as int, h)) % (m as int) == (r * pow(bb, h)) % (m as int)) by {
        lemma_pow_mod_noop(bb, h, m as int);
        lemma_mul_mod_noop_general(r as int, pow((bb % (m as int)), h), m as int);
        lemma_mul_mod_noop_general(r as int, pow(bb, h), m as int);
        lemma_mod_twice(pow(bb, h), m as int);
        lemma_mod_bound(bb, m as int);
    };
    if e % 2 == 0 {
        assert(2 * h == e);
    } else {
        assert(2 * h + 1 == e);
        assert(pow(b as int, e) == b as int * pow(b as int, 2 * h)) by {
            lemma_pow_adds(b as int, 1, 2 * h);
            lemma_pow1(b as int);
        };
        assert((mul_val(r, b, m) * pow(mul_val(b, b, m) as int, h)) % (m as int) == (mul_val(
            r,
            b,
            m,
        ) * pow(bb, h)) % (m as int)) by {
            lemma_pow_mod_noop(bb, h, m as int);
            lemma_mul_mod_noop_general(mul_val(r, b, m) as int, pow((bb % (m as int)), h), m as int);
            lemma_mul_mod_noop_general(mul_val(r, b, m) as int, pow(bb, h), m as int);
            lemma_mod_twice(pow(bb, h), m as int);
        };
        assert((mul_val(r, b, m) * pow(bb, h)) % (m as int) == ((r * b) * pow(bb, h)) % (m as int))
            by {
            lemma_mul_mod_noop_general((r * b) as int, pow(bb, h), m as int);
            lemma_mod_twice((r * b) as int, m as int);
        };
        assert((r * b) * pow(bb, h) == r * (b * pow(bb, h))) by {
            lemma_mul_is_associative(r as int, b as int, pow(bb, h));
        };
    }
}

/// Adding residues is insensitive to a prior reduction of either summand.
pub proof fn lemma_add_mod_noop_general(x: int, y: int, m: int)
    requires
        m >= 1,
    ensures
        ((x % m) + y) % m == (x + y) % m,
        (x + (y % m)) % m == (x + y) % m,
{
    lemma_add_mod_noop_right(y, x, m);
    lemma_add_mod_noop_right(x, y, m);
}

/// Subtraction normalized by the Euclidean remainder agrees with adding the
/// modulus first, which is how the executable code avoids going negative.
pub proof fn lemma_sub_as_shifted_add(x: nat, y: nat, p: nat)
    requires
        p >= 1,
        x < p,
        y < p,
    ensures
        (x + p - y) % (p as int) == sub_val(x, y, p),
{
    lemma_mod_add_multiples_vanish(x - y, p as int);
}

} // verus!
