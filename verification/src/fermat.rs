//! Fermat's little theorem: in a prime field every nonzero element raised
//! to `p - 1` gives 1. This is what makes `x^(p-2)` the multiplicative
//! inverse of `x`, and so backs the division of the field-element types.
//!
//! The proof is the classical counting argument. Multiplication by a
//! nonzero `x` permutes the nonzero residues, so the product of `x*k mod p`
//! over all nonzero residues `k` equals the product of the residues
//! themselves; pulling the `p - 1` factors of `x` out of the first product
//! and cancelling the common (invertible) product of residues leaves
//! `x^(p-1) == 1`. Invertibility of single residues comes from Bezout
//! coefficients of the greatest common divisor.

use crate::primality::is_prime_spec;
use vstd::arithmetic::div_mod::{
    lemma_fundamental_div_mod, lemma_mod_bound, lemma_mod_multiples_basic,
    lemma_mod_multiples_vanish, lemma_mod_twice, lemma_mul_mod_noop_general,
    lemma_mul_mod_noop_left, lemma_mul_mod_noop_right, lemma_small_mod,
};
use vstd::arithmetic::mul::{
    lemma_mul_basics, lemma_mul_inequality, lemma_mul_is_associative, lemma_mul_is_commutative,
};
use vstd::arithmetic::power::{lemma_pow0, lemma_pow1, lemma_pow_adds, pow};
use vstd::prelude::*;
use vstd::set::fold::is_fun_commutative;
use vstd::set_lib::{lemma_int_range, set_int_range};

verus! {

/// The greatest common divisor, by the Euclidean recursion.
pub open spec fn gcd(a: nat, b: nat) -> nat
    decreases b,
{
    if b == 0 {
        a
    } else {
        gcd(b, a % b)
    }
}

/// The greatest common divisor of positive numbers is positive.
proof fn lemma_gcd_pos(a: nat, b: nat)
    requires
        a > 0,
    ensures
        gcd(a, b) > 0,
    decreases b,
{
    if b > 0 {
        lemma_gcd_pos(b, a % b);
    }
}

/// The greatest common divisor divides both of its arguments.
proof fn lemma_gcd_divides(a: nat, b: nat)
    requires
        a > 0,
    ensures
        a % gcd(a, b) == 0,
        b % gcd(a, b) == 0,
    decreases b,
{
    lemma_gcd_pos(a, b);
    if b == 0 {
        lemma_mod_multiples_basic(1int, a as int);
        assert(1 * (a as int) == a as int) by {
            lemma_mul_basics(a as int);
        };
        lemma_small_mod(0, a);
    } else {
        let g = gcd(b, a % b) as int;
        lemma_gcd_divides(b, a % b);
        lemma_gcd_pos(b, a % b);
        let qb = b as int / g;
        let qr = (a % b) as int / g;
        lemma_fundamental_div_mod(b as int, g);
        lemma_fundamental_div_mod((a % b) as int, g);
        lemma_fundamental_div_mod(a as int, b as int);
        assert(a as int == (g * qb) * (a as int / b as int) + g * qr);
        assert(a as int == (qb * (a as int / b as int) + qr) * g) by (nonlinear_arith)
            requires
                a as int == (g * qb) * (a as int / b as int) + g * qr,
        {
        }
        lemma_mod_multiples_basic(qb * (a as int / b as int) + qr, g);
    }
}

/// Bezout coefficients: integers `s` and `t` with
/// `s*a + t*b == gcd(a, b)`.
proof fn lemma_bezout(a: nat, b: nat) -> (r: (int, int))
    ensures
        r.0 * a + r.1 * b == gcd(a, b),
    decreases b,
{
    if b == 0 {
        assert(1 * (a as int) + 0 * (b as int) == a as int) by {
            lemma_mul_basics(a as int);
            lemma_mul_basics(b as int);
        };
        (1int, 0int)
    } else {
        let (s, t) = lemma_bezout(b, a % b);
        lemma_fundamental_div_mod(a as int, b as int);
        let q = a as int / b as int;
        assert(t * (a as int) + (s - t * q) * (b as int) == s * (b as int) + t * ((a % b) as int))
            by (nonlinear_arith)
            requires
                (a % b) as int == a as int - (b as int) * q,
        {
        }
        (t, s - t * q)
    }
}

/// In a prime field every nonzero residue has a multiplicative inverse.
proof fn lemma_prime_inverse(x: nat, p: nat) -> (w: nat)
    requires
        is_prime_spec(p),
        1 <= x < p,
    ensures
        w < p,
        (x * w) % p == 1,
{
    let g = gcd(x, p);
    lemma_gcd_pos(x, p);
    lemma_gcd_divides(x, p);
    // g divides x, so g <= x < p; g divides the prime p and is below it,
    // so g is 1.
    assert(g <= x) by {
        lemma_fundamental_div_mod(x as int, g as int);
        assert(x as int == g as int * (x as int / g as int));
        if x as int / g as int <= 0 {
            lemma_mul_inequality(x as int / g as int, 0int, g as int);
            lemma_mul_is_commutative(x as int / g as int, g as int);
            assert(false);
        }
        lemma_mul_inequality(1int, x as int / g as int, g as int);
        lemma_mul_basics(g as int);
        lemma_mul_is_commutative(x as int / g as int, g as int);
    };
    assert(g == 1) by {
        if g != 1 {
            assert(2 <= g < p);
            assert(p as int % g as int != 0);
        }
    };
    let (s, t) = lemma_bezout(x, p);
    assert(s * x + t * p == 1);
    let w = s % (p as int);
    lemma_mod_bound(s, p as int);
    assert((x as int * w) % (p as int) == (x as int * s) % (p as int)) by {
        lemma_mul_mod_noop_right(x as int, s, p as int);
    };
    let xi = x as int;
    let pi = p as int;
    assert(s * xi + t * pi == 1);
    assert(xi * s == pi * (-t) + 1) by {
        lemma_mul_is_commutative(xi, s);
        lemma_mul_is_commutative(pi, t);
        vstd::arithmetic::mul::lemma_mul_unary_negation(pi, t);
    };
    assert((pi * (-t) + 1) % pi == 1int % pi) by {
        lemma_mod_multiples_vanish(-t, 1int, pi);
    };
    lemma_small_mod(1, p);
    assert((x * (w as nat)) % p == 1) by {
        assert(x as int * w == (x * (w as nat)) as int);
    };
    w as nat
}



/// Multiplication by `x`, reduced modulo `p`: the map whose action on the
/// nonzero residues the counting argument studies.
pub open spec fn sigma_fn(x: nat, p: nat) -> spec_fn(int) -> int {
    |k: int| ((x as int) * k) % (p as int)
}

/// One fold step of the plain residue product.
pub open spec fn fid(p: nat) -> spec_fn(int, int) -> int {
    |acc: int, k: int| (acc * k) % (p as int)
}

/// One fold step of the product of `x*k mod p` over the residues `k`.
pub open spec fn fsig(x: nat, p: nat) -> spec_fn(int, int) -> int {
    |acc: int, k: int| (acc * (((x as int) * k) % (p as int))) % (p as int)
}

proof fn lemma_fid_commutative(p: nat)
    requires
        p >= 1,
    ensures
        is_fun_commutative(fid(p)),
{
    let f = fid(p);
    let pi = p as int;
    assert forall|a1: int, a2: int, b: int| #[trigger] f(f(b, a2), a1) == f(f(b, a1), a2) by {
        lemma_mul_mod_noop_left(b * a2, a1, pi);
        lemma_mul_mod_noop_left(b * a1, a2, pi);
        lemma_mul_is_associative(b, a2, a1);
        lemma_mul_is_associative(b, a1, a2);
        lemma_mul_is_commutative(a1, a2);
    };
}

proof fn lemma_fsig_commutative(x: nat, p: nat)
    requires
        p >= 1,
    ensures
        is_fun_commutative(fsig(x, p)),
{
    let f = fsig(x, p);
    let pi = p as int;
    let xi = x as int;
    assert forall|a1: int, a2: int, b: int| #[trigger] f(f(b, a2), a1) == f(f(b, a1), a2) by {
        let g1 = (xi * a1) % pi;
        let g2 = (xi * a2) % pi;
        lemma_mul_mod_noop_left(b * g2, g1, pi);
        lemma_mul_mod_noop_left(b * g1, g2, pi);
        lemma_mul_is_associative(b, g2, g1);
        lemma_mul_is_associative(b, g1, g2);
        lemma_mul_is_commutative(g1, g2);
    };
}

/// Pulling the common factor `x` out of the product of the `x*k mod p`
/// leaves one power of `x` per element next to the plain product.
proof fn lemma_product_pulls_out_factor(s: Set<int>, x: nat, p: nat)
    requires
        s.finite(),
        p >= 1,
    ensures
        (pow(x as int, s.len()) * s.fold(1, fid(p))) % (p as int) == s.fold(1, fsig(x, p)) % (
        p as int),
{
    let pi = p as int;
    let xi = x as int;
    lemma_fid_commutative(p);
    lemma_fsig_commutative(x, p);
    let pred = |t: Set<int>|
        t.finite() ==> (pow(xi, t.len()) * t.fold(1, fid(p))) % pi == t.fold(1, fsig(x, p)) % pi;
    assert(pred(Set::<int>::empty())) by {
        vstd::set::fold::lemma_fold_empty(1int, fid(p));
        vstd::set::fold::lemma_fold_empty(1int, fsig(x, p));
        lemma_pow0(xi);
        lemma_mul_basics(1int);
        assert(Set::<int>::empty().len() == 0);
    };
    assert forall|t: Set<int>, a: int| pred(t) && t.finite() && !t.contains(a) implies #[trigger] pred(
        t.insert(a),
    ) by {
        let n = t.len();
        let f_old = t.fold(1, fid(p));
        let g_old = t.fold(1, fsig(x, p));
        vstd::set::fold::lemma_fold_insert(t, 1int, fid(p), a);
        vstd::set::fold::lemma_fold_insert(t, 1int, fsig(x, p), a);
        assert(t.insert(a).fold(1, fid(p)) == (f_old * a) % pi);
        assert(t.insert(a).fold(1, fsig(x, p)) == (g_old * ((xi * a) % pi)) % pi);
        assert(t.insert(a).len() == n + 1);
        let pw = pow(xi, n);
        assert(pow(xi, n + 1) == xi * pw) by {
            lemma_pow_adds(xi, 1, n);
            lemma_pow1(xi);
        };
        // Left side: fold in the reduced product, rearrange, reduce again.
        lemma_mul_mod_noop_right(xi * pw, f_old * a, pi);
        assert((xi * pw) * (f_old * a) == (pw * f_old) * (xi * a)) by (nonlinear_arith);
        lemma_mul_mod_noop_left(pw * f_old, xi * a, pi);
        assert(((xi * pw) * ((f_old * a) % pi)) % pi == (((pw * f_old) % pi) * (xi * a)) % pi);
        // Right side down to the same expression, through the hypothesis.
        lemma_mul_mod_noop_left(g_old, xi * a, pi);
        lemma_mod_twice(g_old, pi);
        lemma_mod_twice(pw * f_old, pi);
        assert(((pw * f_old) % pi) % pi == (g_old % pi) % pi);
        lemma_mul_mod_noop_left((pw * f_old) % pi, xi * a, pi);
        lemma_mul_mod_noop_left(g_old % pi, xi * a, pi);
        assert((((pw * f_old) % pi) * (xi * a)) % pi == ((g_old % pi) * (xi * a)) % pi);
        assert(((g_old % pi) * (xi * a)) % pi == (g_old * (xi * a)) % pi);
        lemma_mul_mod_noop_right(g_old, xi * a, pi);
        assert((g_old * (xi * a)) % pi == (g_old * ((xi * a) % pi)) % pi);
        lemma_mod_twice(g_old * ((xi * a) % pi), pi);
    };
    vstd::set::fold::lemma_finite_set_induct(s, pred);
}

/// A residue reduced by the inverse of `x` undoes multiplication by `x`.
proof fn lemma_sigma_undone(x: nat, w: nat, p: nat, k: int)
    requires
        p >= 1,
        (x * w) % p == 1,
        0 <= k < p,
    ensures
        ((w as int) * (((x as int) * k) % (p as int))) % (p as int) == k,
{
    let pi = p as int;
    let xi = x as int;
    let wi = w as int;
    lemma_mul_mod_noop_right(wi, xi * k, pi);
    assert(wi * (xi * k) == (xi * wi) * k) by (nonlinear_arith);
    lemma_mul_mod_noop_left(xi * wi, k, pi);
    assert(((xi * wi) % pi) * k == 1 * k) by {
        assert((xi * wi) % pi == 1) by {
            assert(xi * wi == (x * w) as int);
        };
    };
    lemma_mul_basics(k);
    lemma_small_mod(k as nat, p);
}

/// Multiplication by an invertible residue is injective on the residues.
proof fn lemma_sigma_injective(x: nat, w: nat, p: nat, k1: int, k2: int)
    requires
        p >= 1,
        (x * w) % p == 1,
        0 <= k1 < p,
        0 <= k2 < p,
        ((x as int) * k1) % (p as int) == ((x as int) * k2) % (p as int),
    ensures
        k1 == k2,
{
    lemma_sigma_undone(x, w, p, k1);
    lemma_sigma_undone(x, w, p, k2);
}

/// The product of the `x*k mod p` over a set of residues equals the plain
/// product over the image of the set under multiplication by `x`.
proof fn lemma_product_of_image(s: Set<int>, x: nat, w: nat, p: nat)
    requires
        s.finite(),
        p >= 1,
        (x * w) % p == 1,
        s.subset_of(set_int_range(0, p as int)),
    ensures
        s.fold(1, fsig(x, p)) % (p as int) == s.map(sigma_fn(x, p)).fold(1, fid(p)) % (p as int),
{
    let pi = p as int;
    let xi = x as int;
    let sig = sigma_fn(x, p);
    lemma_fid_commutative(p);
    lemma_fsig_commutative(x, p);
    let pred = |t: Set<int>|
        (t.finite() && t.subset_of(set_int_range(0, pi))) ==> t.fold(1, fsig(x, p)) % pi == t.map(
            sig,
        ).fold(1, fid(p)) % pi;
    assert(pred(Set::<int>::empty())) by {
        assert(Set::<int>::empty().map(sig) =~= Set::<int>::empty());
        vstd::set::fold::lemma_fold_empty(1int, fid(p));
        vstd::set::fold::lemma_fold_empty(1int, fsig(x, p));
    };
    assert forall|t: Set<int>, a: int| pred(t) && t.finite() && !t.contains(a) implies #[trigger] pred(
        t.insert(a),
    ) by {
        if t.insert(a).subset_of(set_int_range(0, pi)) {
            assert(t.subset_of(set_int_range(0, pi)));
            assert(t.insert(a).contains(a));
            assert(0 <= a < pi);
            // The image of the enlarged set is the enlarged image.
            assert(t.insert(a).map(sig) =~= t.map(sig).insert(sig(a))) by {
                assert forall|b: int| t.insert(a).map(sig).contains(b) implies t.map(sig).insert(
                    sig(a),
                ).contains(b) by {
                    let k = choose|k: int| t.insert(a).contains(k) && b == sig(k);
                    if k != a {
                        assert(t.contains(k) && b == sig(k));
                    }
                };
                assert forall|b: int| t.map(sig).insert(sig(a)).contains(b) implies t.insert(
                    a,
                ).map(sig).contains(b) by {
                    if b == sig(a) {
                        assert(t.insert(a).contains(a) && b == sig(a));
                    } else {
                        let k = choose|k: int| t.contains(k) && b == sig(k);
                        assert(t.insert(a).contains(k) && b == sig(k));
                    }
                };
            };
            // Injectivity keeps the new image element fresh.
            assert(!t.map(sig).contains(sig(a))) by {
                if t.map(sig).contains(sig(a)) {
                    let k = choose|k: int| t.contains(k) && sig(a) == sig(k);
                    lemma_sigma_injective(x, w, p, k, a);
                }
            };
            t.lemma_map_finite(sig);
            vstd::set::fold::lemma_fold_insert(t, 1int, fsig(x, p), a);
            vstd::set::fold::lemma_fold_insert(t.map(sig), 1int, fid(p), sig(a));
            let g_old = t.fold(1, fsig(x, p));
            let h_old = t.map(sig).fold(1, fid(p));
            assert(t.insert(a).fold(1, fsig(x, p)) == (g_old * ((xi * a) % pi)) % pi);
            assert(t.insert(a).map(sig).fold(1, fid(p)) == (h_old * sig(a)) % pi);
            assert(sig(a) == (xi * a) % pi);
            let m = (xi * a) % pi;
            lemma_mul_mod_noop_left(g_old, m, pi);
            lemma_mul_mod_noop_left(h_old, m, pi);
            lemma_mod_twice(g_old, pi);
            lemma_mod_twice(h_old, pi);
            assert((g_old * m) % pi == ((g_old % pi) * m) % pi);
            assert((h_old * m) % pi == ((h_old % pi) * m) % pi);
            assert((g_old % pi) % pi == (h_old % pi) % pi);
            lemma_mod_twice(g_old * m, pi);
            lemma_mod_twice(h_old * m, pi);
        }
    };
    vstd::set::fold::lemma_finite_set_induct(s, pred);
}

/// Multiplication by an invertible residue permutes the nonzero residues.
proof fn lemma_sigma_image_full(x: nat, w: nat, p: nat)
    requires
        p >= 2,
        1 <= x < p,
        w < p,
        (x * w) % p == 1,
    ensures
        set_int_range(1, p as int).map(sigma_fn(x, p)) == set_int_range(1, p as int),
{
    let pi = p as int;
    let xi = x as int;
    let wi = w as int;
    let sig = sigma_fn(x, p);
    let full = set_int_range(1, pi);
    assert(full.map(sig) =~= full) by {
        assert forall|b: int| full.map(sig).contains(b) implies full.contains(b) by {
            let k = choose|k: int| full.contains(k) && b == sig(k);
            lemma_mod_bound(xi * k, pi);
            if b == 0 {
                lemma_sigma_undone(x, w, p, k);
                assert((wi * 0int) % pi == 0) by {
                    lemma_mul_basics(wi);
                    lemma_small_mod(0, p);
                };
            }
        };
        assert forall|b: int| full.contains(b) implies full.map(sig).contains(b) by {
            let k = (wi * b) % pi;
            lemma_mod_bound(wi * b, pi);
            assert(sig(k) == b) by {
                lemma_mul_mod_noop_right(xi, wi * b, pi);
                assert(xi * (wi * b) == (xi * wi) * b) by (nonlinear_arith);
                lemma_mul_mod_noop_left(xi * wi, b, pi);
                assert((xi * wi) % pi == 1) by {
                    assert(xi * wi == (x * w) as int);
                };
                lemma_mul_basics(b);
                lemma_small_mod(b as nat, p);
            };
            if k == 0 {
                assert(sig(0int) == 0) by {
                    lemma_mul_basics(xi);
                    lemma_small_mod(0, p);
                };
            }
            assert(full.contains(k) && b == sig(k));
        };
    };
}

/// The plain product of a set of nonzero residues is itself invertible.
proof fn lemma_product_invertible(s: Set<int>, p: nat)
    requires
        s.finite(),
        is_prime_spec(p),
        s.subset_of(set_int_range(1, p as int)),
    ensures
        exists|u: int|
            0 <= u < p as int && #[trigger] ((s.fold(1, fid(p)) * u) % (p as int)) == 1,
{
    let pi = p as int;
    lemma_fid_commutative(p);
    let pred = |t: Set<int>|
        (t.finite() && t.subset_of(set_int_range(1, pi))) ==> exists|u: int|
            0 <= u < pi && #[trigger] ((t.fold(1, fid(p)) * u) % pi) == 1;
    assert(pred(Set::<int>::empty())) by {
        vstd::set::fold::lemma_fold_empty(1int, fid(p));
        lemma_mul_basics(1int);
        lemma_small_mod(1, p);
        assert((Set::<int>::empty().fold(1, fid(p)) * 1int) % pi == 1);
    };
    assert forall|t: Set<int>, a: int| pred(t) && t.finite() && !t.contains(a) implies #[trigger] pred(
        t.insert(a),
    ) by {
        if t.insert(a).subset_of(set_int_range(1, pi)) {
            assert(t.subset_of(set_int_range(1, pi)));
            assert(t.insert(a).contains(a));
            assert(1 <= a < pi);
            let f_old = t.fold(1, fid(p));
            let u = choose|u: int| 0 <= u < pi && #[trigger] ((f_old * u) % pi) == 1;
            let wa = lemma_prime_inverse(a as nat, p);
            let wai = wa as int;
            assert((a * wai) % pi == 1) by {
                assert(a * wai == ((a as nat) * wa) as int);
            };
            vstd::set::fold::lemma_fold_insert(t, 1int, fid(p), a);
            let f_new = t.insert(a).fold(1, fid(p));
            assert(f_new == (f_old * a) % pi);
            let v = (u * wai) % pi;
            lemma_mod_bound(u * wai, pi);
            assert((f_new * v) % pi == 1) by {
                lemma_mul_mod_noop_general(f_old * a, u * wai, pi);
                assert(((f_old * a) % pi * ((u * wai) % pi)) % pi == ((f_old * a) * (u * wai))
                    % pi);
                assert((f_old * a) * (u * wai) == (f_old * u) * (a * wai)) by (nonlinear_arith);
                lemma_mul_mod_noop_general(f_old * u, a * wai, pi);
                assert(((f_old * u) % pi * ((a * wai) % pi)) % pi == ((f_old * u) * (a * wai))
                    % pi);
                lemma_mul_basics(1int);
                lemma_small_mod(1, p);
            };
        }
    };
    vstd::set::fold::lemma_finite_set_induct(s, pred);
}

/// Fermat's little theorem: for a prime `p` and `x` in `[1, p)`,
/// `x^(p-1) mod p == 1`.
pub proof fn lemma_fermat_little(x: nat, p: nat)
    requires
        is_prime_spec(p),
        1 <= x < p,
    ensures
        pow(x as int, (p - 1) as nat) % (p as int) == 1,
{
    let pi = p as int;
    let xi = x as int;
    let w = lemma_prime_inverse(x, p);
    let full = set_int_range(1, pi);
    lemma_int_range(1, pi);
    assert(full.len() == (p - 1) as nat);
    lemma_product_pulls_out_factor(full, x, p);
    assert(full.subset_of(set_int_range(0, pi)));
    lemma_product_of_image(full, x, w, p);
    lemma_sigma_image_full(x, w, p);
    let f_full = full.fold(1, fid(p));
    let big = pow(xi, (p - 1) as nat);
    assert((big * f_full) % pi == f_full % pi);
    lemma_product_invertible(full, p);
    let u = choose|u: int| 0 <= u < pi && #[trigger] ((f_full * u) % pi) == 1;
    // Cancel the invertible common product.
    assert(big % pi == 1) by {
        lemma_mul_mod_noop_right(big, f_full * u, pi);
        assert(big * (f_full * u) == (big * f_full) * u) by {
            lemma_mul_is_associative(big, f_full, u);
        };
        lemma_mul_mod_noop_left(big * f_full, u, pi);
        lemma_mul_mod_noop_left(f_full, u, pi);
        assert(((big * f_full) % pi * u) % pi == (f_full % pi * u) % pi);
        assert((big * ((f_full * u) % pi)) % pi == 1) by {
            lemma_mod_twice(f_full * u, pi);
        };
        lemma_mul_basics(big);
        lemma_small_mod(1, p);
        assert((big * 1int) % pi == big % pi);
    };
}

} // verus!
