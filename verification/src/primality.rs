use vstd::arithmetic::div_mod::{
    lemma_fundamental_div_mod, lemma_mod_bound, lemma_mod_multiples_basic,
};
use vstd::arithmetic::mul::{
    lemma_mul_inequality, lemma_mul_is_distributive_sub, lemma_mul_left_inequality,
};
use vstd::prelude::*;

verus! {

/// A number is prime when it is at least 2 and no number from 2 up to
/// (excluding) itself divides it.
pub open spec fn is_prime_spec(n: nat) -> bool {
    n >= 2 && forall|d: nat| 2 <= d < n ==> #[trigger] (n as int % d as int) != 0
}

/// If `n` has no divisor in `[2, bound)` and `n < bound * bound`, then `n`
/// has no divisor below itself at all: any factorization `n == d * e` with
/// `d, e >= 2` puts one of the two factors below `bound`.
proof fn lemma_no_divisor_below_sqrt(n: nat, bound: nat)
    requires
        n >= 2,
        bound >= 2,
        n < bound * bound,
        forall|d: nat| 2 <= d < bound ==> #[trigger] (n as int % d as int) != 0,
    ensures
        is_prime_spec(n),
{
    assert forall|d: nat| 2 <= d < n implies #[trigger] (n as int % d as int) != 0 by {
        if n as int % d as int == 0 && d >= bound {
            let di = d as int;
            let e = n as int / di;
            lemma_fundamental_div_mod(n as int, di);
            assert(n as int == di * e);
            assert(e >= 2) by {
                if e <= 0 {
                    lemma_mul_inequality(e, 0int, di);
                    assert(e * di <= 0 * di);
                    assert(false);
                }
                if e == 1 {
                    assert(n as int == di * 1);
                    assert(false);
                }
            };
            assert(e < bound) by {
                if e >= bound {
                    lemma_mul_inequality(bound as int, di, e);
                    lemma_mul_left_inequality(bound as int, bound as int, e);
                    assert(bound * bound <= bound * e);
                    assert(bound * e <= di * e);
                    assert(false);
                }
            };
            lemma_mod_multiples_basic(di, e);
            assert((di * e) % e == 0);
            let en = e as nat;
            assert(2 <= en < bound);
            assert(n as int % (en as int) == 0);
            assert(false);
        }
    };
}

/// Trial division by every number up to the square root of the candidate.
pub fn is_prime(number_to_check: u128) -> (result: bool)
    ensures
        result == is_prime_spec(number_to_check as nat),
{
    if number_to_check < 2 {
        return false;
    }
    let n = number_to_check;
    let mut aux: u128 = 2;
    while aux <= n / aux
        invariant
            2 <= aux,
            2 <= n,
            n == number_to_check,
            forall|d: nat| 2 <= d < aux ==> #[trigger] (n as int % d as int) != 0,
        decreases n - aux,
    {
        proof {
            // The loop condition bounds `aux` well below `n`:
            // `n >= aux * aux >= 2 * aux`.
            lemma_fundamental_div_mod(n as int, aux as int);
            lemma_mod_bound(n as int, aux as int);
            lemma_mul_left_inequality(aux as int, aux as int, n as int / aux as int);
            assert(aux * aux <= aux * (n as int / aux as int));
            lemma_mul_inequality(2int, aux as int, aux as int);
            assert(2 * aux <= aux * aux);
            assert(aux < n);
        }
        if n % aux == 0 {
            proof {
                assert(2 <= (aux as nat) && (aux as nat) < (n as nat));
                assert(!is_prime_spec(n as nat));
            }
            return false;
        }
        aux = aux + 1;
    }
    proof {
        lemma_fundamental_div_mod(n as int, aux as int);
        lemma_mod_bound(n as int, aux as int);
        assert(n as int / aux as int <= aux - 1);
        lemma_mul_left_inequality(aux as int, n as int / aux as int, aux - 1);
        lemma_mul_is_distributive_sub(aux as int, aux as int, 1int);
        assert(aux * (aux - 1) == aux * aux - aux * 1);
        assert(n < aux * aux);
        lemma_no_divisor_below_sqrt(n as nat, aux as nat);
    }
    true
}

} // verus!
