//! Euler's product formula for the totient: its value at primes and its
//! multiplicativity on coprime arguments.

use vstd::prelude::*;
use vstd::arithmetic::div_mod::*;
use vstd::arithmetic::mul::*;
use vstd::arithmetic::power::*;
use crate::divisibility::{
    lemma_gcd_greatest,
    lemma_multiple_divisible,
    lemma_prime_divides_factor,
};
use crate::integer::{prime, spec_gcd, spec_totient, totient_upto};

verus! {

/// Primes that do not divide `n` leave the product formula unchanged.
pub proof fn lemma_totient_upto_stable(n: nat, j: nat, k: nat)
    requires
        j <= k,
        forall|q: nat| j < q <= k && prime(q) ==> #[trigger] (n % q) != 0,
    ensures
        totient_upto(n, k) == totient_upto(n, j),
    decreases k,
{
    if j < k {
        if k >= 2 {
            if prime(k) {
                assert(n % k != 0);
            }
        }
        lemma_totient_upto_stable(n, j, (k - 1) as nat);
    }
}

/// The product formula over the primes up to `k` is still a multiple of
/// every larger prime that divides `n`.
pub proof fn lemma_totient_upto_divisible(n: nat, k: nat, q: nat)
    requires
        prime(q),
        q > k,
        n % q == 0,
    ensures
        totient_upto(n, k) % q == 0,
    decreases k,
{
    if k >= 2 {
        let before = totient_upto(n, (k - 1) as nat);
        lemma_totient_upto_divisible(n, (k - 1) as nat, q);
        if prime(k) && n % k == 0 {
            lemma_totient_upto_divisible(n, (k - 1) as nat, k);
            lemma_fundamental_div_mod(before as int, k as int);
            let share = before / k;
            assert(before == k * share);
            lemma_prime_divides_factor(q, k, share);
            lemma_small_mod(k, q);
            lemma_multiple_divisible(q as int, share as int, k - 1);
            assert(share * (k - 1) == before - share) by (nonlinear_arith)
                requires
                    before == k * share,
            ;
        }
    }
}

/// Euler's totient of a prime is its predecessor.
pub proof fn lemma_totient_of_prime(p: nat)
    requires
        prime(p),
    ensures
        spec_totient(p) == p - 1,
{
    assert forall|q: nat| 0 < q <= p - 1 && prime(q) implies #[trigger] (p % q) != 0 by {}
    lemma_totient_upto_stable(p, 0, (p - 1) as nat);
    lemma_mod_self_0(p as int);
    lemma_div_by_self(p as int);
}

/// The product formula is multiplicative on coprime arguments, prime by
/// prime.
pub proof fn lemma_totient_upto_multiplicative(m: nat, n: nat, k: nat)
    requires
        spec_gcd(m, n) == 1,
    ensures
        totient_upto(m * n, k) == totient_upto(m, k) * totient_upto(n, k),
    decreases k,
{
    if k >= 2 {
        lemma_totient_upto_multiplicative(m, n, (k - 1) as nat);
        let tm = totient_upto(m, (k - 1) as nat);
        let tn = totient_upto(n, (k - 1) as nat);
        let tmn = totient_upto(m * n, (k - 1) as nat);
        if prime(k) {
            if m % k == 0 && n % k == 0 {
                lemma_gcd_greatest(m, n, k);
                lemma_small_mod(1, k);
            }
            if m % k == 0 {
                lemma_multiple_divisible(k as int, m as int, n as int);
                lemma_totient_upto_divisible(m, (k - 1) as nat, k);
                lemma_fundamental_div_mod(tm as int, k as int);
                let share = tm / k;
                lemma_div_multiples_vanish((share * tn) as int, k as int);
                assert(tmn == (share * tn) * k && (tm - share) * tn == tmn - share * tn)
                    by (nonlinear_arith)
                    requires
                        tmn == tm * tn,
                        tm == k * share,
                ;
            } else if n % k == 0 {
                lemma_multiple_divisible(k as int, n as int, m as int);
                lemma_totient_upto_divisible(n, (k - 1) as nat, k);
                lemma_fundamental_div_mod(tn as int, k as int);
                let share = tn / k;
                lemma_div_multiples_vanish((tm * share) as int, k as int);
                assert(tmn == (tm * share) * k && tm * (tn - share) == tmn - tm * share)
                    by (nonlinear_arith)
                    requires
                        tmn == tm * tn,
                        tn == k * share,
                ;
            } else {
                if (m * n) % k == 0 {
                    lemma_prime_divides_factor(k, m, n);
                }
            }
        }
    }
}

/// Euler's totient is multiplicative: for coprime `m` and `n`, the totient
/// of `m * n` is the product of the totients of `m` and of `n`.
pub proof fn lemma_totient_multiplicative(m: nat, n: nat)
    requires
        m > 0,
        n > 0,
        spec_gcd(m, n) == 1,
    ensures
        spec_totient(m * n) == spec_totient(m) * spec_totient(n),
{
    assert(m <= m * n && n <= m * n) by (nonlinear_arith)
        requires
            m > 0,
            n > 0,
    ;
    lemma_totient_upto_multiplicative(m, n, m * n);
    assert forall|q: nat| m < q <= m * n && prime(q) implies #[trigger] (m % q) != 0 by {
        lemma_small_mod(m, q);
    }
    assert forall|q: nat| n < q <= m * n && prime(q) implies #[trigger] (n % q) != 0 by {
        lemma_small_mod(n, q);
    }
    lemma_totient_upto_stable(m, m, m * n);
    lemma_totient_upto_stable(n, n, m * n);
}

} // verus!
