//! Products of prime powers: which primes divide them, and the uniqueness of
//! the prime factorization.

use vstd::prelude::*;
use vstd::arithmetic::div_mod::*;
use vstd::arithmetic::mul::*;
use vstd::arithmetic::power::*;
use crate::divisibility::{
    lemma_multiple_divisible,
    lemma_pow_at_least_base,
    lemma_prime_divides_factor,
    lemma_prime_divides_prime_power,
};
use crate::integer::{factor_product, prime, prime_factorization, prime_powers};

verus! {

/// A product of prime powers is at least 1, and at least 2 unless it is empty.
pub proof fn lemma_factor_product_positive(f: Seq<(u128, u32)>)
    requires
        prime_powers(f),
    ensures
        factor_product(f) >= 1,
        f.len() > 0 ==> factor_product(f) >= 2,
    decreases f.len(),
{
    if f.len() > 0 {
        let rest = f.drop_last();
        let last = f.last();
        assert(last == f[f.len() - 1]);
        assert forall|i: int| 0 <= i < rest.len() implies prime((#[trigger] rest[i]).0 as nat)
            && rest[i].1 >= 1 by {
            assert(rest[i] == f[i]);
        }
        assert forall|i: int, j: int| 0 <= i < j < rest.len() implies (#[trigger] rest[i]).0 < (
        #[trigger] rest[j]).0 by {
            assert(rest[i] == f[i] && rest[j] == f[j]);
        }
        lemma_factor_product_positive(rest);
        lemma_pow_at_least_base(last.0 as nat, last.1 as nat);
        assert(factor_product(rest) * pow(last.0 as int, last.1 as nat) >= 2) by (nonlinear_arith)
            requires
                factor_product(rest) >= 1,
                pow(last.0 as int, last.1 as nat) >= 2,
        ;
    }
}

/// The prime powers of `f` without the last one are prime powers.
pub proof fn lemma_prime_powers_front(f: Seq<(u128, u32)>)
    requires
        prime_powers(f),
        f.len() > 0,
    ensures
        prime_powers(f.drop_last()),
{
    let rest = f.drop_last();
    assert forall|i: int| 0 <= i < rest.len() implies prime((#[trigger] rest[i]).0 as nat)
        && rest[i].1 >= 1 by {
        assert(rest[i] == f[i]);
    }
    assert forall|i: int, j: int| 0 <= i < j < rest.len() implies (#[trigger] rest[i]).0 < (
    #[trigger] rest[j]).0 by {
        assert(rest[i] == f[i] && rest[j] == f[j]);
    }
}

/// Every prime that divides a product of prime powers is the prime of one
/// of them.
pub proof fn lemma_prime_divisor_listed(f: Seq<(u128, u32)>, q: nat)
    requires
        prime_powers(f),
        prime(q),
        factor_product(f) % (q as int) == 0,
    ensures
        exists|i: int| 0 <= i < f.len() && (#[trigger] f[i]).0 == q,
    decreases f.len(),
{
    if f.len() == 0 {
        lemma_small_mod(1, q);
    } else {
        let rest = f.drop_last();
        let last = f.last();
        assert(last == f[f.len() - 1]);
        lemma_prime_powers_front(f);
        lemma_factor_product_positive(rest);
        lemma_pow_positive(last.0 as int, last.1 as nat);
        lemma_prime_divides_factor(
            q,
            factor_product(rest) as nat,
            pow(last.0 as int, last.1 as nat) as nat,
        );
        if factor_product(rest) % (q as int) == 0 {
            lemma_prime_divisor_listed(rest, q);
            let i = choose|i: int| 0 <= i < rest.len() && (#[trigger] rest[i]).0 == q;
            assert(f[i] == rest[i]);
        } else {
            lemma_prime_divides_prime_power(q, last.0 as nat, last.1 as nat);
        }
    }
}

/// The prime of every prime power of `f` divides the product of `f`.
pub proof fn lemma_listed_prime_divides(f: Seq<(u128, u32)>, i: int)
    requires
        prime_powers(f),
        0 <= i < f.len(),
    ensures
        factor_product(f) % (f[i].0 as int) == 0,
    decreases f.len(),
{
    let rest = f.drop_last();
    let last = f.last();
    let p = f[i].0 as int;
    assert(last == f[f.len() - 1]);
    lemma_prime_powers_front(f);
    if i == f.len() - 1 {
        lemma_pow_at_least_base(last.0 as nat, last.1 as nat);
        lemma_mod_self_0(p);
        lemma_multiple_divisible(p, p, pow(p, (last.1 - 1) as nat) * factor_product(rest));
        assert(p * (pow(p, (last.1 - 1) as nat) * factor_product(rest)) == factor_product(rest)
            * pow(p, last.1 as nat)) by (nonlinear_arith)
            requires
                pow(p, last.1 as nat) == p * pow(p, (last.1 - 1) as nat),
        ;
    } else {
        assert(rest[i] == f[i]);
        lemma_listed_prime_divides(rest, i);
        lemma_multiple_divisible(p, factor_product(rest), pow(last.0 as int, last.1 as nat));
    }
}

/// The last prime of a list of prime powers does not divide the product of
/// the others.
pub proof fn lemma_last_prime_is_new(f: Seq<(u128, u32)>)
    requires
        prime_powers(f),
        f.len() > 0,
    ensures
        factor_product(f.drop_last()) % (f.last().0 as int) != 0,
{
    let rest = f.drop_last();
    let p = f.last().0 as nat;
    assert(f.last() == f[f.len() - 1]);
    lemma_prime_powers_front(f);
    if factor_product(rest) % (p as int) == 0 {
        lemma_prime_divisor_listed(rest, p);
        let i = choose|i: int| 0 <= i < rest.len() && (#[trigger] rest[i]).0 == p;
        assert(rest[i] == f[i]);
        assert(f[i].0 < f[f.len() - 1].0);
    }
}

/// The last prime of a factorization of `n` is at most the last prime of
/// any other factorization of `n`.
pub proof fn lemma_last_prime_bounded(f: Seq<(u128, u32)>, g: Seq<(u128, u32)>, n: nat)
    requires
        prime_factorization(f, n),
        prime_factorization(g, n),
        f.len() > 0,
    ensures
        g.len() > 0,
        f.last().0 <= g.last().0,
{
    assert(f.last() == f[f.len() - 1]);
    lemma_listed_prime_divides(f, f.len() - 1);
    lemma_prime_divisor_listed(g, f.last().0 as nat);
    let i = choose|i: int| 0 <= i < g.len() && (#[trigger] g[i]).0 == f.last().0;
    assert(g.last() == g[g.len() - 1]);
    if i < g.len() - 1 {
        assert(g[i].0 < g[g.len() - 1].0);
    }
}

/// If `a * p^e == b * p^t` and the prime `p` does not divide `a`, then
/// `e >= t`.
pub proof fn lemma_exponent_at_least(p: nat, a: int, e: nat, b: int, t: nat)
    requires
        prime(p),
        a % (p as int) != 0,
        a * pow(p as int, e) == b * pow(p as int, t),
    ensures
        e >= t,
{
    if e < t {
        let extra = (t - e) as nat;
        lemma_pow_adds(p as int, extra, e);
        lemma_pow_positive(p as int, e);
        lemma_pow_at_least_base(p, extra);
        let px = pow(p as int, extra);
        let pe = pow(p as int, e);
        let lower = pow(p as int, (extra - 1) as nat);
        assert(a == (b * lower) * p) by (nonlinear_arith)
            requires
                a * pe == b * (px * pe),
                pe > 0,
                px == p * lower,
        ;
        lemma_mod_multiples_basic(b * lower, p as int);
    }
}

/// The fundamental theorem of arithmetic: a positive integer has only one
/// prime factorization.
pub proof fn lemma_prime_factorization_unique(f: Seq<(u128, u32)>, g: Seq<(u128, u32)>, n: nat)
    requires
        prime_factorization(f, n),
        prime_factorization(g, n),
    ensures
        f == g,
    decreases f.len(),
{
    if f.len() == 0 {
        lemma_factor_product_positive(g);
        assert(f =~= g);
    } else {
        lemma_last_prime_bounded(f, g, n);
        lemma_last_prime_bounded(g, f, n);
        let p = f.last().0 as nat;
        let e = f.last().1 as nat;
        let t = g.last().1 as nat;
        let a = factor_product(f.drop_last());
        let b = factor_product(g.drop_last());
        assert(f.last() == f[f.len() - 1]);
        assert(g.last() == g[g.len() - 1]);
        lemma_last_prime_is_new(f);
        lemma_last_prime_is_new(g);
        lemma_exponent_at_least(p, a, e, b, t);
        lemma_exponent_at_least(p, b, t, a, e);
        lemma_pow_positive(p as int, e);
        assert(a == b) by (nonlinear_arith)
            requires
                a * pow(p as int, e) == b * pow(p as int, e),
                pow(p as int, e) > 0,
        ;
        lemma_prime_powers_front(f);
        lemma_prime_powers_front(g);
        lemma_factor_product_positive(f.drop_last());
        lemma_prime_factorization_unique(f.drop_last(), g.drop_last(), a as nat);
        assert(f =~= f.drop_last().push(f.last()));
        assert(g =~= g.drop_last().push(g.last()));
    }
}

} // verus!
