//! Divisibility, greatest common divisors and primes: the lemmas that the
//! number-theoretic primitives and the residue ring rest on.

use vstd::prelude::*;
use vstd::arithmetic::div_mod::*;
use vstd::arithmetic::mul::*;
use vstd::arithmetic::power::*;
use crate::integer::{bezout, prime, spec_gcd};

verus! {

/// A multiple of a multiple: if `a` divides `d` and `d` divides `n`, then `a`
/// divides `n`.
pub proof fn lemma_divides_transitive(n: nat, d: nat, a: nat)
    requires
        a > 0,
        d > 0,
        d % a == 0,
        n % d == 0,
    ensures
        n % a == 0,
{
    lemma_fundamental_div_mod(n as int, d as int);
    lemma_fundamental_div_mod(d as int, a as int);
    let k = (d / a) * (n / d);
    assert(n == k * a) by (nonlinear_arith)
        requires
            n == d * (n / d),
            d == a * (d / a),
            k == (d / a) * (n / d),
    ;
    lemma_mod_multiples_basic(k as int, a as int);
}

/// A number at least two with no divisor in `[2, bound)` and smaller than
/// `bound * bound` is prime.
pub proof fn lemma_prime_by_trial(n: nat, bound: nat)
    requires
        n >= 2,
        n < bound * bound,
        forall|d: nat| 2 <= d < bound && d < n ==> #[trigger] (n % d) != 0,
    ensures
        prime(n),
{
    assert forall|d: nat| 2 <= d < n implies #[trigger] (n % d) != 0 by {
        if d >= bound && n % d == 0 {
            let k = n / d;
            lemma_fundamental_div_mod(n as int, d as int);
            assert(n == d * k);
            assert(k >= 2 && k < bound && k < n) by (nonlinear_arith)
                requires
                    n == d * k,
                    2 <= d < n,
                    d >= bound,
                    n < bound * bound,
                    k >= 0,
            ;
            assert(n == d * k ==> n == (d as int) * (k as int));
            lemma_mul_is_commutative(d as int, k as int);
            lemma_mod_multiples_basic(d as int, k as int);
            assert(n % k == 0);
        }
    }
}

/// Bezout's identity: the coefficients of `bezout` combine `x` and `y` into
/// their greatest common divisor.
pub proof fn lemma_bezout_identity(x: nat, y: nat)
    ensures
        bezout(x, y).0 * x + bezout(x, y).1 * y == spec_gcd(x, y),
    decreases y,
{
    if y != 0 {
        lemma_bezout_identity(y, x % y);
        lemma_fundamental_div_mod(x as int, y as int);
        let next = bezout(y, x % y);
        let g = spec_gcd(x, y);
        let q = x / y;
        let r = x % y;
        assert(next.1 * x + (next.0 - q * next.1) * y == g) by (nonlinear_arith)
            requires
                next.0 * y + next.1 * r == g,
                x == y * q + r,
        ;
    }
}

/// A positive power of a number is at least that number.
pub proof fn lemma_pow_at_least_base(b: nat, e: nat)
    requires
        b >= 1,
        e >= 1,
    ensures
        pow(b as int, e) >= b,
        pow(b as int, e) == b * pow(b as int, (e - 1) as nat),
{
    reveal(pow);
    lemma_pow_positive(b as int, (e - 1) as nat);
    assert(b * pow(b as int, (e - 1) as nat) >= b) by (nonlinear_arith)
        requires
            b >= 1,
            pow(b as int, (e - 1) as nat) >= 1,
    ;
}

/// A combination of two multiples of `g` is a multiple of `g`.
pub proof fn lemma_combination_divisible(g: int, a: int, s: int, b: int, t: int)
    requires
        g > 0,
        a % g == 0,
        b % g == 0,
    ensures
        (a * s + b * t) % g == 0,
{
    lemma_fundamental_div_mod(a, g);
    lemma_fundamental_div_mod(b, g);
    let k = (a / g) * s + (b / g) * t;
    assert(a * s + b * t == k * g) by (nonlinear_arith)
        requires
            a == g * (a / g),
            b == g * (b / g),
            k == (a / g) * s + (b / g) * t,
    ;
    lemma_mod_multiples_basic(k, g);
}

/// The greatest common divisor divides both of its arguments.
pub proof fn lemma_gcd_divides(a: nat, b: nat)
    requires
        a > 0 || b > 0,
    ensures
        spec_gcd(a, b) > 0,
        a % spec_gcd(a, b) == 0,
        b % spec_gcd(a, b) == 0,
    decreases b,
{
    if b == 0 {
        lemma_mod_self_0(a as int);
        lemma_small_mod(0, a);
    } else {
        let r = a % b;
        lemma_gcd_divides(b, r);
        let g = spec_gcd(a, b) as int;
        lemma_fundamental_div_mod(a as int, b as int);
        lemma_combination_divisible(g, b as int, (a / b) as int, r as int, 1);
        lemma_mul_is_commutative(b as int, (a / b) as int);
    }
}

/// Every common divisor of two numbers divides their greatest common
/// divisor.
pub proof fn lemma_gcd_greatest(a: nat, b: nat, d: nat)
    requires
        d > 0,
        a % d == 0,
        b % d == 0,
    ensures
        spec_gcd(a, b) % d == 0,
{
    lemma_bezout_identity(a, b);
    let c = bezout(a, b);
    lemma_combination_divisible(d as int, a as int, c.0, b as int, c.1);
    lemma_mul_is_commutative(a as int, c.0);
    lemma_mul_is_commutative(b as int, c.1);
}

/// A number with an inverse modulo `m` is coprime to `m`.
pub proof fn lemma_invertible_is_coprime(x: nat, y: int, m: nat)
    requires
        m > 0,
        (x * y) % (m as int) == 1int % (m as int),
    ensures
        spec_gcd(x, m) == 1,
{
    lemma_gcd_divides(x, m);
    let g = spec_gcd(x, m) as int;
    if m == 1 {
        if g > 1 {
            lemma_small_mod(1, g as nat);
        }
    } else {
        lemma_small_mod(1, m);
        lemma_fundamental_div_mod(x * y, m as int);
        let k = (x * y) / (m as int);
        lemma_combination_divisible(g, x as int, y, m as int, -k);
        assert(x * y + m * (-k) == 1) by (nonlinear_arith)
            requires
                x * y == m * k + 1,
        ;
        if g > 1 {
            lemma_small_mod(1, g as nat);
        }
    }
}

/// A number that a prime does not divide is coprime to it.
pub proof fn lemma_coprime_to_prime(a: nat, p: nat)
    requires
        prime(p),
        a % p != 0,
    ensures
        spec_gcd(a, p) == 1,
{
    lemma_gcd_divides(a, p);
    let g = spec_gcd(a, p);
    if g > p {
        lemma_small_mod(p, g);
    }
}

/// Euclid's lemma: a prime that divides a product divides one of the
/// factors.
pub proof fn lemma_prime_divides_factor(p: nat, a: nat, b: nat)
    requires
        prime(p),
        (a * b) % p == 0,
    ensures
        a % p == 0 || b % p == 0,
{
    if a % p != 0 {
        lemma_coprime_to_prime(a, p);
        lemma_bezout_identity(a, p);
        let c = bezout(a, p);
        lemma_mod_self_0(p as int);
        lemma_combination_divisible(p as int, (a * b) as int, c.0, p as int, c.1 * b);
        assert((a * b) * c.0 + p * (c.1 * b) == b) by (nonlinear_arith)
            requires
                c.0 * a + c.1 * p == 1,
        ;
    }
}

/// A prime that divides a power of a prime is that prime.
pub proof fn lemma_prime_divides_prime_power(q: nat, p: nat, e: nat)
    requires
        prime(q),
        prime(p),
        pow(p as int, e) % (q as int) == 0,
    ensures
        q == p,
    decreases e,
{
    reveal(pow);
    if e == 0 {
        lemma_small_mod(1, q);
    } else {
        let rest = pow(p as int, (e - 1) as nat);
        lemma_pow_positive(p as int, (e - 1) as nat);
        lemma_prime_divides_factor(q, p, rest as nat);
        if p % q == 0 {
            if q > p {
                lemma_small_mod(p, q);
            }
        } else {
            lemma_prime_divides_prime_power(q, p, (e - 1) as nat);
        }
    }
}

/// A positive number has no divisor larger than itself.
pub proof fn lemma_divisor_at_most(n: nat, d: nat)
    requires
        n > 0,
        d > 0,
        n % d == 0,
    ensures
        d <= n,
{
    if d > n {
        lemma_small_mod(n, d);
    }
}

/// Every number from two on has a prime divisor.
pub proof fn lemma_has_prime_divisor(n: nat)
    requires
        n >= 2,
    ensures
        exists|q: nat| #[trigger] prime(q) && n % q == 0,
    decreases n,
{
    if prime(n) {
        lemma_mod_self_0(n as int);
        assert(prime(n) && n % n == 0);
    } else {
        let d = choose|d: nat| 2 <= d < n && #[trigger] (n % d) == 0;
        lemma_has_prime_divisor(d);
        let q = choose|q: nat| #[trigger] prime(q) && d % q == 0;
        lemma_divides_transitive(n, d, q);
        assert(prime(q) && n % q == 0);
    }
}

/// A number divisible by two different primes is divisible by their
/// product.
pub proof fn lemma_two_primes_divide(p: nat, q: nat, z: nat)
    requires
        prime(p),
        prime(q),
        p != q,
        z % p == 0,
        z % q == 0,
    ensures
        z % (p * q) == 0,
{
    let a = z / p;
    lemma_fundamental_div_mod(z as int, p as int);
    lemma_prime_divides_factor(q, p, a);
    if q > p {
        lemma_small_mod(p, q);
    }
    assert(p % q != 0);
    let b = a / q;
    lemma_fundamental_div_mod(a as int, q as int);
    assert(z == b * (p * q) && p * q > 0) by (nonlinear_arith)
        requires
            z == p * a,
            a == q * b,
            p >= 2,
            q >= 2,
    ;
    lemma_mod_multiples_basic(b as int, (p * q) as int);
}

/// A multiple of a multiple of `g` is a multiple of `g`.
pub proof fn lemma_multiple_divisible(g: int, a: int, s: int)
    requires
        g > 0,
        a % g == 0,
    ensures
        (a * s) % g == 0,
        (s * a) % g == 0,
{
    lemma_combination_divisible(g, a, s, a, 0);
    assert(a * s + a * 0 == a * s && s * a == a * s) by (nonlinear_arith);
}

} // verus!
