//! Number-theoretic primitives on 128-bit integers: primality, greatest
//! common divisors with Bezout coefficients, integer square roots, prime
//! factorization and Euler's totient, each with its mathematical definition.

use vstd::prelude::*;
use vstd::arithmetic::div_mod::*;
use vstd::arithmetic::mul::*;
use vstd::arithmetic::power::*;
use vstd::arithmetic::power2::*;
use crate::divisibility::{
    lemma_bezout_identity,
    lemma_divides_transitive,
    lemma_divisor_at_most,
    lemma_prime_by_trial,
};
use crate::factorization::{lemma_listed_prime_divides, lemma_prime_divisor_listed};
use crate::totient::{lemma_totient_of_prime, lemma_totient_upto_stable};

verus! {

/// `n` is a prime number: at least two, with no divisor strictly between one
/// and itself.
pub open spec fn prime(n: nat) -> bool {
    n >= 2 && forall|d: nat| 2 <= d < n ==> #[trigger] (n % d) != 0
}

/// The greatest common divisor of `a` and `b`, by Euclid's recurrence.
/// `spec_gcd(a, 0) == a`, so in particular `spec_gcd(0, 0) == 0`.
pub open spec fn spec_gcd(a: nat, b: nat) -> nat
    decreases b,
{
    if b == 0 {
        a
    } else {
        spec_gcd(b, a % b)
    }
}

/// The Bezout coefficients of `x` and `y` that the extended Euclidean
/// algorithm arrives at: `bezout(x, 0) == (1, 0)`, and otherwise the
/// coefficients of `(y, x % y)` carried back through one division step.
pub open spec fn bezout(x: nat, y: nat) -> (int, int)
    decreases y,
{
    if y == 0 {
        (1, 0)
    } else {
        let next = bezout(y, x % y);
        (next.1, next.0 - (x / y) * next.1)
    }
}

/// The product of `p^e` over the pairs `(p, e)` of `f`; the empty product is 1.
pub open spec fn factor_product(f: Seq<(u128, u32)>) -> int
    decreases f.len(),
{
    if f.len() == 0 {
        1
    } else {
        factor_product(f.drop_last()) * pow(f.last().0 as int, f.last().1 as nat)
    }
}

/// `f` lists prime powers: every base is prime, every exponent is positive,
/// and the bases increase strictly.
pub open spec fn prime_powers(f: Seq<(u128, u32)>) -> bool {
    &&& forall|i: int| 0 <= i < f.len() ==> prime((#[trigger] f[i]).0 as nat) && f[i].1 >= 1
    &&& forall|i: int, j: int| 0 <= i < j < f.len() ==> (#[trigger] f[i]).0 < (#[trigger] f[j]).0
}

/// `f` is the prime factorization of `n`: its prime powers, in increasing
/// order of the primes, multiply to `n`.
pub open spec fn prime_factorization(f: Seq<(u128, u32)>, n: nat) -> bool {
    prime_powers(f) && factor_product(f) == n
}

/// Euler's product formula, taken over the primes up to `k`: `n` times
/// `(1 - 1/p)` for every prime `p <= k` that divides `n`, each step in
/// exact integer arithmetic.
pub open spec fn totient_upto(n: nat, k: nat) -> nat
    decreases k,
{
    if k < 2 {
        n
    } else {
        let before = totient_upto(n, (k - 1) as nat);
        if prime(k) && n % k == 0 {
            (before - before / k) as nat
        } else {
            before
        }
    }
}

/// Euler's totient of `n` by the product formula
/// `n * (1 - 1/p_1) * ... * (1 - 1/p_r)` over the primes that divide `n`.
pub open spec fn spec_totient(n: nat) -> nat {
    totient_upto(n, n)
}

/// Decides primality by trial division over the candidates of the form
/// `6k - 1` and `6k + 1` up to the square root of `n`.
pub fn is_prime(n: u128) -> (b: bool)
    ensures
        b == prime(n as nat),
{
    if n == 0 || n == 1 {
        return false;
    }
    if n > 2 && n % 2 == 0 {
        assert((n as nat) % 2nat == 0);
        return false;
    }
    if n > 3 && n % 3 == 0 {
        assert((n as nat) % 3nat == 0);
        return false;
    }
    proof {
        assert forall|d: nat| 2 <= d < 5 && d < n implies #[trigger] ((n as nat) % d) != 0 by {
            if d == 4 && (n as nat) % d == 0 {
                lemma_divides_transitive(n as nat, d, 2);
            }
        }
    }
    let mut i: u128 = 5;
    while i <= n / i
        invariant
            n >= 2,
            n > 2 ==> n % 2 != 0,
            n > 3 ==> n % 3 != 0,
            5 <= i <= n + 6,
            i % 6 == 5,
            forall|d: nat| 2 <= d < i && d < n ==> #[trigger] ((n as nat) % d) != 0,
        decreases n + 6 - i,
    {
        proof {
            lemma_fundamental_div_mod(n as int, i as int);
            assert(i * 5 <= n && i < 0x1_0000_0000_0000_0000) by (nonlinear_arith)
                requires
                    5 <= i <= n / i,
                    n == i * (n / i) + n % i,
                    0 <= n % i,
                    n <= u128::MAX,
            ;
        }
        if n % i == 0 || n % (i + 2) == 0 {
            proof {
                let w: nat = if n % i == 0 { i as nat } else { (i + 2) as nat };
                assert((n as nat) % w == 0);
                assert(2 <= w < n);
            }
            return false;
        }
        proof {
            assert forall|d: nat| 2 <= d < i + 6 && d < n implies #[trigger] ((n as nat) % d)
                != 0 by {
                if d >= i && (n as nat) % d == 0 {
                    if d % 2 == 0 {
                        lemma_divides_transitive(n as nat, d, 2);
                    } else {
                        assert(d == i + 4);
                        assert(d % 3 == 0);
                        lemma_divides_transitive(n as nat, d, 3);
                    }
                }
            }
        }
        i += 6;
    }
    proof {
        lemma_fundamental_div_mod(n as int, i as int);
        assert(n < i * i) by (nonlinear_arith)
            requires
                i > n / i,
                i >= 5,
                n == i * (n / i) + n % i,
                n % i < i,
                n / i >= 0,
        ;
        lemma_prime_by_trial(n as nat, i as nat);
    }
    true
}

/// The greatest common divisor, by the Euclidean algorithm.
pub fn gcd(x: u128, y: u128) -> (g: u128)
    ensures
        g == spec_gcd(x as nat, y as nat),
{
    let mut a: u128 = x;
    let mut b: u128 = y;
    while b != 0
        invariant
            spec_gcd(a as nat, b as nat) == spec_gcd(x as nat, y as nat),
        decreases b,
    {
        let r: u128 = a % b;
        a = b;
        b = r;
    }
    a
}

/// The greatest common divisor of `x` and `y` together with coefficients
/// `(u, v)` such that `u * x + v * y` equals it, by the extended Euclidean
/// algorithm.
///
/// Both coefficient sequences are carried through the loop, so no
/// intermediate value leaves the range of `i128`.
pub fn gcd_with_coefficients(x: u128, y: u128) -> (r: (u128, i128, i128))
    requires
        x <= i128::MAX,
        y <= i128::MAX,
    ensures
        r.0 == spec_gcd(x as nat, y as nat),
        (r.1 as int, r.2 as int) == bezout(x as nat, y as nat),
        r.1 * x + r.2 * y == r.0,
{
    let mut u: i128 = 1;
    let mut v: i128 = 0;
    let mut g: u128 = x;
    let mut a: i128 = 0;
    let mut c: i128 = 1;
    let mut b: u128 = y;
    let ghost mut even: bool = true;
    proof {
        assert(u * b - a * g == y && c * g - v * b == x) by (nonlinear_arith)
            requires
                u == 1,
                a == 0,
                c == 1,
                v == 0,
                b == y,
                g == x,
        ;
        let bz = bezout(g as nat, b as nat);
        assert(bz.0 * u + bz.1 * a == bz.0 && bz.0 * v + bz.1 * c == bz.1) by (nonlinear_arith)
            requires
                u == 1,
                a == 0,
                c == 1,
                v == 0,
        ;
    }
    while b != 0
        invariant
            g <= i128::MAX,
            b <= i128::MAX,
            x <= i128::MAX,
            y <= i128::MAX,
            spec_gcd(g as nat, b as nat) == spec_gcd(x as nat, y as nat),
            bezout(x as nat, y as nat) == (
                bezout(g as nat, b as nat).0 * u + bezout(g as nat, b as nat).1 * a,
                bezout(g as nat, b as nat).0 * v + bezout(g as nat, b as nat).1 * c,
            ),
            even ==> u >= 0 && a <= 0 && v <= 0 && c >= 0 && u * b - a * g == y && c * g - v * b
                == x,
            !even ==> u <= 0 && a >= 0 && v >= 0 && c <= 0 && a * g - u * b == y && v * b - c * g
                == x,
        decreases b,
    {
        let q: u128 = g / b;
        let t: u128 = g % b;
        proof {
            lemma_fundamental_div_mod(g as int, b as int);
            let next = bezout(b as nat, t as nat);
            let s = u - q * a;
            let w = v - q * c;
            assert(next.0 * a + next.1 * s == next.1 * u + (next.0 - q * next.1) * a && next.0 * c
                + next.1 * w == next.1 * v + (next.0 - q * next.1) * c) by (nonlinear_arith)
                requires
                    s == u - q * a,
                    w == v - q * c,
            ;
            if even {
                assert(s >= 0 && s <= y && -y <= q * a <= 0 && s * b - a * t == y && w <= 0 && -w
                    <= x && 0 <= q * c <= x && c * t - w * b == x)
                    by (nonlinear_arith)
                    requires
                        s == u - q * a,
                        w == v - q * c,
                        g == b * q + t,
                        q >= 0,
                        t >= 0,
                        b >= 1,
                        u >= 0 && a <= 0 && v <= 0 && c >= 0 && u * b - a * g == y && c * g - v
                            * b == x,
                ;
            } else {
                assert(s <= 0 && -s <= y && 0 <= q * a <= y && a * t - s * b == y && w >= 0 && w
                    <= x && -x <= q * c <= 0 && w * b - c * t == x) by (nonlinear_arith)
                    requires
                        s == u - q * a,
                        w == v - q * c,
                        g == b * q + t,
                        q >= 0,
                        t >= 0,
                        b >= 1,
                        u <= 0 && a >= 0 && v >= 0 && c <= 0 && a * g - u * b == y && v * b - c
                            * g == x,
                ;
            }
            even = !even;
        }
        let s: i128 = u - (q as i128) * a;
        let w: i128 = v - (q as i128) * c;
        u = a;
        v = c;
        g = b;
        a = s;
        c = w;
        b = t;
    }
    proof {
        let bz = bezout(g as nat, b as nat);
        assert(bz.0 * u + bz.1 * a == u && bz.0 * v + bz.1 * c == v) by (nonlinear_arith)
            requires
                bz.0 == 1,
                bz.1 == 0,
        ;
        lemma_bezout_identity(x as nat, y as nat);
    }
    (g, u, v)
}

/// The integer square root: the largest `r` with `r * r <= n`.
///
/// Extracts the root two bits at a time, without multiplication or division.
pub fn isqrt(n: u128) -> (r: u128)
    ensures
        r * r <= n < (r + 1) * (r + 1),
{
    let mut x: u128 = n;
    let mut c: u128 = 0;
    let mut d: u128 = 1u128 << 126;
    let ghost mut k: nat = 63;
    let ghost mut s: nat = 0x8000_0000_0000_0000;
    proof {
        lemma2_to64_rest();
        assert(1u128 << 126 == 0x4000_0000_0000_0000_0000_0000_0000_0000u128) by (bit_vector);
        assert(s * s == d) by (nonlinear_arith)
            requires
                s == 0x8000_0000_0000_0000,
                d == 0x4000_0000_0000_0000_0000_0000_0000_0000u128,
        ;
    }
    while d > n
        invariant
            d > 0 ==> s == pow2(k) && d == s * s && n < 4 * d && s <= 0x8000_0000_0000_0000,
            d == 0 ==> n == 0,
        decreases d,
    {
        proof {
            let d0 = d;
            assert(d0 >> 2 == d0 / 4) by (bit_vector);
            if k > 0 {
                lemma_pow2_unfold(k);
                let h = pow2((k - 1) as nat);
                assert(s * s == 4 * (h * h)) by (nonlinear_arith)
                    requires
                        s == 2 * h,
                ;
                s = h;
                k = (k - 1) as nat;
            } else {
                lemma2_to64();
            }
        }
        d >>= 2;
    }
    let ghost mut root: nat = 0;
    proof {
        assert(x == n - root * root && c == 2 * root * s && (root + 2 * s) * (root + 2 * s) == 4
            * (s * s) && (root + 1) * (root + 1) == 1) by (nonlinear_arith)
            requires
                root == 0,
                c == 0,
                x == n,
        ;
    }
    while d > 0
        invariant
            x == n - root * root,
            d > 0 ==> s == pow2(k) && d == s * s && c == 2 * root * s && n < (root + 2 * s) * (
            root + 2 * s) && root + 2 * s <= 0x1_0000_0000_0000_0000,
            d == 0 ==> c == root && n < (root + 1) * (root + 1),
        decreases d,
    {
        proof {
            let d0 = d;
            let c0 = c;
            assert(d0 >> 2 == d0 / 4) by (bit_vector);
            assert(c0 >> 1 == c0 / 2) by (bit_vector);
            assert(c + d <= u128::MAX && c + d == (root + s) * (root + s) - root * root && c / 2
                == root * s) by (nonlinear_arith)
                requires
                    d == s * s,
                    c == 2 * root * s,
                    root + 2 * s <= 0x1_0000_0000_0000_0000,
                    s >= 1,
            ;
        }
        let ghost new_root: nat = if x >= c + d { root + s } else { root };
        if x >= c + d {
            x -= c + d;
            c = (c >> 1) + d;
        } else {
            c >>= 1;
        }
        proof {
            assert(c == new_root * s && n < (new_root + s) * (new_root + s)) by (nonlinear_arith)
                requires
                    new_root == root + s || new_root == root,
                    new_root == root + s ==> c == root * s + s * s,
                    new_root == root ==> c == root * s && n < (root + s) * (root + s),
                    n < (root + 2 * s) * (root + 2 * s),
            ;
            assert(x == n - new_root * new_root) by (nonlinear_arith)
                requires
                    new_root == root + s || new_root == root,
                    new_root == root + s ==> x == n - root * root - ((root + s) * (root + s) - root * root),
                    new_root == root ==> x == n - root * root,
            ;
            root = new_root;
            if k > 0 {
                lemma_pow2_unfold(k);
                let h = pow2((k - 1) as nat);
                assert(s * s == 4 * (h * h) && root * s == 2 * root * h && (root + s) * (root + s)
                    == (root + 2 * h) * (root + 2 * h)) by (nonlinear_arith)
                    requires
                        s == 2 * h,
                ;
                s = h;
                k = (k - 1) as nat;
            } else {
                lemma2_to64();
                assert(s * s == 1 && root * s == root && (root + s) * (root + s) == (root + 1) * (
                root + 1))
                    by (nonlinear_arith)
                    requires
                        s == 1,
                ;
            }
        }
        d >>= 2;
    }
    proof {
        assert(root * root >= 0) by (nonlinear_arith);
    }
    c
}

/// Factors a positive integer into prime powers by trial division.
///
/// The result lists each prime divisor of `n` once, in increasing order,
/// with the largest exponent to which it divides `n`.
pub fn prime_factorize(n: u128) -> (f: Vec<(u128, u32)>)
    requires
        n > 0,
    ensures
        prime_factorization(f@, n as nat),
{
    let mut m: u128 = n;
    let mut ret: Vec<(u128, u32)> = Vec::new();
    let bound: u128 = isqrt(n);
    proof {
        assert(1 <= bound < 0x1_0000_0000_0000_0000) by (nonlinear_arith)
            requires
                bound * bound <= n < (bound + 1) * (bound + 1),
                n <= u128::MAX,
                n >= 1,
                bound >= 0,
        ;
        assert(factor_product(ret@) * m == n) by (nonlinear_arith)
            requires
                factor_product(ret@) == 1,
                m == n,
        ;
    }
    let mut i: u128 = 2;
    while i <= bound
        invariant
            2 <= i <= bound + 1,
            bound < 0x1_0000_0000_0000_0000,
            m >= 1,
            prime_powers(ret@),
            factor_product(ret@) >= 1,
            factor_product(ret@) * m == n,
            forall|d: nat| 2 <= d < i ==> #[trigger] ((m as nat) % d) != 0,
            forall|j: int| 0 <= j < ret.len() ==> (#[trigger] ret@[j]).0 < i,
        decreases bound + 1 - i,
    {
        let mut e: u32 = 0;
        let ghost m0 = m;
        proof {
            lemma_pow0(i as int);
            lemma2_to64();
        }
        while m % i == 0
            invariant
                i >= 2,
                m >= 1,
                e <= 128,
                pow(i as int, e as nat) * m == m0,
                pow2(e as nat) * m <= m0,
                e > 0 ==> m0 % i == 0,
                forall|d: nat| 2 <= d < i ==> #[trigger] ((m as nat) % d) != 0,
            decreases m,
        {
            let ghost m1 = m;
            proof {
                lemma_fundamental_div_mod(m as int, i as int);
                lemma_pow2_unfold((e + 1) as nat);
                reveal(pow);
                let q = m / i;
                assert(q >= 1 && q < m && pow(i as int, (e + 1) as nat) * q == m0 && pow2(
                    (e + 1) as nat,
                ) * q <= m0) by (nonlinear_arith)
                    requires
                        m == i * q,
                        i >= 2,
                        m >= 1,
                        q >= 0,
                        pow(i as int, (e + 1) as nat) == i * pow(i as int, e as nat),
                        pow2((e + 1) as nat) == 2 * pow2(e as nat),
                        pow(i as int, e as nat) * m == m0,
                        pow2(e as nat) * m <= m0,
                ;
                if e == 128 {
                    lemma_pow2_adds(64, 64);
                    lemma_pow2_unfold(129);
                    lemma2_to64();
                    assert(pow2(129) * q > u128::MAX) by (nonlinear_arith)
                        requires
                            q >= 1,
                            pow2(129) == 2 * pow2(128),
                            pow2(128) == pow2(64) * pow2(64),
                            pow2(64) == 0x1_0000_0000_0000_0000,
                    ;
                }
                if e == 0 {
                    assert(pow(i as int, 0) * m == m) by (nonlinear_arith)
                        requires
                            pow(i as int, 0) == 1,
                    ;
                }
                lemma_mul_is_commutative(i as int, q as int);
                lemma_mod_multiples_basic(i as int, q as int);
                assert forall|d: nat| 2 <= d < i implies #[trigger] ((q as nat) % d) != 0 by {
                    if (q as nat) % d == 0 {
                        lemma_divides_transitive(m as nat, q as nat, d);
                    }
                }
            }
            e += 1;
            m /= i;
        }
        if e > 0 {
            proof {
                assert forall|d: nat| 2 <= d < i implies #[trigger] ((i as nat) % d) != 0 by {
                    if (i as nat) % d == 0 {
                        lemma_divides_transitive(m0 as nat, i as nat, d);
                    }
                }
                let grown = ret@.push((i, e));
                assert(grown.drop_last() =~= ret@);
                lemma_pow_positive(i as int, e as nat);
                assert(factor_product(grown) * m == n && factor_product(grown) >= 1)
                    by (nonlinear_arith)
                    requires
                        factor_product(grown) == factor_product(ret@) * pow(i as int, e as nat),
                        pow(i as int, e as nat) * m == m0,
                        factor_product(ret@) * m0 == n,
                        factor_product(ret@) >= 1,
                        pow(i as int, e as nat) >= 1,
                ;
            }
            ret.push((i, e));
        } else {
            proof {
                assert(pow(i as int, 0) * m == m) by (nonlinear_arith)
                    requires
                        pow(i as int, 0) == 1,
                ;
            }
        }
        i += 1;
    }
    if m > 1 {
        proof {
            assert(m <= n) by (nonlinear_arith)
                requires
                    factor_product(ret@) * m == n,
                    factor_product(ret@) >= 1,
                    m >= 1,
            ;
            lemma_prime_by_trial(m as nat, i as nat);
            lemma_mod_self_0(m as int);
            assert((m as nat) % (m as nat) == 0);
            let grown = ret@.push((m, 1u32));
            assert(grown.drop_last() =~= ret@);
            lemma_pow1(m as int);
        }
        ret.push((m, 1));
    } else {
        proof {
            assert(factor_product(ret@) == n) by (nonlinear_arith)
                requires
                    factor_product(ret@) * m == n,
                    m == 1,
            ;
        }
    }
    ret
}

/// Euler's totient of a positive integer, from its prime factorization: for
/// each prime divisor `p` in turn, the running value loses its `p`-th part.
pub fn euler_totient(n: u128) -> (phi: u128)
    requires
        n > 0,
    ensures
        phi == spec_totient(n as nat),
        prime(n as nat) ==> phi == n - 1,
        phi <= n,
{
    let factors = prime_factorize(n);
    let mut phi: u128 = n;
    let mut k: usize = 0;
    let ghost mut done: nat = 0;
    while k < factors.len()
        invariant
            k <= factors.len(),
            n > 0,
            prime_factorization(factors@, n as nat),
            phi <= n,
            phi == totient_upto(n as nat, done),
            done == (if k == 0 {
                0
            } else {
                factors@[k - 1].0 as nat
            }),
        decreases factors.len() - k,
    {
        let p: u128 = factors[k].0;
        proof {
            assert(prime(factors@[k as int].0 as nat));
            lemma_listed_prime_divides(factors@, k as int);
            assert forall|q: nat| done < q <= p - 1 && prime(q) implies #[trigger] ((n as nat) % q)
                != 0 by {
                if (n as nat) % q == 0 {
                    lemma_prime_divisor_listed(factors@, q);
                    let i = choose|i: int|
                        0 <= i < factors@.len() && (#[trigger] factors@[i]).0 == q;
                    if i < k {
                        if i < k - 1 {
                            assert(factors@[i].0 < factors@[k - 1].0);
                        }
                    } else if i > k {
                        assert(factors@[k as int].0 < factors@[i].0);
                    }
                }
            }
            if k > 0 {
                assert(factors@[k - 1].0 < factors@[k as int].0);
            }
            lemma_totient_upto_stable(n as nat, done, (p - 1) as nat);
            done = p as nat;
        }
        phi -= phi / p;
        k += 1;
    }
    proof {
        if k > 0 {
            lemma_listed_prime_divides(factors@, k - 1);
            lemma_divisor_at_most(n as nat, done);
        }
        assert forall|q: nat| done < q <= n && prime(q) implies #[trigger] ((n as nat) % q)
            != 0 by {
            if (n as nat) % q == 0 {
                lemma_prime_divisor_listed(factors@, q);
                let i = choose|i: int| 0 <= i < factors@.len() && (#[trigger] factors@[i]).0 == q;
                if i < k - 1 {
                    assert(factors@[i].0 < factors@[k - 1].0);
                }
            }
        }
        lemma_totient_upto_stable(n as nat, done, n as nat);
        if prime(n as nat) {
            lemma_totient_of_prime(n as nat);
        }
    }
    phi
}

} // verus!
