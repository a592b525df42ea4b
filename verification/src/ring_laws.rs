//! The laws of the residue ring, stated over the specification functions of
//! `Residue` and proved for every modulus.

use vstd::prelude::*;
use vstd::arithmetic::div_mod::*;
use vstd::arithmetic::mul::*;
use vstd::arithmetic::power::*;
use crate::divisibility::{lemma_has_prime_divisor, lemma_invertible_is_coprime};
use crate::integer::{bezout, prime};
use crate::modular::Residue;

verus! {

/// Addition commutes: `a + b == b + a`.
pub proof fn lemma_plus_commutative(a: Residue, b: Residue)
    requires
        a.modulus == b.modulus,
    ensures
        a.spec_plus(b) == b.spec_plus(a),
{
}

/// Multiplication commutes: `a * b == b * a`.
pub proof fn lemma_times_commutative(a: Residue, b: Residue)
    requires
        a.modulus == b.modulus,
    ensures
        a.spec_times(b) == b.spec_times(a),
{
    lemma_mul_is_commutative(a.value as int, b.value as int);
}

/// Addition is associative: `a + (b + c) == (a + b) + c`.
pub proof fn lemma_plus_associative(a: Residue, b: Residue, c: Residue)
    requires
        a.valid(),
        a.modulus == b.modulus,
        b.modulus == c.modulus,
    ensures
        a.spec_plus(b.spec_plus(c)) == a.spec_plus(b).spec_plus(c),
{
    let m = a.modulus as int;
    lemma_mod_bound(b.value + c.value, m);
    lemma_mod_bound(a.value + b.value, m);
    lemma_add_mod_noop_right(a.value as int, b.value + c.value, m);
    lemma_add_mod_noop_right(c.value as int, a.value + b.value, m);
}

/// Multiplication is associative: `a * (b * c) == (a * b) * c`.
pub proof fn lemma_times_associative(a: Residue, b: Residue, c: Residue)
    requires
        a.valid(),
        a.modulus == b.modulus,
        b.modulus == c.modulus,
    ensures
        a.spec_times(b.spec_times(c)) == a.spec_times(b).spec_times(c),
{
    let m = a.modulus as int;
    lemma_mod_bound(b.value * c.value, m);
    lemma_mod_bound(a.value * b.value, m);
    lemma_mul_mod_noop_right(a.value as int, b.value * c.value, m);
    lemma_mul_mod_noop_left(a.value * b.value, c.value as int, m);
    lemma_mul_is_associative(a.value as int, b.value as int, c.value as int);
}

/// The one of the ring is neutral: `1 * a == a`.
pub proof fn lemma_one_times(a: Residue)
    requires
        a.valid(),
    ensures
        Residue::one(a.modulus).spec_times(a) == a,
        a.spec_times(Residue::one(a.modulus)) == a,
{
    let m = a.modulus as int;
    lemma_mod_bound(1, m);
    lemma_mul_mod_noop_left(1, a.value as int, m);
    lemma_mul_mod_noop_right(a.value as int, 1, m);
    lemma_small_mod(a.value as nat, a.modulus as nat);
    assert(1 * a.value == a.value && a.value * 1 == a.value) by (nonlinear_arith);
}

/// A residue has at most one inverse: two residues that both multiply `x`
/// to one are equal.
pub proof fn lemma_inverse_unique(x: Residue, y: Residue, z: Residue)
    requires
        x.valid(),
        y.valid(),
        z.valid(),
        x.modulus == y.modulus,
        x.modulus == z.modulus,
        x.spec_times(y) == Residue::one(x.modulus),
        x.spec_times(z) == Residue::one(x.modulus),
    ensures
        y == z,
{
    lemma_times_associative(y, x, z);
    lemma_times_commutative(y, x);
    lemma_one_times(z);
    lemma_one_times(y);
}

/// A residue with an inverse is a unit, and the inverse is the one that
/// `spec_inv` names.
pub proof fn lemma_inverse_is_spec_inv(x: Residue, y: Residue)
    requires
        x.valid(),
        y.valid(),
        x.modulus == y.modulus,
        x.spec_times(y) == Residue::one(x.modulus),
    ensures
        x.is_unit(),
        x.spec_inv() == y,
{
    lemma_invertible_is_coprime(x.value as nat, y.value as int, x.modulus as nat);
    x.lemma_inverse();
    lemma_inverse_unique(x, x.spec_inv(), y);
}

/// Powers of inverse residues are inverse: if `x * y == 1`, then
/// `x^j * y^j == 1`, so `x^j` is a unit whose inverse is `y^j`.
pub proof fn lemma_inverse_of_power(x: Residue, y: Residue, j: nat)
    requires
        x.valid(),
        y.valid(),
        x.modulus == y.modulus,
        x.spec_times(y) == Residue::one(x.modulus),
    ensures
        x.spec_pow(j as int).valid(),
        x.spec_pow(j as int).is_unit(),
        x.spec_pow(j as int).spec_inv() == y.spec_pow(j as int),
{
    let m = x.modulus as int;
    let xj = pow(x.value as int, j);
    let yj = pow(y.value as int, j);
    lemma_mod_bound(xj, m);
    lemma_mod_bound(yj, m);
    lemma_mul_mod_noop(xj, yj, m);
    lemma_pow_distributes(x.value as int, y.value as int, j);
    lemma_pow_mod_noop(x.value * y.value, j, m);
    if m == 1 {
        assert(pow(x.value * y.value, j) % 1 == 0);
    } else {
        lemma_small_mod(1, m as nat);
        lemma1_pow(j);
    }
    lemma_inverse_is_spec_inv(x.spec_pow(j as int), y.spec_pow(j as int));
}

/// Every integer power of a unit is a unit.
pub proof fn lemma_power_of_unit_is_unit(a: Residue, e: int)
    requires
        a.valid(),
        a.is_unit(),
    ensures
        a.spec_pow(e).valid(),
        a.spec_pow(e).is_unit(),
{
    a.lemma_inverse();
    if e >= 0 {
        lemma_inverse_of_power(a, a.spec_inv(), e as nat);
    } else {
        lemma_inverse_of_power(a.spec_inv(), a, (-e) as nat);
    }
}

/// The zeroth power is the one of the ring.
pub proof fn lemma_pow_zero(a: Residue)
    ensures
        a.spec_pow(0) == Residue::one(a.modulus),
{
    lemma_pow0(a.value as int);
}

/// The power -1 is the inverse.
pub proof fn lemma_pow_minus_one(a: Residue)
    requires
        a.modulus > 0,
    ensures
        a.spec_pow(-1) == a.spec_inv(),
{
    let i = a.spec_inv();
    lemma_pow1(i.value as int);
    lemma_mod_twice(bezout(a.value as nat, a.modulus as nat).0, a.modulus as int);
}

/// Powers of non-negative exponents compose: `(a^j)^k == a^(j * k)`.
pub proof fn lemma_pow_pow_nat(a: Residue, j: nat, k: nat)
    requires
        a.modulus > 0,
    ensures
        a.spec_pow(j as int).spec_pow(k as int) == a.spec_pow((j * k) as int),
{
    let m = a.modulus as int;
    lemma_mod_bound(pow(a.value as int, j), m);
    lemma_pow_mod_noop(pow(a.value as int, j), k, m);
    lemma_pow_multiplies(a.value as int, j, k);
}

/// Powers compose for all integer exponents: `(a^m)^n == a^(m * n)`. Where
/// an exponent is negative, `a` has to be a unit.
pub proof fn lemma_pow_pow(a: Residue, m: int, n: int)
    requires
        a.valid(),
        m < 0 || n < 0 ==> a.is_unit(),
    ensures
        a.spec_pow(m).spec_pow(n) == a.spec_pow(m * n),
{
    if m >= 0 && n >= 0 {
        lemma_pow_pow_nat(a, m as nat, n as nat);
        assert(m * n >= 0) by (nonlinear_arith)
            requires
                m >= 0,
                n >= 0,
        ;
    } else {
        let i = a.spec_inv();
        a.lemma_inverse();
        if m < 0 && n >= 0 {
            // a^m is i^(-m), and (i^(-m))^n is i^((-m) * n)
            lemma_pow_pow_nat(i, (-m) as nat, n as nat);
            assert((-m) * n == -(m * n) && (n > 0 ==> m * n < 0) && (n == 0 ==> m * n == 0))
                by (nonlinear_arith)
                requires
                    m < 0,
                    n >= 0,
            ;
            if n == 0 {
                lemma_pow_zero(a);
                lemma_pow_zero(i);
            }
        } else if m >= 0 {
            // the inverse of a^m is i^m, and (i^m)^(-n) is i^(m * (-n))
            lemma_inverse_of_power(a, i, m as nat);
            lemma_pow_pow_nat(i, m as nat, (-n) as nat);
            assert(m * (-n) == -(m * n) && (m > 0 ==> m * n < 0) && (m == 0 ==> m * n == 0))
                by (nonlinear_arith)
                requires
                    m >= 0,
                    n < 0,
            ;
            if m == 0 {
                lemma_pow_zero(a);
                lemma_pow_zero(i);
            }
        } else {
            // a^m is i^(-m), whose inverse is a^(-m), and (a^(-m))^(-n) is a^(m * n)
            lemma_inverse_of_power(i, a, (-m) as nat);
            lemma_pow_pow_nat(a, (-m) as nat, (-n) as nat);
            assert((-m) * (-n) == m * n && m * n > 0) by (nonlinear_arith)
                requires
                    m < 0,
                    n < 0,
            ;
        }
    }
}

/// Powers of non-negative exponents add up: `a^(j + k) == a^j * a^k`.
pub proof fn lemma_pow_plus_nat(a: Residue, j: nat, k: nat)
    requires
        a.modulus > 0,
    ensures
        a.spec_pow((j + k) as int) == a.spec_pow(j as int).spec_times(a.spec_pow(k as int)),
{
    let m = a.modulus as int;
    lemma_pow_adds(a.value as int, j, k);
    lemma_mod_bound(pow(a.value as int, j), m);
    lemma_mod_bound(pow(a.value as int, k), m);
    lemma_mul_mod_noop(pow(a.value as int, j), pow(a.value as int, k), m);
}

/// Every non-negative power of the one of the ring is the one.
pub proof fn lemma_one_pow(modulus: u128, k: nat)
    requires
        modulus > 0,
    ensures
        Residue::one(modulus).spec_pow(k as int) == Residue::one(modulus),
{
    let m = modulus as int;
    if modulus == 1 {
        assert(pow(0, k) % 1 == 0);
    } else {
        lemma_small_mod(1, modulus as nat);
        lemma1_pow(k);
    }
}

/// If some power `a^k` with `k >= 1` is the one of the ring, there is a
/// least such exponent.
pub proof fn lemma_least_order(a: Residue, k: nat) -> (d: nat)
    requires
        k >= 1,
        a.spec_pow(k as int) == Residue::one(a.modulus),
    ensures
        1 <= d <= k,
        a.spec_pow(d as int) == Residue::one(a.modulus),
        forall|j: nat| 1 <= j < d ==> #[trigger] a.spec_pow(j as int) != Residue::one(a.modulus),
    decreases k,
{
    if exists|j: nat| 1 <= j < k && #[trigger] a.spec_pow(j as int) == Residue::one(a.modulus) {
        let j = choose|j: nat|
            1 <= j < k && #[trigger] a.spec_pow(j as int) == Residue::one(a.modulus);
        lemma_least_order(a, j)
    } else {
        k
    }
}

/// The order test singles out the elements of full order. In a ring where
/// `g^phi` is the one, a residue `g` that passes the order test for `phi`
/// has no smaller positive power equal to the one: `g^k != 1` for every
/// `k` in `[1, phi)`.
///
/// For a prime modulus `p`, `phi == p - 1` and `g^phi == 1` is Fermat's
/// congruence, which is a hypothesis here.
pub proof fn lemma_order_test_excludes_smaller_orders(g: Residue, phi: u128, k: nat)
    requires
        g.valid(),
        g.spec_pow(phi as int) == Residue::one(g.modulus),
        g.passes_order_test(phi),
        1 <= k < phi,
    ensures
        g.spec_pow(k as int) != Residue::one(g.modulus),
{
    let one = Residue::one(g.modulus);
    if g.spec_pow(k as int) == one {
        let d = lemma_least_order(g, k);
        let c = (phi as nat) / d;
        let r = (phi as nat) % d;
        lemma_fundamental_div_mod(phi as int, d as int);
        lemma_mul_is_commutative(d as int, c as int);
        // g^phi is (g^d)^c * g^r, and (g^d)^c is the one
        lemma_pow_plus_nat(g, d * c, r);
        lemma_pow_pow_nat(g, d, c);
        lemma_one_pow(g.modulus, c);
        lemma_mod_bound(pow(g.value as int, r), g.modulus as int);
        lemma_one_times(g.spec_pow(r as int));
        assert(g.spec_pow(r as int) == one);
        assert(r == 0);
        assert(c >= 2) by (nonlinear_arith)
            requires
                phi == d * c,
                1 <= d <= k,
                k < phi,
        ;
        lemma_has_prime_divisor(c);
        let q = choose|q: nat| #[trigger] prime(q) && c % q == 0;
        let rest = c / q;
        lemma_fundamental_div_mod(c as int, q as int);
        assert(phi == (d * rest) * q && phi == q * (d * rest)) by (nonlinear_arith)
            requires
                phi == d * c,
                c == q * rest,
        ;
        lemma_mod_multiples_basic((d * rest) as int, q as int);
        lemma_div_multiples_vanish((d * rest) as int, q as int);
        assert((phi as nat) % q == 0 && (phi as nat) / q == d * rest);
        lemma_pow_pow_nat(g, d, rest);
        lemma_one_pow(g.modulus, rest);
        assert(g.spec_pow(((phi as nat) / q) as int) == one);
    }
}

/// In a ring, equal powers of a unit differ by a power that is the one: if
/// `a^i == a^j` for `i <= j`, then `a^(j - i) == 1`.
pub proof fn lemma_equal_powers(a: Residue, i: nat, j: nat)
    requires
        a.valid(),
        a.is_unit(),
        i <= j,
        a.spec_pow(i as int) == a.spec_pow(j as int),
    ensures
        a.spec_pow(j - i) == Residue::one(a.modulus),
{
    let low = a.spec_pow(i as int);
    let gap = a.spec_pow(j - i);
    lemma_power_of_unit_is_unit(a, i as int);
    lemma_mod_bound(pow(a.value as int, (j - i) as nat), a.modulus as int);
    low.lemma_inverse();
    lemma_pow_plus_nat(a, i, (j - i) as nat);
    lemma_times_associative(low.spec_inv(), low, gap);
    lemma_one_times(gap);
}

} // verus!
