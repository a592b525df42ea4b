//! Fermat's little theorem, by the classical argument: multiplication by a
//! unit permutes the non-zero residues of a prime modulus, so the product
//! of all of them is unchanged by it.

use vstd::prelude::*;
use vstd::arithmetic::div_mod::*;
use vstd::arithmetic::mul::*;
use vstd::arithmetic::power::*;
use vstd::seq_lib::*;
use vstd::set_lib::*;
use crate::divisibility::{lemma_prime_divides_factor};
use crate::integer::{prime};
use crate::modular::Residue;
use crate::divisibility::lemma_coprime_to_prime;
use crate::ring_laws::{lemma_equal_powers, lemma_order_test_excludes_smaller_orders};

verus! {

/// Multiplication modulo `p`, as a folding step.
pub open spec fn times_mod(p: int) -> spec_fn(int, int) -> int {
    |acc: int, x: int| (acc * x) % p
}

/// The numbers `1, ..., n`.
pub open spec fn first_residues(n: nat) -> Seq<int> {
    Seq::new(n, |i: int| i + 1)
}

/// The numbers `g * 1, ..., g * n`, each reduced modulo `p`.
pub open spec fn scaled_residues(g: int, p: int, n: nat) -> Seq<int> {
    Seq::new(n, |i: int| (g * (i + 1)) % p)
}

/// The product of `1, ..., n` modulo `p`.
pub open spec fn product_mod(p: int, n: nat) -> int {
    first_residues(n).fold_left(1, times_mod(p))
}

/// The product of `g * 1, ..., g * n` modulo `p`.
pub open spec fn scaled_product_mod(g: int, p: int, n: nat) -> int {
    scaled_residues(g, p, n).fold_left(1, times_mod(p))
}

/// Folding with multiplication modulo `p` does not depend on the order.
pub proof fn lemma_times_mod_commutative(p: int)
    requires
        p > 0,
    ensures
        commutative_foldl(times_mod(p)),
{
    let f = times_mod(p);
    assert forall|x: int, y: int, v: int| #[trigger] f(f(v, x), y) == f(f(v, y), x) by {
        lemma_mul_mod_noop_left(v * x, y, p);
        lemma_mul_mod_noop_left(v * y, x, p);
        assert((v * x) * y == (v * y) * x) by (nonlinear_arith);
    }
}

/// The product of `g * 1, ..., g * n` is `g^n` times the product of
/// `1, ..., n`, modulo `p`.
pub proof fn lemma_scaled_product(g: int, p: int, n: nat)
    requires
        p > 1,
    ensures
        scaled_product_mod(g, p, n) == (pow(g, n) * product_mod(p, n)) % p,
    decreases n,
{
    reveal(pow);
    if n == 0 {
        lemma_small_mod(1, p as nat);
        assert(pow(g, 0) * 1 == 1) by (nonlinear_arith)
            requires
                pow(g, 0) == 1,
        ;
    } else {
        let k = (n - 1) as nat;
        lemma_scaled_product(g, p, k);
        assert(first_residues(n).drop_last() =~= first_residues(k));
        assert(scaled_residues(g, p, n).drop_last() =~= scaled_residues(g, p, k));
        let a = product_mod(p, k);
        let gk = pow(g, k);
        assert(product_mod(p, n) == (a * n) % p);
        assert(scaled_product_mod(g, p, n) == (((gk * a) % p) * ((g * n) % p)) % p);
        lemma_mul_mod_noop(gk * a, g * n, p);
        lemma_mul_mod_noop_right(pow(g, n), a * n, p);
        assert((gk * a) * (g * n) == pow(g, n) * (a * n)) by (nonlinear_arith)
            requires
                pow(g, n) == g * gk,
        ;
    }
}

/// The product of `1, ..., n` is not a multiple of a prime `p > n`.
pub proof fn lemma_product_mod_nonzero(p: nat, n: nat)
    requires
        prime(p),
        n < p,
    ensures
        1 <= product_mod(p as int, n) < p,
    decreases n,
{
    if n == 0 {
    } else {
        let k = (n - 1) as nat;
        lemma_product_mod_nonzero(p, k);
        assert(first_residues(n).drop_last() =~= first_residues(k));
        let a = product_mod(p as int, k);
        assert(product_mod(p as int, n) == (a * n) % (p as int));
        lemma_mod_bound(a * n, p as int);
        if (a * n) % (p as int) == 0 {
            assert(a * n >= 0) by (nonlinear_arith)
                requires
                    a >= 1,
                    n >= 1,
            ;
            lemma_prime_divides_factor(p, a as nat, n);
            lemma_small_mod(a as nat, p);
            lemma_small_mod(n, p);
        }
    }
}

/// Multiplication by `g`, with `1 <= g < p`, permutes the non-zero residues
/// of a prime `p`.
pub proof fn lemma_scaling_permutes(g: nat, p: nat)
    requires
        prime(p),
        1 <= g < p,
    ensures
        first_residues((p - 1) as nat).to_multiset() == scaled_residues(
            g as int,
            p as int,
            (p - 1) as nat,
        ).to_multiset(),
{
    let n = (p - 1) as nat;
    let s1 = first_residues(n);
    let s2 = scaled_residues(g as int, p as int, n);
    let range = set_int_range(1, p as int);
    assert(s1.no_duplicates());
    assert forall|i: int, j: int| 0 <= i < s2.len() && 0 <= j < s2.len() && i != j implies s2[i]
        != s2[j] by {
        if s2[i] == s2[j] {
            let lo = if i < j { i } else { j };
            let hi = if i < j { j } else { i };
            lemma_mod_equivalence(g * (hi + 1), g * (lo + 1), p as int);
            assert(g * (hi + 1) - g * (lo + 1) == g * (hi - lo)) by (nonlinear_arith);
            lemma_prime_divides_factor(p, g, (hi - lo) as nat);
            lemma_small_mod(g, p);
            lemma_small_mod((hi - lo) as nat, p);
        }
    }
    assert(s2.no_duplicates());
    assert forall|x: int| s1.to_set().contains(x) <==> range.contains(x) by {
        if range.contains(x) {
            assert(s1[x - 1] == x);
        }
    }
    assert(s1.to_set() =~= range);
    assert forall|x: int| s2.to_set().contains(x) implies range.contains(x) by {
        let i = choose|i: int| 0 <= i < s2.len() && s2[i] == x;
        lemma_mod_bound(g * (i + 1), p as int);
        if x == 0 {
            lemma_prime_divides_factor(p, g, (i + 1) as nat);
            lemma_small_mod(g, p);
            lemma_small_mod((i + 1) as nat, p);
        }
    }
    s2.unique_seq_to_set();
    lemma_int_range(1, p as int);
    seq_to_set_is_finite(s2);
    lemma_subset_equality(s2.to_set(), range);
    s1.lemma_multiset_has_no_duplicates();
    s2.lemma_multiset_has_no_duplicates();
    assert forall|x: int| s1.to_multiset().count(x) == s2.to_multiset().count(x) by {
        to_multiset_contains(s1, x);
        to_multiset_contains(s2, x);
        assert(s1.contains(x) <==> s1.to_set().contains(x));
        assert(s2.contains(x) <==> s2.to_set().contains(x));
    }
    assert(s1.to_multiset() =~= s2.to_multiset());
}

/// Fermat's little theorem: for a prime `p` and `1 <= g < p`, the power
/// `g^(p - 1)` leaves the remainder 1 modulo `p`.
pub proof fn lemma_fermat_little(g: nat, p: nat)
    requires
        prime(p),
        1 <= g < p,
    ensures
        pow(g as int, (p - 1) as nat) % (p as int) == 1,
{
    let n = (p - 1) as nat;
    let m = p as int;
    let w = product_mod(m, n);
    let gn = pow(g as int, n);
    lemma_scaling_permutes(g, p);
    lemma_times_mod_commutative(m);
    lemma_fold_left_permutation(
        first_residues(n),
        scaled_residues(g as int, m, n),
        times_mod(m),
        1int,
    );
    lemma_scaled_product(g as int, m, n);
    lemma_product_mod_nonzero(p, n);
    lemma_small_mod(w as nat, p);
    lemma_pow_positive(g as int, n);
    lemma_mod_equivalence(gn * w, w, m);
    assert(gn * w - w == w * (gn - 1)) by (nonlinear_arith);
    lemma_prime_divides_factor(p, w as nat, (gn - 1) as nat);
    lemma_mod_equivalence(gn, 1, m);
    lemma_small_mod(1, p);
}

/// Fermat's little theorem in the residue ring of a prime modulus: every
/// non-zero residue raised to the power `modulus - 1` is the one.
pub proof fn lemma_fermat(g: Residue)
    requires
        prime(g.modulus as nat),
        1 <= g.value < g.modulus,
    ensures
        g.spec_pow(g.modulus - 1) == Residue::one(g.modulus),
{
    lemma_fermat_little(g.value as nat, g.modulus as nat);
    lemma_small_mod(1, g.modulus as nat);
}

/// The order test finds primitive roots: a non-zero residue of a prime
/// modulus that passes the order test for `modulus - 1` has no power
/// `1, ..., modulus - 2` equal to the one.
pub proof fn lemma_order_test_gives_primitive_root(g: Residue)
    requires
        prime(g.modulus as nat),
        1 <= g.value < g.modulus,
        g.passes_order_test((g.modulus - 1) as u128),
    ensures
        g.is_primitive_root(),
{
    lemma_fermat(g);
    assert forall|k: nat| 1 <= k < g.modulus - 1 implies #[trigger] g.spec_pow(k as int)
        != Residue::one(g.modulus) by {
        lemma_order_test_excludes_smaller_orders(g, (g.modulus - 1) as u128, k);
    }
}

/// The powers `g^1, ..., g^(modulus - 1)` of a primitive root of a prime
/// modulus are pairwise different, so they run through every non-zero
/// residue once.
pub proof fn lemma_primitive_root_powers_distinct(g: Residue, i: nat, j: nat)
    requires
        prime(g.modulus as nat),
        1 <= g.value < g.modulus,
        g.is_primitive_root(),
        1 <= i < j < g.modulus,
    ensures
        g.spec_pow(i as int) != g.spec_pow(j as int),
{
    lemma_small_mod(g.value as nat, g.modulus as nat);
    lemma_coprime_to_prime(g.value as nat, g.modulus as nat);
    if g.spec_pow(i as int) == g.spec_pow(j as int) {
        lemma_equal_powers(g, i, j);
        assert(g.spec_pow((j - i) as nat as int) == Residue::one(g.modulus));
    }
}

/// A consequence of Fermat's little theorem: modulo a prime `p`, raising to
/// a power that is one more than a multiple of `p - 1` changes nothing.
pub proof fn lemma_power_cycle(p: nat, x: nat, j: nat)
    requires
        prime(p),
    ensures
        pow(x as int, ((p - 1) * j + 1) as nat) % (p as int) == x % p,
{
    let m = p as int;
    let n = ((p - 1) * j) as nat;
    let y = x % p;
    assert((p - 1) * j >= 0) by (nonlinear_arith)
        requires
            p >= 2,
            j >= 0,
    ;
    lemma_pow_adds(x as int, n, 1);
    lemma_pow1(x as int);
    lemma_mul_mod_noop(pow(x as int, n), x as int, m);
    if y == 0 {
        lemma_mul_mod_noop_right(pow(x as int, n), x as int, m);
        assert(pow(x as int, n) * 0 == 0) by (nonlinear_arith);
    } else {
        lemma_pow_mod_noop(x as int, n, m);
        lemma_pow_multiplies(y as int, (p - 1) as nat, j);
        lemma_fermat_little(y, p);
        lemma_pow_mod_noop(pow(y as int, (p - 1) as nat), j, m);
        lemma1_pow(j);
        lemma_small_mod(1, p);
        assert(pow(x as int, n) % m == 1);
        assert(1 * y == y) by (nonlinear_arith);
        lemma_mod_twice(x as int, m);
    }
}

} // verus!
