//! The residue ring Z/nZ: values reduced into `[0, n)` and the arithmetic on
//! them.

use vstd::prelude::*;
use vstd::arithmetic::div_mod::*;
use vstd::arithmetic::mul::*;
use vstd::arithmetic::power::*;
use crate::divisibility::{lemma_bezout_identity, lemma_coprime_to_prime};
use crate::factorization::{lemma_listed_prime_divides, lemma_prime_divisor_listed};
use crate::integer::{
    bezout,
    euler_totient,
    gcd_with_coefficients,
    prime,
    prime_factorization,
    prime_factorize,
    spec_gcd,
};
use crate::fermat::lemma_order_test_gives_primitive_root;
use crate::random::random_in_range;

verus! {

/// The largest modulus for which the product of any two residues fits in
/// 128 bits: two to the power 64.
pub const MAX_MODULUS: u128 = 0x1_0000_0000_0000_0000;

/// The number of random candidates that a search draws before it gives up.
pub const SEARCH_LIMIT: u32 = 1_000_000;

/// An element of Z/nZ: `value` in `[0, modulus)`.
#[derive(Clone, Debug, PartialEq, Eq, Structural)]
pub struct Residue {
    pub value: u128,
    pub modulus: u128,
}

impl Residue {
    /// The invariant of a residue: its value lies below its modulus (which
    /// is therefore positive).
    pub open spec fn valid(self) -> bool {
        self.value < self.modulus
    }

    /// The residue of the integer `n` in Z/`modulus`Z, by the Euclidean
    /// (never negative) remainder.
    pub open spec fn reduce(n: int, modulus: u128) -> Residue {
        Residue { value: (n % (modulus as int)) as u128, modulus }
    }

    /// The one of the ring: 1 reduced, which is 0 in the trivial ring Z/1Z.
    pub open spec fn one(modulus: u128) -> Residue {
        Self::reduce(1, modulus)
    }

    /// The sum of two residues of one ring.
    pub open spec fn spec_plus(self, other: Residue) -> Residue {
        Self::reduce(self.value + other.value, self.modulus)
    }

    /// The product of two residues of one ring.
    pub open spec fn spec_times(self, other: Residue) -> Residue {
        Self::reduce(self.value * other.value, self.modulus)
    }

    /// The residue multiplied by an integer.
    pub open spec fn spec_scalar_times(self, scalar: int) -> Residue {
        Self::reduce(scalar * self.value, self.modulus)
    }

    /// The additive inverse: the residue times -1.
    pub open spec fn spec_neg(self) -> Residue {
        self.spec_scalar_times(-1)
    }

    /// A unit is a residue coprime to its modulus.
    pub open spec fn is_unit(self) -> bool {
        spec_gcd(self.value as nat, self.modulus as nat) == 1
    }

    /// The inverse of a unit: its Bezout coefficient against the modulus,
    /// reduced.
    pub open spec fn spec_inv(self) -> Residue {
        Self::reduce(bezout(self.value as nat, self.modulus as nat).0, self.modulus)
    }

    /// The `e`-th power; a negative power is the positive power of the
    /// inverse.
    pub open spec fn spec_pow(self, e: int) -> Residue {
        if e >= 0 {
            Self::reduce(pow(self.value as int, e as nat), self.modulus)
        } else {
            Self::reduce(pow(self.spec_inv().value as int, (-e) as nat), self.modulus)
        }
    }

    /// Whether the residue satisfies its invariant.
    pub fn is_valid(&self) -> (b: bool)
        ensures
            b == self.valid(),
    {
        self.value < self.modulus
    }

    /// Reduces an unsigned integer into Z/`modulus`Z.
    pub fn from_unsigned_integer(n: u128, modulus: u128) -> (r: Residue)
        requires
            modulus > 0,
        ensures
            r == Self::reduce(n as int, modulus),
            r.value == n % modulus,
            r.modulus == modulus,
            r.valid(),
    {
        Residue { value: n % modulus, modulus }
    }

    /// Reduces a signed integer into Z/`modulus`Z; the value is the
    /// Euclidean remainder, so it is never negative.
    pub fn from_signed_integer(n: i128, modulus: u128) -> (r: Residue)
        requires
            modulus > 0,
        ensures
            r == Self::reduce(n as int, modulus),
            r.value == (n as int) % (modulus as int),
            r.modulus == modulus,
            r.valid(),
    {
        if n >= 0 {
            Residue { value: (n as u128) % modulus, modulus }
        } else {
            let magnitude: u128 = ((-(n + 1)) as u128) + 1;
            let rest: u128 = magnitude % modulus;
            proof {
                let m = modulus as int;
                let q = (magnitude as int) / m;
                lemma_fundamental_div_mod(magnitude as int, m);
                if rest == 0 {
                    assert(n == (-q) * m + 0) by (nonlinear_arith)
                        requires
                            -n == m * q + 0,
                    ;
                    lemma_fundamental_div_mod_converse(n as int, m, -q, 0);
                } else {
                    assert(n == (-q - 1) * m + (m - rest)) by (nonlinear_arith)
                        requires
                            -n == m * q + rest,
                    ;
                    lemma_fundamental_div_mod_converse(n as int, m, -q - 1, m - rest);
                }
            }
            if rest == 0 {
                Residue { value: 0, modulus }
            } else {
                Residue { value: modulus - rest, modulus }
            }
        }
    }

    /// The sum of two residues of one ring.
    pub fn plus(&self, other: &Residue) -> (r: Residue)
        requires
            self.valid(),
            other.valid(),
            self.modulus == other.modulus,
        ensures
            r == self.spec_plus(*other),
            r.valid(),
    {
        let gap: u128 = self.modulus - other.value;
        if self.value >= gap {
            proof {
                lemma_fundamental_div_mod_converse(
                    self.value + other.value,
                    self.modulus as int,
                    1,
                    self.value - gap,
                );
            }
            Residue { value: self.value - gap, modulus: self.modulus }
        } else {
            proof {
                lemma_small_mod((self.value + other.value) as nat, self.modulus as nat);
            }
            Residue { value: self.value + other.value, modulus: self.modulus }
        }
    }

    /// The product of two residues of one ring. The product of the two
    /// values is formed in 128 bits and has to fit there.
    pub fn times(&self, other: &Residue) -> (r: Residue)
        requires
            self.valid(),
            other.valid(),
            self.modulus == other.modulus,
            self.value * other.value <= u128::MAX,
        ensures
            r == self.spec_times(*other),
            r.valid(),
    {
        Residue::from_unsigned_integer(self.value * other.value, self.modulus)
    }

    /// The residue multiplied by an integer scalar. The scalar is reduced
    /// first; its residue times the value has to fit in 128 bits.
    pub fn scalar_times(&self, scalar: i128) -> (r: Residue)
        requires
            self.valid(),
            ((scalar as int) % (self.modulus as int)) * self.value <= u128::MAX,
        ensures
            r == self.spec_scalar_times(scalar as int),
            r.valid(),
    {
        let factor = Residue::from_signed_integer(scalar, self.modulus);
        proof {
            lemma_mul_mod_noop_left(scalar as int, self.value as int, self.modulus as int);
        }
        Residue::from_unsigned_integer(factor.value * self.value, self.modulus)
    }

    /// The additive inverse: the residue times the scalar -1.
    pub fn neg(&self) -> (r: Residue)
        requires
            self.valid(),
        ensures
            r == self.spec_neg(),
            r == self.spec_scalar_times(-1),
            r.valid(),
    {
        if self.value == 0 {
            proof {
                lemma_small_mod(0, self.modulus as nat);
            }
            Residue { value: 0, modulus: self.modulus }
        } else {
            proof {
                lemma_fundamental_div_mod_converse(
                    -1 * self.value,
                    self.modulus as int,
                    -1,
                    self.modulus - self.value,
                );
            }
            Residue { value: self.modulus - self.value, modulus: self.modulus }
        }
    }

    /// The product of a unit and its inverse is the one of the ring.
    pub proof fn lemma_inverse(self)
        requires
            self.valid(),
            self.is_unit(),
        ensures
            self.spec_inv().valid(),
            self.spec_times(self.spec_inv()) == Self::one(self.modulus),
            self.spec_inv().spec_times(self) == Self::one(self.modulus),
    {
        let a = self.value as int;
        let m = self.modulus as int;
        let u = bezout(self.value as nat, self.modulus as nat).0;
        let v = bezout(self.value as nat, self.modulus as nat).1;
        lemma_bezout_identity(self.value as nat, self.modulus as nat);
        lemma_mod_bound(u, m);
        lemma_mul_mod_noop_right(a, u, m);
        lemma_mul_mod_noop_left(u, a, m);
        assert(a * u == m * (-v) + 1 && u * a == a * u) by (nonlinear_arith)
            requires
                u * a + v * m == 1,
        ;
        lemma_mod_multiples_vanish(-v, 1, m);
    }

    /// The multiplicative inverse of a unit, from the Bezout coefficients of
    /// the value and the modulus.
    pub fn inv(&self) -> (r: Residue)
        requires
            self.valid(),
            self.is_unit(),
            self.modulus <= i128::MAX,
        ensures
            r == self.spec_inv(),
            r.valid(),
            r.spec_times(*self) == Self::one(self.modulus),
    {
        let (_g, u, _v) = gcd_with_coefficients(self.value, self.modulus);
        proof {
            self.lemma_inverse();
        }
        Residue::from_signed_integer(u, self.modulus)
    }

    /// One squaring step of binary exponentiation, modulo `m`.
    pub proof fn lemma_square_step(a: int, e: nat, m: int)
        requires
            m > 0,
            e > 0,
        ensures
            pow(a, e) % m == (if e % 2 == 1 {
                a * pow((a * a) % m, e / 2)
            } else {
                pow((a * a) % m, e / 2)
            }) % m,
    {
        let half = e / 2;
        lemma_pow_mod_noop(a * a, half, m);
        lemma_pow_multiplies(a, 2, half);
        reveal_with_fuel(pow, 3);
        assert(pow(a, 2) == a * a) by (nonlinear_arith)
            requires
                pow(a, 2) == a * (a * 1),
        ;
        assert(2 * half == half * 2);
        if e % 2 == 1 {
            assert(e == 2 * half + 1);
            lemma_pow_adds(a, 1, 2 * half);
            lemma_pow1(a);
            lemma_mul_mod_noop_right(a, pow(a * a, half), m);
            lemma_mul_mod_noop_right(a, pow((a * a) % m, half), m);
        } else {
            assert(e == 2 * half);
        }
    }

    /// The residue raised to an unsigned power, by squaring and multiplying.
    fn power(&self, exponent: u128) -> (r: Residue)
        requires
            self.valid(),
            self.modulus <= MAX_MODULUS,
        ensures
            r == Self::reduce(pow(self.value as int, exponent as nat), self.modulus),
            r.valid(),
    {
        let mut e: u128 = exponent;
        let mut a = Residue { value: self.value, modulus: self.modulus };
        let mut b = Residue::from_unsigned_integer(1, self.modulus);
        let ghost m = self.modulus as int;
        let ghost goal = pow(self.value as int, exponent as nat) % m;
        proof {
            lemma_mul_mod_noop_left(1, pow(a.value as int, e as nat), m);
            assert(1 * pow(a.value as int, e as nat) == pow(a.value as int, e as nat))
                by (nonlinear_arith);
        }
        while e > 0
            invariant
                m == self.modulus,
                a.modulus == self.modulus,
                b.modulus == self.modulus,
                a.valid(),
                b.valid(),
                self.modulus <= MAX_MODULUS,
                (b.value * pow(a.value as int, e as nat)) % m == goal,
            decreases e,
        {
            proof {
                let av = a.value as int;
                let bv = b.value as int;
                let sq = (av * av) % m;
                let rest = pow(sq, (e / 2) as nat);
                assert(av * av <= u128::MAX && bv * av <= u128::MAX) by (nonlinear_arith)
                    requires
                        0 <= av < m,
                        0 <= bv < m,
                        m <= 0x1_0000_0000_0000_0000,
                ;
                Self::lemma_square_step(av, e as nat, m);
                lemma_mul_mod_noop_right(bv, pow(av, e as nat), m);
                if e % 2 == 1 {
                    lemma_mul_mod_noop_right(bv, av * rest, m);
                    lemma_mul_is_associative(bv, av, rest);
                    lemma_mul_mod_noop_left(bv * av, rest, m);
                } else {
                    lemma_mul_mod_noop_right(bv, rest, m);
                }
            }
            if e % 2 == 1 {
                b = b.times(&a);
            }
            a = a.times(&a);
            e /= 2;
        }
        proof {
            lemma_pow0(a.value as int);
            assert(b.value * 1 == b.value) by (nonlinear_arith);
            lemma_small_mod(b.value as nat, self.modulus as nat);
        }
        b
    }

    /// The residue raised to an integer power by binary exponentiation. A
    /// negative power inverts the residue once and raises the inverse to the
    /// opposite power, so the residue then has to be a unit.
    pub fn pow(&self, e: i128) -> (r: Residue)
        requires
            self.valid(),
            self.modulus <= MAX_MODULUS,
            e < 0 ==> self.is_unit(),
        ensures
            r == self.spec_pow(e as int),
            r.valid(),
    {
        if e < 0 {
            let magnitude: u128 = ((-(e + 1)) as u128) + 1;
            self.inv().power(magnitude)
        } else {
            self.power(e as u128)
        }
    }
    /// The order test of a candidate generator of a group of order `phi`:
    /// for no prime `q` that divides `phi` is the candidate's power
    /// `phi / q` the one of the ring.
    pub open spec fn passes_order_test(self, phi: u128) -> bool {
        forall|q: nat|
            #[trigger] prime(q) && (phi as nat) % q == 0 ==> self.spec_pow((phi as nat / q) as int)
                != Self::one(self.modulus)
    }

    /// A primitive root of a prime modulus: none of its powers `1, ...,
    /// modulus - 2` is the one of the ring.
    pub open spec fn is_primitive_root(self) -> bool {
        forall|k: nat|
            1 <= k < self.modulus - 1 ==> #[trigger] self.spec_pow(k as int) != Self::one(
                self.modulus,
            )
    }

    /// What `primitive_root` may return for a prime `modulus`: a residue in
    /// `[1, modulus)`, hence a unit, that passes the order test for the
    /// group order `modulus - 1`, and so is a primitive root; or nothing,
    /// where the search gave up. Modulo 2 the search cannot give up: its
    /// only candidate is 1, which passes the order test.
    pub open spec fn primitive_root_outcome(modulus: u128, outcome: Option<Residue>) -> bool {
        match outcome {
            Some(g) => {
                &&& g.modulus == modulus
                &&& 1 <= g.value < modulus
                &&& g.is_unit()
                &&& g.passes_order_test((modulus - 1) as u128)
                &&& g.is_primitive_root()
            },
            None => modulus != 2,
        }
    }

    /// Decides the order test of this candidate, given the prime
    /// factorization of the group order `phi`.
    pub fn is_generator(&self, phi: u128, factors: &Vec<(u128, u32)>) -> (b: bool)
        requires
            self.valid(),
            self.modulus <= MAX_MODULUS,
            phi <= i128::MAX,
            prime_factorization(factors@, phi as nat),
        ensures
            b == self.passes_order_test(phi),
    {
        let one = Residue::from_unsigned_integer(1, self.modulus);
        let mut j: usize = 0;
        while j < factors.len()
            invariant
                j <= factors.len(),
                self.valid(),
                self.modulus <= MAX_MODULUS,
                phi <= i128::MAX,
                prime_factorization(factors@, phi as nat),
                one == Self::one(self.modulus),
                forall|k: int|
                    0 <= k < j ==> self.spec_pow((phi / (#[trigger] factors@[k]).0) as int)
                        != Self::one(self.modulus),
            decreases factors.len() - j,
        {
            let p: u128 = factors[j].0;
            proof {
                assert(prime(factors@[j as int].0 as nat));
                lemma_listed_prime_divides(factors@, j as int);
            }
            if self.pow((phi / p) as i128) == one {
                assert(prime(p as nat) && (phi as nat) % (p as nat) == 0);
                return false;
            }
            j += 1;
        }
        proof {
            assert forall|q: nat| #[trigger] prime(q) && (phi as nat) % q == 0 implies self.spec_pow(
                (phi as nat / q) as int,
            ) != Self::one(self.modulus) by {
                lemma_prime_divisor_listed(factors@, q);
                let i = choose|i: int| 0 <= i < factors@.len() && (#[trigger] factors@[i]).0 == q;
                assert(self.spec_pow((phi / factors@[i].0) as int) != Self::one(self.modulus));
            }
        }
        true
    }

    /// Searches a primitive root of a prime modulus among random candidates.
    ///
    /// A candidate drawn from `[1, modulus)` is accepted if and only if it
    /// passes the order test for every prime divisor of `modulus - 1`.
    /// The search gives up, and returns `None`, after `SEARCH_LIMIT`
    /// candidates. Only prime moduli are supported. Modulo 2 the only
    /// candidate is 1, which is accepted.
    pub fn primitive_root(modulus: u128) -> (r: Option<Residue>)
        requires
            prime(modulus as nat),
            modulus <= MAX_MODULUS,
        ensures
            Self::primitive_root_outcome(modulus, r),
            modulus == 2 ==> r == Some(Residue { value: 1, modulus: 2 }),
    {
        let phi = euler_totient(modulus);
        let factors = prime_factorize(phi);
        let mut attempts: u32 = 0;
        while attempts < SEARCH_LIMIT
            invariant
                prime(modulus as nat),
                modulus <= MAX_MODULUS,
                phi == modulus - 1,
                prime_factorization(factors@, phi as nat),
                modulus == 2 ==> attempts == 0,
            decreases SEARCH_LIMIT - attempts,
        {
            let drawn: u128 = random_in_range(1, modulus);
            let candidate = Residue::from_unsigned_integer(drawn, modulus);
            proof {
                lemma_small_mod(drawn as nat, modulus as nat);
                if modulus == 2 {
                    assert forall|q: nat| #[trigger] prime(q) implies 1nat % q != 0 by {
                        lemma_small_mod(1, q);
                    }
                    assert(candidate.passes_order_test(phi));
                }
            }
            if candidate.is_generator(phi, &factors) {
                proof {
                    lemma_coprime_to_prime(candidate.value as nat, modulus as nat);
                    lemma_order_test_gives_primitive_root(candidate);
                }
                return Some(candidate);
            }
            attempts += 1;
        }
        None
    }
}

} // verus!
