//! RSA encryption with a modulus of two primes.

use vstd::prelude::*;
use vstd::arithmetic::div_mod::*;
use vstd::arithmetic::mul::*;
use vstd::arithmetic::power::*;
use crate::divisibility::{lemma_pow_at_least_base, lemma_two_primes_divide};
use crate::fermat::lemma_power_cycle;
use crate::integer::{gcd, prime, spec_gcd};
use crate::ring_laws::lemma_pow_pow_nat;
use crate::modular::{Residue, MAX_MODULUS, SEARCH_LIMIT};
use crate::random::random_in_range;

verus! {

/// The group order that the exponents of a key live in: `(p - 1) * (q - 1)`.
pub open spec fn exponent_modulus(p: u128, q: u128) -> int {
    (p - 1) * (q - 1)
}

/// The upper end of the range that public exponents are drawn from: the
/// exponent modulus, capped at the largest `i128`.
pub open spec fn exponent_limit(p: u128, q: u128) -> int {
    if exponent_modulus(p, q) <= i128::MAX {
        exponent_modulus(p, q)
    } else {
        i128::MAX as int
    }
}

/// The decryption exponent that belongs to the public exponent `e`: its
/// inverse modulo `(p - 1) * (q - 1)`.
pub open spec fn decryption_exponent(p: u128, q: u128, e: u128) -> u128 {
    Residue::reduce(e as int, exponent_modulus(p, q) as u128).spec_inv().value
}

/// What `generate_public_key` may return: nothing, or the modulus `p * q`
/// with an exponent from `[1, exponent_limit)` that is coprime to
/// `(p - 1) * (q - 1)`, and so a unit modulo it.
pub open spec fn public_key_outcome(p: u128, q: u128, outcome: Option<(u128, u128)>) -> bool {
    match outcome {
        Some(key) => {
            &&& key.0 == p * q
            &&& 1 <= key.1 < exponent_limit(p, q)
            &&& spec_gcd(key.1 as nat, exponent_modulus(p, q) as nat) == 1
            &&& Residue::reduce(key.1 as int, exponent_modulus(p, q) as u128).is_unit()
        },
        None => true,
    }
}

/// Generates the public key `(N, e)` that belongs to two secret primes.
///
/// Candidates for `e` are drawn at random until one is coprime to
/// `(p - 1) * (q - 1)`; after `SEARCH_LIMIT` candidates the search gives
/// up and returns `None`. The exponent never exceeds `i128::MAX`. Where
/// `(p - 1) * (q - 1)` is 2, the only candidate is 1, which is accepted.
pub fn generate_public_key(p: u128, q: u128) -> (r: Option<(u128, u128)>)
    requires
        p >= 1,
        q >= 1,
        p * q <= u128::MAX,
        exponent_modulus(p, q) >= 2,
    ensures
        public_key_outcome(p, q, r),
        exponent_modulus(p, q) == 2 ==> r == Some(((p * q) as u128, 1u128)),
{
    proof {
        assert((p - 1) * (q - 1) <= p * q) by (nonlinear_arith)
            requires
                p >= 1,
                q >= 1,
        ;
    }
    let modulus: u128 = (p - 1) * (q - 1);
    let max_exponent: u128 = if modulus <= i128::MAX as u128 {
        modulus
    } else {
        i128::MAX as u128
    };
    let mut attempts: u32 = 0;
    while attempts < SEARCH_LIMIT
        invariant
            p * q <= u128::MAX,
            modulus == exponent_modulus(p, q),
            max_exponent == exponent_limit(p, q),
            max_exponent >= 2,
            modulus == 2 ==> attempts == 0,
        decreases SEARCH_LIMIT - attempts,
    {
        let e: u128 = random_in_range(1, max_exponent);
        proof {
            lemma_small_mod(e as nat, modulus as nat);
            if modulus == 2 {
                reveal_with_fuel(spec_gcd, 3);
                assert(spec_gcd(1, 2) == 1);
            }
        }
        if gcd(e, modulus) == 1 {
            return Some((p * q, e));
        }
        attempts += 1;
    }
    None
}

/// Encrypts each unit of a message under the public key `(N, e)`: the unit,
/// as a residue modulo `N`, raised to the power `e`.
pub fn encrypt(message: &Vec<u128>, public_key: (u128, u128)) -> (out: Vec<Residue>)
    requires
        0 < public_key.0 <= MAX_MODULUS,
        public_key.1 <= i128::MAX,
    ensures
        out.len() == message.len(),
        forall|i: int|
            0 <= i < message.len() ==> #[trigger] out[i] == Residue::reduce(
                message[i] as int,
                public_key.0,
            ).spec_pow(public_key.1 as int),
{
    let mut ret: Vec<Residue> = Vec::new();
    let mut i: usize = 0;
    while i < message.len()
        invariant
            i <= message.len(),
            0 < public_key.0 <= MAX_MODULUS,
            public_key.1 <= i128::MAX,
            ret.len() == i,
            forall|j: int|
                0 <= j < i ==> #[trigger] ret@[j] == Residue::reduce(
                    message[j] as int,
                    public_key.0,
                ).spec_pow(public_key.1 as int),
        decreases message.len() - i,
    {
        let piece: u128 = message[i];
        ret.push(Residue::from_unsigned_integer(piece, public_key.0).pow(public_key.1 as i128));
        i += 1;
    }
    ret
}

/// Decrypts a ciphertext with the secret primes and the public exponent:
/// each unit is raised to the inverse of `e` modulo `(p - 1) * (q - 1)`.
pub fn decrypt(p: u128, q: u128, ciphertext: &Vec<Residue>, e: u128) -> (out: Vec<u128>)
    requires
        p >= 1,
        q >= 1,
        0 < exponent_modulus(p, q) <= i128::MAX,
        Residue::reduce(e as int, exponent_modulus(p, q) as u128).is_unit(),
        forall|i: int|
            0 <= i < ciphertext.len() ==> (#[trigger] ciphertext[i]).valid() && ciphertext[i].modulus
                <= MAX_MODULUS,
    ensures
        out.len() == ciphertext.len(),
        forall|i: int|
            0 <= i < ciphertext.len() ==> #[trigger] out[i] == ciphertext[i].spec_pow(
                decryption_exponent(p, q, e) as int,
            ).value,
{
    let modulus: u128 = (p - 1) * (q - 1);
    let d: u128 = Residue::from_unsigned_integer(e, modulus).inv().value;
    let mut ret: Vec<u128> = Vec::new();
    let mut i: usize = 0;
    while i < ciphertext.len()
        invariant
            i <= ciphertext.len(),
            d == decryption_exponent(p, q, e),
            d <= i128::MAX,
            forall|j: int|
                0 <= j < ciphertext.len() ==> (#[trigger] ciphertext[j]).valid()
                    && ciphertext[j].modulus <= MAX_MODULUS,
            ret.len() == i,
            forall|j: int|
                0 <= j < i ==> #[trigger] ret@[j] == ciphertext[j].spec_pow(d as int).value,
        decreases ciphertext.len() - i,
    {
        let piece = &ciphertext[i];
        ret.push(piece.pow(d as i128).value);
        i += 1;
    }
    ret
}

/// Decryption undoes encryption, unit by unit: for two different primes
/// `p` and `q` and a public exponent `e` that is invertible modulo
/// `(p - 1) * (q - 1)`, a plaintext unit below `p * q` raised to `e` and
/// then to the decryption exponent is the unit again.
pub proof fn lemma_decrypt_inverts_encrypt_unit(p: u128, q: u128, e: u128, unit: u128)
    requires
        prime(p as nat),
        prime(q as nat),
        p != q,
        p * q <= u128::MAX,
        Residue::reduce(e as int, exponent_modulus(p, q) as u128).is_unit(),
        unit < p * q,
    ensures
        Residue::reduce(unit as int, (p * q) as u128).spec_pow(e as int).spec_pow(
            decryption_exponent(p, q, e) as int,
        ).value == unit,
{
    let n = (p * q) as u128;
    let lambda = exponent_modulus(p, q);
    let d = decryption_exponent(p, q, e);
    let x = unit as nat;
    assert(2 <= lambda <= p * q) by (nonlinear_arith)
        requires
            lambda == (p - 1) * (q - 1),
            p >= 2,
            q >= 2,
            p != q,
    ;
    // e * d leaves the remainder 1 modulo lambda
    let r = Residue::reduce(e as int, lambda as u128);
    lemma_mod_bound(e as int, lambda);
    r.lemma_inverse();
    lemma_mul_mod_noop_left(e as int, d as int, lambda);
    lemma_small_mod(1, lambda as nat);
    let ed = (e * d) as nat;
    assert(e * d >= 0) by (nonlinear_arith)
        requires
            e >= 0,
            d >= 0,
    ;
    lemma_fundamental_div_mod(ed as int, lambda);
    let t = ed / (lambda as nat);
    assert(ed == (p - 1) * ((q - 1) * t) + 1 && ed == (q - 1) * ((p - 1) * t) + 1 && (q - 1) * t
        >= 0 && (p - 1) * t >= 0) by (nonlinear_arith)
        requires
            ed == lambda * t + 1,
            lambda == (p - 1) * (q - 1),
            t >= 0,
            p >= 2,
            q >= 2,
    ;
    // the power agrees with the unit modulo p and modulo q
    let big = pow(x as int, ed);
    lemma_power_cycle(p as nat, x, ((q - 1) * t) as nat);
    lemma_power_cycle(q as nat, x, ((p - 1) * t) as nat);
    if x == 0 {
        lemma0_pow(ed);
    } else {
        lemma_pow_at_least_base(x, ed);
    }
    let z = (big - x) as nat;
    lemma_mod_equivalence(big, x as int, p as int);
    lemma_mod_equivalence(big, x as int, q as int);
    lemma_two_primes_divide(p as nat, q as nat, z);
    lemma_mod_equivalence(big, x as int, n as int);
    lemma_small_mod(x, n as nat);
    // the two powers compose
    let plain = Residue::reduce(unit as int, n);
    lemma_pow_pow_nat(plain, e as nat, d as nat);
}

/// Decryption undoes encryption of a whole message of units below
/// `p * q`.
pub proof fn lemma_decrypt_inverts_encrypt(
    p: u128,
    q: u128,
    e: u128,
    message: Seq<u128>,
    ciphertext: Seq<Residue>,
)
    requires
        prime(p as nat),
        prime(q as nat),
        p != q,
        p * q <= u128::MAX,
        Residue::reduce(e as int, exponent_modulus(p, q) as u128).is_unit(),
        ciphertext.len() == message.len(),
        forall|i: int| 0 <= i < message.len() ==> message[i] < p * q,
        forall|i: int|
            0 <= i < message.len() ==> #[trigger] ciphertext[i] == Residue::reduce(
                message[i] as int,
                (p * q) as u128,
            ).spec_pow(e as int),
    ensures
        forall|i: int|
            0 <= i < message.len() ==> (#[trigger] ciphertext[i]).spec_pow(
                decryption_exponent(p, q, e) as int,
            ).value == message[i],
{
    assert forall|i: int| 0 <= i < message.len() implies (#[trigger] ciphertext[i]).spec_pow(
        decryption_exponent(p, q, e) as int,
    ).value == message[i] by {
        lemma_decrypt_inverts_encrypt_unit(p, q, e, message[i]);
    }
}

} // verus!
