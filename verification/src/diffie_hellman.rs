//! Diffie-Hellman key exchange in the multiplicative group of a prime
//! modulus.

use vstd::prelude::*;
use crate::integer::prime;
use crate::modular::{Residue, MAX_MODULUS};
use crate::random::random_signed;
use crate::ring_laws::{lemma_pow_pow, lemma_power_of_unit_is_unit};

verus! {

/// Picks the common base of an exchange: a primitive root of the prime
/// modulus, or `None` if the search for one gave up. Modulo 2 the base is
/// always 1.
pub fn choose_base(modulus: u128) -> (r: Option<Residue>)
    requires
        prime(modulus as nat),
        modulus <= MAX_MODULUS,
    ensures
        Residue::primitive_root_outcome(modulus, r),
        modulus == 2 ==> r == Some(Residue { value: 1, modulus: 2 }),
{
    Residue::primitive_root(modulus)
}

/// Draws a private secret, any `i128`, and computes the value to share:
/// the base raised to the secret.
pub fn generate_secret_and_shared_value(base: &Residue) -> (r: (i128, Residue))
    requires
        base.valid(),
        base.is_unit(),
        base.modulus <= MAX_MODULUS,
    ensures
        r.1 == base.spec_pow(r.0 as int),
        r.1.valid(),
        r.1.is_unit(),
        r.1.modulus == base.modulus,
{
    let private_secret: i128 = random_signed();
    let shared_value = compute_shared_secret(private_secret, base);
    proof {
        lemma_power_of_unit_is_unit(*base, private_secret as int);
    }
    (private_secret, shared_value)
}

/// The secret that both parties arrive at: the other party's shared value
/// raised to one's own private secret.
pub fn compute_shared_secret(private_secret: i128, other_shared_value: &Residue) -> (r: Residue)
    requires
        other_shared_value.valid(),
        other_shared_value.modulus <= MAX_MODULUS,
        private_secret < 0 ==> other_shared_value.is_unit(),
    ensures
        r == other_shared_value.spec_pow(private_secret as int),
        r.valid(),
{
    other_shared_value.pow(private_secret)
}

/// Both parties arrive at the same secret, whichever private secrets they
/// drew: raising the other's shared value to one's own secret gives the
/// base raised to the product of the two secrets.
pub proof fn lemma_shared_secrets_agree(base: Residue, alice_secret: int, bob_secret: int)
    requires
        base.valid(),
        alice_secret < 0 || bob_secret < 0 ==> base.is_unit(),
    ensures
        base.spec_pow(bob_secret).spec_pow(alice_secret) == base.spec_pow(alice_secret).spec_pow(
            bob_secret,
        ),
        base.spec_pow(bob_secret).spec_pow(alice_secret) == base.spec_pow(
            alice_secret * bob_secret,
        ),
{
    lemma_pow_pow(base, bob_secret, alice_secret);
    lemma_pow_pow(base, alice_secret, bob_secret);
    assert(alice_secret * bob_secret == bob_secret * alice_secret) by (nonlinear_arith);
}

} // verus!
