//! ElGamal encryption over the multiplicative group of a prime modulus.
//!
//! One ephemeral exponent is drawn per message and shared by all its units.

use vstd::prelude::*;
use vstd::arithmetic::div_mod::*;
use crate::integer::prime;
use crate::modular::{Residue, MAX_MODULUS};
use crate::random::random_in_range;
use crate::ring_laws::{
    lemma_one_times, lemma_pow_pow, lemma_power_of_unit_is_unit, lemma_times_associative,
    lemma_times_commutative,
};

verus! {

/// The pair that encrypts the plaintext unit `unit` under the ephemeral
/// exponent `k`: the base to the `k`, and the unit times the public key to
/// the `k`.
pub open spec fn encrypted_unit(base: Residue, unit: u128, public_key: Residue, k: int) -> (
    Residue,
    Residue,
) {
    (base.spec_pow(k), Residue::reduce(unit as int, base.modulus).spec_times(public_key.spec_pow(k)))
}

/// `out` encrypts `message` unit by unit under the one ephemeral exponent
/// `k`.
pub open spec fn encrypted_with(
    base: Residue,
    message: Seq<u128>,
    public_key: Residue,
    k: int,
    out: Seq<(Residue, Residue)>,
) -> bool {
    &&& out.len() == message.len()
    &&& forall|i: int|
        0 <= i < message.len() ==> #[trigger] out[i] == encrypted_unit(
            base,
            message[i],
            public_key,
            k,
        )
}

/// The plaintext unit that the private key recovers from one pair: the
/// second part times the inverse of the first part raised to the key.
pub open spec fn decrypted_unit(piece: (Residue, Residue), private_key: int) -> u128 {
    piece.0.spec_pow(private_key).spec_inv().spec_times(piece.1).value
}

/// What `decrypt` needs of one pair of a ciphertext: both parts are valid
/// residues of one ring whose products fit, and the first part raised to
/// the key can be inverted.
pub open spec fn decryptable(piece: (Residue, Residue), private_key: int) -> bool {
    &&& piece.0.valid()
    &&& piece.1.valid()
    &&& piece.0.modulus == piece.1.modulus
    &&& piece.0.modulus <= MAX_MODULUS
    &&& private_key < 0 ==> piece.0.is_unit()
    &&& piece.0.spec_pow(private_key).is_unit()
}

/// Picks the public base: a primitive root of the prime modulus, or `None`
/// if the search for one gave up. Modulo 2 the base is always 1.
pub fn choose_base(modulus: u128) -> (r: Option<Residue>)
    requires
        prime(modulus as nat),
        modulus <= MAX_MODULUS,
    ensures
        Residue::primitive_root_outcome(modulus, r),
        modulus == 2 ==> r == Some(Residue { value: 1, modulus: 2 }),
{
    Residue::primitive_root(modulus)
}

/// Draws a private key from `[1, modulus)` and computes the public key: the
/// base raised to the private key.
pub fn generate_key_pair(base: &Residue) -> (r: (i128, Residue))
    requires
        base.valid(),
        2 <= base.modulus <= MAX_MODULUS,
    ensures
        1 <= r.0 < base.modulus,
        r.1 == base.spec_pow(r.0 as int),
        r.1.valid(),
{
    let private_key: i128 = random_in_range(1, base.modulus) as i128;
    let public_key = base.pow(private_key);
    (private_key, public_key)
}

/// Encrypts a message under a given ephemeral exponent.
pub fn encrypt_with_ephemeral(
    base: &Residue,
    message: &Vec<u128>,
    public_key: &Residue,
    ephemeral: i128,
) -> (out: Vec<(Residue, Residue)>)
    requires
        base.valid(),
        public_key.valid(),
        base.modulus == public_key.modulus,
        base.modulus <= MAX_MODULUS,
        forall|i: int| 0 <= i < message.len() ==> message[i] < base.modulus,
        ephemeral < 0 ==> base.is_unit() && public_key.is_unit(),
    ensures
        encrypted_with(*base, message@, *public_key, ephemeral as int, out@),
{
    let mut ret: Vec<(Residue, Residue)> = Vec::new();
    let mut i: usize = 0;
    while i < message.len()
        invariant
            i <= message.len(),
            base.valid(),
            public_key.valid(),
            base.modulus == public_key.modulus,
            base.modulus <= MAX_MODULUS,
            forall|j: int| 0 <= j < message.len() ==> message[j] < base.modulus,
            ephemeral < 0 ==> base.is_unit() && public_key.is_unit(),
            ret.len() == i,
            forall|j: int|
                0 <= j < i ==> #[trigger] ret@[j] == encrypted_unit(
                    *base,
                    message@[j],
                    *public_key,
                    ephemeral as int,
                ),
        decreases message.len() - i,
    {
        let piece: u128 = message[i];
        let c1 = base.pow(ephemeral);
        let mask = public_key.pow(ephemeral);
        let unit = Residue::from_unsigned_integer(piece, base.modulus);
        proof {
            assert(unit.value * mask.value <= u128::MAX) by (nonlinear_arith)
                requires
                    unit.value < base.modulus,
                    mask.value < base.modulus,
                    base.modulus <= 0x1_0000_0000_0000_0000,
            ;
        }
        let c2 = unit.times(&mask);
        ret.push((c1, c2));
        i += 1;
    }
    ret
}

/// Encrypts a message, each unit of which lies below the modulus, for the
/// holder of the private key behind `public_key`. The ephemeral exponent is
/// drawn from `[1, modulus)`.
pub fn encrypt(base: &Residue, message: &Vec<u128>, public_key: &Residue) -> (out: Vec<
    (Residue, Residue),
>)
    requires
        base.valid(),
        public_key.valid(),
        base.modulus == public_key.modulus,
        2 <= base.modulus <= MAX_MODULUS,
        forall|i: int| 0 <= i < message.len() ==> message[i] < base.modulus,
    ensures
        exists|k: int|
            1 <= k < base.modulus && #[trigger] encrypted_with(
                *base,
                message@,
                *public_key,
                k,
                out@,
            ),
{
    let random_element: i128 = random_in_range(1, base.modulus) as i128;
    let out = encrypt_with_ephemeral(base, message, public_key, random_element);
    assert(encrypted_with(*base, message@, *public_key, random_element as int, out@));
    out
}

/// Decrypts a ciphertext with the private key.
pub fn decrypt(ciphertext: &Vec<(Residue, Residue)>, private_key: i128) -> (out: Vec<u128>)
    requires
        forall|i: int|
            0 <= i < ciphertext.len() ==> decryptable(#[trigger] ciphertext[i], private_key as int),
    ensures
        out.len() == ciphertext.len(),
        forall|i: int|
            0 <= i < ciphertext.len() ==> #[trigger] out[i] == decrypted_unit(
                ciphertext[i],
                private_key as int,
            ),
{
    let mut ret: Vec<u128> = Vec::new();
    let mut i: usize = 0;
    while i < ciphertext.len()
        invariant
            i <= ciphertext.len(),
            forall|j: int|
                0 <= j < ciphertext.len() ==> decryptable(
                    #[trigger] ciphertext[j],
                    private_key as int,
                ),
            ret.len() == i,
            forall|j: int|
                0 <= j < i ==> #[trigger] ret@[j] == decrypted_unit(
                    ciphertext[j],
                    private_key as int,
                ),
        decreases ciphertext.len() - i,
    {
        let piece = &ciphertext[i];
        assert(decryptable(ciphertext[i as int], private_key as int));
        let shared = piece.0.pow(private_key);
        let unmask = shared.inv();
        proof {
            assert(unmask.value * piece.1.value <= u128::MAX) by (nonlinear_arith)
                requires
                    unmask.value < piece.0.modulus,
                    piece.1.value < piece.0.modulus,
                    piece.0.modulus <= 0x1_0000_0000_0000_0000,
            ;
        }
        let unit = unmask.times(&piece.1);
        ret.push(unit.value);
        i += 1;
    }
    ret
}

/// Decryption undoes encryption, unit by unit: a plaintext unit below the
/// modulus, encrypted under the public key `base^private_key` with any
/// ephemeral exponent `k`, decrypts to itself. The base has to be a unit,
/// as every primitive root is.
pub proof fn lemma_decrypt_inverts_encrypt_unit(
    base: Residue,
    unit: u128,
    private_key: int,
    k: int,
)
    requires
        base.valid(),
        base.is_unit(),
        base.modulus <= MAX_MODULUS,
        unit < base.modulus,
    ensures
        decryptable(encrypted_unit(base, unit, base.spec_pow(private_key), k), private_key),
        decrypted_unit(encrypted_unit(base, unit, base.spec_pow(private_key), k), private_key)
            == unit,
{
    let public_key = base.spec_pow(private_key);
    let piece = encrypted_unit(base, unit, public_key, k);
    let shared = base.spec_pow(k * private_key);
    let plain = Residue::reduce(unit as int, base.modulus);
    lemma_power_of_unit_is_unit(base, private_key);
    lemma_power_of_unit_is_unit(base, k);
    lemma_power_of_unit_is_unit(base, k * private_key);
    lemma_pow_pow(base, k, private_key);
    lemma_pow_pow(base, private_key, k);
    assert(k * private_key == private_key * k) by (nonlinear_arith);
    assert(piece.0.spec_pow(private_key) == shared);
    assert(public_key.spec_pow(k) == shared);
    lemma_small_mod(unit as nat, base.modulus as nat);
    lemma_mod_bound(plain.value * shared.value, base.modulus as int);
    shared.lemma_inverse();
    let unmask = shared.spec_inv();
    lemma_times_commutative(plain, shared);
    lemma_times_associative(unmask, shared, plain);
    lemma_one_times(plain);
}

/// Decryption undoes encryption of a whole message: every pair of a
/// ciphertext made with the public key `base^private_key` meets what
/// `decrypt` asks for, and decrypts to the plaintext unit it came from.
pub proof fn lemma_decrypt_inverts_encrypt(
    base: Residue,
    message: Seq<u128>,
    private_key: int,
    k: int,
    ciphertext: Seq<(Residue, Residue)>,
)
    requires
        base.valid(),
        base.is_unit(),
        base.modulus <= MAX_MODULUS,
        forall|i: int| 0 <= i < message.len() ==> message[i] < base.modulus,
        encrypted_with(base, message, base.spec_pow(private_key), k, ciphertext),
    ensures
        ciphertext.len() == message.len(),
        forall|i: int|
            0 <= i < message.len() ==> decryptable(#[trigger] ciphertext[i], private_key)
                && decrypted_unit(ciphertext[i], private_key) == message[i],
{
    assert forall|i: int| 0 <= i < message.len() implies decryptable(
        #[trigger] ciphertext[i],
        private_key,
    ) && decrypted_unit(ciphertext[i], private_key) == message[i] by {
        lemma_decrypt_inverts_encrypt_unit(base, message[i], private_key, k);
    }
}

} // verus!
