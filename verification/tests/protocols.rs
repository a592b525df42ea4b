use rand::Rng;
use residue_crypto::diffie_hellman;
use residue_crypto::elgamal;
use residue_crypto::modular::Residue;
use residue_crypto::rsa;

#[test]
fn test_diffie_hellman() {
    for p in [997, 2677, 454711, 952252135981] {
        let base = diffie_hellman::choose_base(p).expect("a prime modulus has a primitive root");

        let (alice_secret, alice_shared) =
            diffie_hellman::generate_secret_and_shared_value(&base);
        let (bob_secret, bob_shared) =
            diffie_hellman::generate_secret_and_shared_value(&base);

        assert_eq!(
            diffie_hellman::compute_shared_secret(alice_secret, &bob_shared),
            diffie_hellman::compute_shared_secret(bob_secret, &alice_shared));
    }
}

#[test]
fn test_elgamal() {
    for p in [997, 2677, 454711, 952252135981] {
        let mut rng = rand::thread_rng();

        let base = elgamal::choose_base(p).expect("a prime modulus has a primitive root");
        let (private_key, public_key) = elgamal::generate_key_pair(&base);

        let message_length: usize = rng.gen_range(1..100);
        let mut message: Vec<u128> = vec![];
        for _ in 0..message_length {
            message.push(rng.gen_range(1..base.modulus));
        }
        let ciphertext = elgamal::encrypt(&base, &message, &public_key);
        let decrypted_message = elgamal::decrypt(&ciphertext, private_key);

        assert_eq!(message, decrypted_message);
    }
}

#[test]
fn test_rsa() {
    let prime_pairs = [
        (997, 757),
        (2677, 3217),
        (454711, 255361),
        (8552137547, 75522871)
    ];
    for (p, q) in prime_pairs {
        let mut rng = rand::thread_rng();

        let (n, e) = rsa::generate_public_key(p, q).expect("a coprime exponent exists");

        let message_length: usize = rng.gen_range(1..100);
        let mut message: Vec<u128> = vec![];
        for _ in 0..message_length {
            message.push(rng.gen_range(1..n));
        }
        let ciphertext = rsa::encrypt(&message, (n, e));
        let decrypted_message = rsa::decrypt(p, q, &ciphertext, e);

        assert_eq!(message, decrypted_message);
    }
}

#[test]
fn diffie_hellman_agrees_for_fixed_secrets() {
    let base = Residue { value: 7, modulus: 997 };
    for (a, b) in [(3i128, 5i128), (-3, 5), (3, -5), (-3, -5), (0, 9), (i128::MIN, i128::MAX)] {
        let alice_shared = diffie_hellman::compute_shared_secret(a, &base);
        let bob_shared = diffie_hellman::compute_shared_secret(b, &base);
        assert_eq!(
            diffie_hellman::compute_shared_secret(a, &bob_shared),
            diffie_hellman::compute_shared_secret(b, &alice_shared));
    }
    assert_eq!(
        Residue { value: 343, modulus: 997 },
        diffie_hellman::compute_shared_secret(3, &base));
}

#[test]
fn diffie_hellman_shared_value_is_base_to_the_secret() {
    let base = Residue { value: 7, modulus: 997 };
    for _ in 0..20 {
        let (secret, shared) = diffie_hellman::generate_secret_and_shared_value(&base);
        assert_eq!(base.pow(secret), shared);
        assert!(shared.value < 997);
    }
}

#[test]
fn elgamal_key_pair_lies_in_range() {
    let base = Residue { value: 7, modulus: 997 };
    let mut distinct = std::collections::BTreeSet::new();
    for _ in 0..200 {
        let (private_key, public_key) = elgamal::generate_key_pair(&base);
        assert!(1 <= private_key && private_key < 997);
        assert_eq!(base.pow(private_key), public_key);
        distinct.insert(private_key);
    }
    assert!(distinct.len() > 1);
}

#[test]
fn elgamal_with_fixed_ephemeral_exponent() {
    // modulus 23, base 5, private key 6, public key 5^6 = 8, ephemeral 3
    let base = Residue { value: 5, modulus: 23 };
    let public_key = base.pow(6);
    assert_eq!(Residue { value: 8, modulus: 23 }, public_key);
    let message: Vec<u128> = vec![0, 1, 10, 22];
    let ciphertext = elgamal::encrypt_with_ephemeral(&base, &message, &public_key, 3);
    // 5^3 = 10 and 8^3 = 6 modulo 23
    let c1 = Residue { value: 10, modulus: 23 };
    assert_eq!(
        vec![
            (c1.clone(), Residue { value: 0, modulus: 23 }),
            (c1.clone(), Residue { value: 6, modulus: 23 }),
            (c1.clone(), Residue { value: 14, modulus: 23 }),
            (c1.clone(), Residue { value: 17, modulus: 23 }),
        ],
        ciphertext);
    assert_eq!(message, elgamal::decrypt(&ciphertext, 6));
}

#[test]
fn elgamal_shares_one_ephemeral_exponent() {
    let base = Residue { value: 7, modulus: 997 };
    let (_, public_key) = elgamal::generate_key_pair(&base);
    let message: Vec<u128> = vec![1, 2, 3, 4, 5];
    let ciphertext = elgamal::encrypt(&base, &message, &public_key);
    assert_eq!(message.len(), ciphertext.len());
    for piece in ciphertext.iter() {
        assert_eq!(ciphertext[0].0, piece.0);
    }
}

#[test]
fn elgamal_empty_message() {
    let base = Residue { value: 7, modulus: 997 };
    let public_key = base.pow(11);
    let message: Vec<u128> = vec![];
    let ciphertext = elgamal::encrypt(&base, &message, &public_key);
    assert!(ciphertext.is_empty());
    assert!(elgamal::decrypt(&ciphertext, 11).is_empty());
}

#[test]
fn rsa_with_fixed_exponent() {
    // p = 61, q = 53: N = 3233, (p - 1)(q - 1) = 3120, e = 17, d = 2753
    let message: Vec<u128> = vec![65, 0, 1, 3232];
    let ciphertext = rsa::encrypt(&message, (3233, 17));
    assert_eq!(Residue { value: 2790, modulus: 3233 }, ciphertext[0]);
    assert_eq!(Residue { value: 0, modulus: 3233 }, ciphertext[1]);
    assert_eq!(Residue { value: 1, modulus: 3233 }, ciphertext[2]);
    assert_eq!(message, rsa::decrypt(61, 53, &ciphertext, 17));
}

#[test]
fn rsa_public_key_is_coprime_to_the_exponent_modulus() {
    for _ in 0..50 {
        let (n, e) = rsa::generate_public_key(61, 53).expect("a coprime exponent exists");
        assert_eq!(3233, n);
        assert!(1 <= e && e < 3120);
        assert_eq!(1, residue_crypto::integer::gcd(e, 3120));
    }
}

#[test]
fn elgamal_round_trip_for_every_unit_and_exponent() {
    let base = Residue { value: 5, modulus: 23 };
    let message: Vec<u128> = (0u128..23).collect();
    for private_key in [-7i128, -1, 0, 1, 6, 21, 22, 100] {
        let public_key = base.pow(private_key);
        for ephemeral in [-3i128, 0, 1, 2, 22, 57] {
            let ciphertext =
                elgamal::encrypt_with_ephemeral(&base, &message, &public_key, ephemeral);
            assert_eq!(message, elgamal::decrypt(&ciphertext, private_key));
        }
    }
}

#[test]
fn rsa_round_trip_for_every_unit_and_exponent() {
    // p = 5, q = 11: N = 55 and (p - 1)(q - 1) = 40
    let message: Vec<u128> = (0u128..55).collect();
    for e in 1u128..40 {
        if residue_crypto::integer::gcd(e, 40) == 1 {
            let ciphertext = rsa::encrypt(&message, (55, e));
            assert_eq!(message, rsa::decrypt(5, 11, &ciphertext, e));
        }
    }
}

#[test]
fn rsa_accepts_exponents_above_the_exponent_modulus() {
    // 43 = 3 (mod 40), and 3 * 27 = 81 = 1 (mod 40)
    let message: Vec<u128> = vec![2, 7, 54];
    let ciphertext = rsa::encrypt(&message, (55, 43));
    assert_eq!(message, rsa::decrypt(5, 11, &ciphertext, 43));
}

#[test]
fn rsa_smallest_exponent_modulus_gives_exponent_one() {
    assert_eq!(Some((6, 1)), rsa::generate_public_key(2, 3));
    assert_eq!(Some((6, 1)), rsa::generate_public_key(3, 2));
}

#[test]
fn choose_base_modulo_two_is_one() {
    assert_eq!(Some(Residue { value: 1, modulus: 2 }), diffie_hellman::choose_base(2));
    assert_eq!(Some(Residue { value: 1, modulus: 2 }), elgamal::choose_base(2));
}

#[test]
fn choose_base_gives_a_generator() {
    for p in [3u128, 5, 7, 97] {
        for base in [diffie_hellman::choose_base(p), elgamal::choose_base(p)] {
            let base = base.expect("a prime modulus has a primitive root");
            assert_eq!(p, base.modulus);
            assert!(1 <= base.value && base.value < p);
            let one = Residue::from_unsigned_integer(1, p);
            for k in 1..(p - 1) {
                assert_ne!(one, base.pow(k as i128));
            }
            assert_eq!(one, base.pow((p - 1) as i128));
        }
    }
}
