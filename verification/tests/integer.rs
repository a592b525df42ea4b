use residue_crypto::integer::{
    euler_totient, gcd, gcd_with_coefficients, is_prime, isqrt, prime_factorize,
};

#[test]
fn test_is_prime() {
    assert_eq!(true, is_prime(2));
    assert_eq!(true, is_prime(3));
    assert_eq!(true, is_prime(17));

    assert_eq!(false, is_prime(0));
    assert_eq!(false, is_prime(1));
    assert_eq!(false, is_prime(57));
}

#[test]
fn test_gcd() {
    assert_eq!(2, gcd(2, 6));
    assert_eq!(2, gcd(6, 2));
    assert_eq!(1, gcd(3, 2));
    assert_eq!(3, gcd(24, 15));
    assert_eq!(3, gcd(15, 24));
    assert_eq!(7, gcd(7, 7));
    assert_eq!(9, gcd(9, 27));
}

#[test]
fn test_gcd_with_coefficients() {
    assert_eq!((17, -31, 13), gcd_with_coefficients(527, 1258));
    assert_eq!((12, -37, 8), gcd_with_coefficients(228, 1056));
    assert_eq!((7, 4517, -4430), gcd_with_coefficients(163961, 167181));
    assert_eq!((1, 59789, -970295), gcd_with_coefficients(3892394, 239847));
}

#[test]
fn test_isqrt() {
    assert_eq!(0, isqrt(0));
    assert_eq!(1, isqrt(1));
    assert_eq!(1, isqrt(2));
    assert_eq!(3, isqrt(9));
    assert_eq!(485725, isqrt(235928775625));
}

#[test]
fn test_prime_factorize() {
    assert_eq!(Vec::<(u128, u32)>::new(), prime_factorize(1));
    assert_eq!(vec![(2, 1)], prime_factorize(2));
    assert_eq!(vec![(2, 2)], prime_factorize(4));
    assert_eq!(vec![(2, 7)], prime_factorize(128));
    assert_eq!(vec![(2, 2), (3, 1)], prime_factorize(12));
    assert_eq!(vec![(7, 1), (13, 1)], prime_factorize(91));
    assert_eq!(vec![(97, 1)], prime_factorize(97));
}

#[test]
fn test_euler_totient() {
    assert_eq!(1, euler_totient(2));
    assert_eq!(2, euler_totient(3));
    assert_eq!(52, euler_totient(53));
    assert_eq!(96, euler_totient(97));

    assert_eq!(6, euler_totient(9));
    assert_eq!(18, euler_totient(27));
    assert_eq!(54, euler_totient(81));

    assert_eq!(4, euler_totient(12));
    assert_eq!(40, euler_totient(100));
}

#[test]
fn is_prime_matches_trial_division_below_500() {
    for n in 0u128..500 {
        let expected = n >= 2 && (2..n).all(|d| n % d != 0);
        assert_eq!(expected, is_prime(n), "n = {}", n);
    }
}

#[test]
fn is_prime_handles_squares_and_wheel_neighbours() {
    assert_eq!(false, is_prime(25));
    assert_eq!(false, is_prime(49));
    assert_eq!(false, is_prime(35));
    assert_eq!(false, is_prime(121));
    assert_eq!(true, is_prime(952252135981));
    assert_eq!(false, is_prime(997 * 757));
}

#[test]
fn gcd_with_zero() {
    assert_eq!(5, gcd(5, 0));
    assert_eq!(5, gcd(0, 5));
    assert_eq!(0, gcd(0, 0));
}

#[test]
fn gcd_with_coefficients_with_zero() {
    assert_eq!((5, 1, 0), gcd_with_coefficients(5, 0));
    assert_eq!((5, 0, 1), gcd_with_coefficients(0, 5));
    assert_eq!((0, 1, 0), gcd_with_coefficients(0, 0));
}

#[test]
fn gcd_with_coefficients_satisfies_bezout_identity() {
    let big = i128::MAX as u128;
    let pairs: Vec<(u128, u128)> = vec![
        (1, 1),
        (12, 18),
        (18, 12),
        (7, 7),
        (1, 1000),
        (big, big - 1),
        (big - 2, big),
        (big, 3),
        (1 << 100, (1 << 90) + 12345),
    ];
    for &(x, y) in pairs.iter() {
        let (g, u, v) = gcd_with_coefficients(x, y);
        assert_eq!(g, gcd(x, y));
        let left = (u.unsigned_abs() as u128).checked_mul(x);
        let right = (v.unsigned_abs() as u128).checked_mul(y);
        if let (Some(l), Some(r)) = (left, right) {
            if u >= 0 && v >= 0 {
                assert_eq!(g, l + r);
            } else if u >= 0 {
                assert_eq!(g, l - r);
            } else {
                assert_eq!(g, r - l);
            }
        }
    }
}

#[test]
fn isqrt_is_exact_near_squares() {
    for r in [1u128, 2, 3, 10, 65535, 65536, 4294967296, 18446744073709551615] {
        assert_eq!(r, isqrt(r * r));
        assert_eq!(r - 1, isqrt(r * r - 1));
        assert_eq!(r, isqrt(r * r + 1));
    }
    assert_eq!(18446744073709551615, isqrt(u128::MAX));
    assert_eq!(13043817825332782212, isqrt(1 << 127));
}

#[test]
fn prime_factorize_reconstitutes_its_input() {
    for n in 1u128..2000 {
        let factors = prime_factorize(n);
        let mut product: u128 = 1;
        let mut previous: u128 = 1;
        for &(p, e) in factors.iter() {
            assert!(is_prime(p));
            assert!(e >= 1);
            assert!(p > previous);
            previous = p;
            product *= p.pow(e);
        }
        assert_eq!(n, product);
    }
}

#[test]
fn prime_factorize_large_values() {
    assert_eq!(vec![(757, 1), (997, 1)], prime_factorize(997 * 757));
    assert_eq!(vec![(2, 2), (3, 2), (5, 2), (7, 2)], prime_factorize(44100));
}

#[test]
fn euler_totient_of_primes_is_predecessor() {
    for p in [2u128, 3, 5, 7, 11, 997, 2677, 454711] {
        assert_eq!(p - 1, euler_totient(p));
    }
}

#[test]
fn euler_totient_is_multiplicative_on_coprime_arguments() {
    for m in 1u128..60 {
        for n in 1u128..60 {
            if gcd(m, n) == 1 {
                assert_eq!(euler_totient(m) * euler_totient(n), euler_totient(m * n));
            }
        }
    }
}

#[test]
fn euler_totient_counts_coprime_integers() {
    for n in 1u128..200 {
        let count = (1..=n).filter(|&k| gcd(k, n) == 1).count() as u128;
        assert_eq!(count, euler_totient(n));
    }
    assert_eq!(1, euler_totient(1));
}
