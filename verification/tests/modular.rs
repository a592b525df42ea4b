use residue_crypto::integer::gcd;
use residue_crypto::modular::{Residue, MAX_MODULUS};

#[test]
fn test_from_unsigned_integer() {
    assert_eq!(
        Residue { value: 0, modulus: 5 },
        Residue::from_unsigned_integer(0, 5));
    assert_eq!(
        Residue { value: 2, modulus: 5 },
        Residue::from_unsigned_integer(2, 5));
    assert_eq!(
        Residue { value: 2, modulus: 5 },
        Residue::from_unsigned_integer(7, 5));
    assert_eq!(
        Residue { value: 3, modulus: 5 },
        Residue::from_unsigned_integer(10000000003, 5));
}

#[test]
fn test_from_signed_integer() {
    assert_eq!(
        Residue { value: 0, modulus: 5 },
        Residue::from_signed_integer(0, 5));
    assert_eq!(
        Residue { value: 2, modulus: 5 },
        Residue::from_signed_integer(2, 5));
    assert_eq!(
        Residue { value: 2, modulus: 5 },
        Residue::from_signed_integer(7, 5));
    assert_eq!(
        Residue { value: 3, modulus: 5 },
        Residue::from_signed_integer(-2, 5));
    assert_eq!(
        Residue { value: 0, modulus: 5 },
        Residue::from_signed_integer(-5, 5));
    assert_eq!(
        Residue { value: 4, modulus: 5 },
        Residue::from_signed_integer(99999999999, 5));
}

#[test]
fn test_plus_basic() {
    let test_cases: Vec<(u128, u128, u128, u128)> = vec![
        (7, 0, 0, 0),
        (7, 2, 3, 5),
        (7, 3, 2, 5),
        (7, 4, 5, 2),
        (7, 5, 4, 2),
        (6, 2, 4, 0),
        (6, 3, 2, 5),
    ];

    for &(modulus, x_val, y_val, z_val) in test_cases.iter() {
        assert_eq!(
            Residue::from_unsigned_integer(z_val, modulus),
            Residue::from_unsigned_integer(x_val, modulus)
                .plus(&Residue::from_unsigned_integer(y_val, modulus)));
    }
}

#[test]
fn test_times() {
    let test_cases: Vec<(u128, u128, u128, u128)> = vec![
        (7, 0, 0, 0),
        (7, 2, 3, 6),
        (7, 3, 2, 6),
        (7, 4, 5, 6),
        (7, 5, 4, 6),
        (6, 2, 4, 2),
        (6, 2, 3, 0),
        (6, 3, 2, 0),
        (6, 1, 2, 2),
    ];

    for &(modulus, x_val, y_val, z_val) in test_cases.iter() {
        assert_eq!(
            Residue::from_unsigned_integer(z_val, modulus),
            Residue::from_unsigned_integer(x_val, modulus)
                .times(&Residue::from_unsigned_integer(y_val, modulus)));
    }
}

#[test]
fn test_scalar_times() {
    let test_cases: Vec<(u128, i128, u128, u128)> = vec![
        (7, 0, 0, 0),
        (7, 2, 0, 0),
        (7, -2, 0, 0),
        (7, 0, 5, 0),
        (7, 2, 4, 1),
        (7, 2, 3, 6),
        (7, -2, 3, 1),
        (6, 3, 2, 0),
        (6, -3, 2, 0),
        (6, 2, 2, 4),
    ];

    for &(modulus, c, x_val, z_val) in test_cases.iter() {
        assert_eq!(
            Residue::from_unsigned_integer(z_val, modulus),
            Residue::from_unsigned_integer(x_val, modulus)
                .scalar_times(c));
    }
}

#[test]
fn test_neg() {
    let test_cases: Vec<(u128, u128, u128)> = vec![
        (7, 0, 0),
        (7, 1, 6),
        (7, 2, 5),
        (6, 0, 0),
        (6, 1, 5),
        (6, 4, 2),
    ];

    for &(modulus, x_val, z_val) in test_cases.iter() {
        assert_eq!(
            Residue::from_unsigned_integer(z_val, modulus),
            Residue::from_unsigned_integer(x_val, modulus).neg());
    }
}

#[test]
fn test_inv() {
    let test_cases: Vec<(u128, u128, u128)> = vec![
        (7, 1, 1),
        (7, 2, 4),
        (7, 4, 2),
        (7, 3, 5),
        (6, 1, 1),
        (6, 5, 5),
    ];

    for &(modulus, x_val, z_val) in test_cases.iter() {
        assert_eq!(
            Residue::from_unsigned_integer(z_val, modulus),
            Residue::from_unsigned_integer(x_val, modulus).inv());
    }
}

#[test]
fn test_pow() {
    let test_cases: Vec<(u128, u128, i128, u128)> = vec![
        (7, 1, 1, 1),
        (7, 2, 1, 2),
        (7, 2, 0, 1),
        (7, 2, -1, 4),
        (7, 5, 0, 1),
        (7, 5, 1, 5),
        (7, 5, 2, 4),
        (7, 5, 3, 6),
        (7, 5, 4, 2),
        (7, 5, 5, 3),
        (7, 5, 6, 1),
        (7, 5, 200, 4),
        (10, 3, 1, 3),
        (10, 3, 2, 9),
        (10, 3, 3, 7),
        (10, 3, 4, 1),
        (10, 3, 5, 3),
        (10, 3, 255, 7),
    ];

    for &(modulus, x_val, e, z_val) in test_cases.iter() {
        assert_eq!(
            Residue::from_unsigned_integer(z_val, modulus),
            Residue::from_unsigned_integer(x_val, modulus).pow(e));
    }
}

#[test]
fn test_primitive_root() {
    for &n in [2, 3, 5, 97].iter() {
        let one = Residue::from_unsigned_integer(1, n);
        let root = Residue::primitive_root(n).expect("a prime modulus has a primitive root");

        let mut root_power = one.clone();
        for _e in 1..(n - 1) {
            root_power = root_power.times(&root);
            assert_ne!(root_power, one);
        }
    }
}

#[test]
fn is_valid_tells_reduced_values() {
    assert!(Residue { value: 4, modulus: 5 }.is_valid());
    assert!(!Residue { value: 5, modulus: 5 }.is_valid());
    assert!(!Residue { value: 0, modulus: 0 }.is_valid());
}

#[test]
fn construction_reduces_below_the_modulus() {
    for modulus in [1u128, 2, 3, 10, 1 << 64, u128::MAX] {
        for n in [0u128, 1, 2, 9, 10, 11, 1 << 64, u128::MAX - 1, u128::MAX] {
            let r = Residue::from_unsigned_integer(n, modulus);
            assert!(r.value < modulus);
            assert_eq!(n % modulus, r.value);
            assert_eq!(modulus, r.modulus);
        }
    }
}

#[test]
fn signed_construction_is_euclidean() {
    assert_eq!(Residue { value: 1, modulus: 3 }, Residue::from_signed_integer(i128::MIN, 3));
    assert_eq!(Residue { value: 1, modulus: 3 }, Residue::from_signed_integer(i128::MAX, 3));
    assert_eq!(Residue { value: 0, modulus: 1 }, Residue::from_signed_integer(-7, 1));
    assert_eq!(
        Residue { value: u128::MAX - 1, modulus: u128::MAX },
        Residue::from_signed_integer(-1, u128::MAX));
    assert_eq!(
        Residue { value: 0, modulus: 1 << 127 },
        Residue::from_signed_integer(i128::MIN, 1 << 127));
    for n in -50i128..50 {
        for modulus in 1u128..12 {
            assert_eq!(
                n.rem_euclid(modulus as i128) as u128,
                Residue::from_signed_integer(n, modulus).value);
        }
    }
}

#[test]
fn plus_does_not_overflow_near_the_width() {
    let m = u128::MAX;
    let a = Residue { value: m - 1, modulus: m };
    let b = Residue { value: m - 2, modulus: m };
    assert_eq!(Residue { value: m - 3, modulus: m }, a.plus(&b));
}

#[test]
fn ring_laws_hold_modulo_twelve() {
    let m = 12u128;
    for x in 0..m {
        for y in 0..m {
            let a = Residue::from_unsigned_integer(x, m);
            let b = Residue::from_unsigned_integer(y, m);
            assert_eq!(a.plus(&b), b.plus(&a));
            assert_eq!(a.times(&b), b.times(&a));
            for z in 0..m {
                let c = Residue::from_unsigned_integer(z, m);
                assert_eq!(a.plus(&b.plus(&c)), a.plus(&b).plus(&c));
                assert_eq!(a.times(&b.times(&c)), a.times(&b).times(&c));
            }
        }
    }
}

#[test]
fn units_times_their_inverse_give_one() {
    for m in 1u128..40 {
        let one = Residue::from_unsigned_integer(1, m);
        for x in 0..m {
            if gcd(x, m) == 1 {
                let a = Residue::from_unsigned_integer(x, m);
                assert_eq!(one, a.times(&a.inv()));
                assert_eq!(a.inv(), a.pow(-1));
            }
        }
    }
}

#[test]
fn neg_is_scalar_times_minus_one() {
    for m in 1u128..20 {
        for x in 0..m {
            let a = Residue::from_unsigned_integer(x, m);
            assert_eq!(a.scalar_times(-1), a.neg());
            assert_eq!(Residue::from_unsigned_integer(0, m), a.plus(&a.neg()));
        }
    }
}

#[test]
fn scalar_times_reduces_large_scalars() {
    let a = Residue { value: 3, modulus: 7 };
    assert_eq!(Residue { value: 3 * (i128::MAX % 7) as u128 % 7, modulus: 7 }, a.scalar_times(i128::MAX));
    assert_eq!(a.scalar_times(i128::MIN).plus(&a.scalar_times(i128::MAX)), a.scalar_times(-1));
}

#[test]
fn pow_laws_hold_modulo_small_moduli() {
    for m in [7u128, 10, 13] {
        let one = Residue::from_unsigned_integer(1, m);
        for x in 0..m {
            let a = Residue::from_unsigned_integer(x, m);
            assert_eq!(one, a.pow(0));
            let unit = gcd(x, m) == 1;
            for e in -6i128..7 {
                for f in -6i128..7 {
                    if unit || (e >= 0 && f >= 0) {
                        assert_eq!(a.pow(e * f), a.pow(e).pow(f));
                    }
                }
            }
        }
    }
}

#[test]
fn pow_accepts_the_extreme_exponents() {
    let a = Residue { value: 3, modulus: 7 };
    // the order of 3 modulo 7 is 6; 2^127 = 2 (mod 6)
    assert_eq!(Residue { value: 3, modulus: 7 }, a.pow(i128::MAX));
    assert_eq!(a.inv().pow(2), a.pow(i128::MIN));
}

#[test]
fn pow_at_the_largest_modulus() {
    let m = MAX_MODULUS;
    let a = Residue { value: m - 1, modulus: m };
    assert_eq!(Residue { value: 1, modulus: m }, a.pow(2));
    assert_eq!(Residue { value: m - 1, modulus: m }, a.pow(3));
    assert_eq!(Residue { value: m - 1, modulus: m }, a.pow(-1));
}

#[test]
fn trivial_ring_has_one_element() {
    let zero = Residue::from_unsigned_integer(5, 1);
    assert_eq!(Residue { value: 0, modulus: 1 }, zero);
    assert_eq!(zero, zero.pow(0));
    assert_eq!(zero, zero.inv());
    assert_eq!(zero, zero.times(&zero));
}

#[test]
fn is_generator_applies_the_order_test() {
    // the group modulo 7 has order 6 = 2 * 3; its generators are 3 and 5
    let factors: Vec<(u128, u32)> = vec![(2, 1), (3, 1)];
    for x in 1u128..7 {
        let candidate = Residue { value: x, modulus: 7 };
        assert_eq!(x == 3 || x == 5, candidate.is_generator(6, &factors));
    }
}

#[test]
fn primitive_root_lies_in_range_and_generates() {
    for p in [2u128, 3, 7, 11, 997] {
        let root = Residue::primitive_root(p).expect("a prime modulus has a primitive root");
        assert_eq!(p, root.modulus);
        assert!(1 <= root.value && root.value < p);
        let mut seen = vec![false; p as usize];
        let mut power = Residue::from_unsigned_integer(1, p);
        for _ in 0..(p - 1) {
            power = power.times(&root);
            assert!(!seen[power.value as usize]);
            seen[power.value as usize] = true;
        }
    }
}

#[test]
fn nonzero_residues_of_a_prime_satisfy_fermat() {
    for p in [2u128, 3, 5, 7, 97, 997] {
        let one = Residue::from_unsigned_integer(1, p);
        for x in 1..p {
            let g = Residue { value: x, modulus: p };
            assert_eq!(one, g.pow((p - 1) as i128));
        }
    }
}

#[test]
fn order_test_agrees_with_full_order() {
    // 30 = 2 * 3 * 5 is the order of the group modulo 31
    let factors: Vec<(u128, u32)> = vec![(2, 1), (3, 1), (5, 1)];
    let one = Residue { value: 1, modulus: 31 };
    for x in 1u128..31 {
        let g = Residue { value: x, modulus: 31 };
        let mut full_order = true;
        for k in 1i128..30 {
            if g.pow(k) == one {
                full_order = false;
            }
        }
        assert_eq!(full_order, g.is_generator(30, &factors));
    }
}

#[test]
fn powers_add_and_units_stay_units() {
    for m in [9u128, 10, 11] {
        for x in 0..m {
            let a = Residue { value: x, modulus: m };
            for j in 0i128..6 {
                for k in 0i128..6 {
                    assert_eq!(a.pow(j + k), a.pow(j).times(&a.pow(k)));
                }
            }
            if gcd(x, m) == 1 {
                for e in -5i128..6 {
                    assert_eq!(1, gcd(a.pow(e).value, m));
                }
            }
        }
    }
}

#[test]
fn primitive_root_of_two_is_one() {
    assert_eq!(Some(Residue { value: 1, modulus: 2 }), Residue::primitive_root(2));
}
