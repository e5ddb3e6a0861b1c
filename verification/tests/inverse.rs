use ciphers::util::inverse::{extended_gcd, extended_gcd_fits, mod_inverse, mod_inverse_defined};

fn verify_inverse(initial: isize, inverse: Option<isize>, modulus: isize) -> bool {
    match inverse {
        Some(inverse) => {
            let v = (initial * inverse) % modulus;
            v == 1 || v == -modulus + 1
        }
        None => extended_gcd(initial, modulus).0 != 1,
    }
}

fn test_one(value: isize, modulus: isize) {
    let inverse = mod_inverse(value, modulus);
    assert!(verify_inverse(value, inverse, modulus));
}

#[test]
fn test_inverse() {
    test_one(2, 5);
    test_one(3, 5);
    test_one(6, 5);
    test_one(1, 5);
    test_one(0, 5);
    test_one(-5, 5);
    test_one(-2, 5);
}

#[test]
fn test_batch_non_prime() {
    let modulus: isize = 24;

    for x in -100isize..100 {
        test_one(x, modulus);
    }
}

#[test]
fn test_batch_prime() {
    let prime: isize = 751;

    for x in -5000isize..5000 {
        test_one(x, prime);
    }
}

#[test]
fn extended_gcd_gives_bezout_coefficients() {
    assert_eq!(extended_gcd(240, 46), (2, -9, 47));
    assert_eq!(240 * -9 + 46 * 47, 2);
    assert_eq!(extended_gcd(2, 5), (1, -2, 1));
    assert_eq!(extended_gcd(7, 0), (7, 1, 0));
    assert_eq!(extended_gcd(0, 7), (7, 0, 1));
}

#[test]
fn extended_gcd_sign_follows_truncating_division() {
    // -1 and 5 are coprime, but the last nonzero remainder is -1.
    assert_eq!(extended_gcd(-1, 5), (-1, 1, 0));
    assert_eq!(extended_gcd(-3, 6).0, -3);
}

#[test]
fn mod_inverse_values() {
    assert_eq!(mod_inverse(3, 7), Some(5));
    assert_eq!(mod_inverse(6, 5), Some(1));
    assert_eq!(mod_inverse(5, 26), Some(21));
    assert_eq!(mod_inverse(-2, 5), Some(2));
    assert_eq!(mod_inverse(4, 8), None);
    assert_eq!(mod_inverse(0, 5), None);
    // the computed gcd of -1 and 5 is -1, so no inverse is reported
    assert_eq!(mod_inverse(-1, 5), None);
    assert_eq!(mod_inverse(7, 1), Some(0));
}

#[test]
fn mod_inverse_inverts() {
    for m in 2isize..60 {
        for n in 0isize..m {
            if let Some(v) = mod_inverse(n, m) {
                assert!(0 <= v && v < m);
                assert_eq!((n * v) % m, 1);
            }
        }
    }
}

#[test]
fn overflow_deciders() {
    assert!(extended_gcd_fits(3, 5));
    assert!(extended_gcd_fits(isize::MAX, isize::MAX - 1));
    assert!(!extended_gcd_fits(isize::MIN, -1));
    assert!(extended_gcd_fits(isize::MIN, 3));
    assert!(mod_inverse_defined(2, 5));
    // gcd 1 with a zero modulus would divide by zero
    assert!(!mod_inverse_defined(1, 0));
    assert!(mod_inverse_defined(2, 0));
}

#[test]
fn gcd_is_greatest_common_divisor() {
    let (g, x, y) = extended_gcd(12, 18);
    assert_eq!(g, 6);
    assert_eq!(12 * x + 18 * y, 6);
    for c in 1isize..=12 {
        if 12 % c == 0 && 18 % c == 0 {
            assert_eq!(g % c, 0);
        }
    }
}
