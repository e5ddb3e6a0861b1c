use ciphers::util::positive_mod;

#[test]
fn positive_mod_tests() {
    assert_eq!(positive_mod(-3, 5), 2)
}

#[test]
fn positive_mod_values() {
    assert_eq!(positive_mod(7, 5), 2);
    assert_eq!(positive_mod(0, 5), 0);
    assert_eq!(positive_mod(-1, 5), 4);
    assert_eq!(positive_mod(-12, 5), 3);
    // a negative multiple of the modulus gives the modulus itself
    assert_eq!(positive_mod(-5, 5), 5);
    assert_eq!(positive_mod(-10, 5), 5);
}

#[test]
fn positive_mod_is_congruent() {
    for a in -50isize..50 {
        for b in 1isize..12 {
            let r = positive_mod(a, b);
            assert!(0 <= r && r <= b);
            assert_eq!((r - a).rem_euclid(b), 0);
        }
    }
}
