use ciphers::ciphers::affine_recursive_cipher::{can_decrypt, can_encrypt, decrypt, encrypt, Key, PartialKey};
use ciphers::ciphers::{CharacterSet, CipherError};

fn chars(s: &str) -> Vec<char> {
    s.chars().collect()
}

fn latin() -> CharacterSet {
    CharacterSet::new(chars("abcdefghijklmnopqrstuvwxyz")).unwrap()
}

fn start_key() -> Key {
    Key::from((PartialKey::from((3, 1)), PartialKey::from((5, 2))))
}

#[test]
fn keys_from_parts() {
    let key = start_key();
    assert_eq!(
        key,
        Key { multiplicative_first: 3, multiplicative_second: 5, additive_first: 1, additive_second: 2 }
    );
    assert_eq!(PartialKey::new(3, 1, 26), Some(PartialKey { multiplicative: 3, additive: 1 }));
    assert_eq!(PartialKey::new(4, 1, 26), None);
}

#[test]
fn key_next_multiplies_and_adds() {
    let mut key = start_key();
    key.next(26);
    assert_eq!(
        key,
        Key { multiplicative_first: 5, multiplicative_second: 15, additive_first: 2, additive_second: 3 }
    );
    key.next(26);
    assert_eq!(
        key,
        Key { multiplicative_first: 15, multiplicative_second: 23, additive_first: 3, additive_second: 5 }
    );
    let mut negative = Key { multiplicative_first: -3, multiplicative_second: 5, additive_first: -7, additive_second: 2 };
    negative.next(4);
    // `%` keeps the sign of the left operand
    assert_eq!(
        negative,
        Key { multiplicative_first: 5, multiplicative_second: -3, additive_first: 2, additive_second: -1 }
    );
}

#[test]
fn recursive_encrypt_advances_key() {
    let cs = latin();
    let mut key = start_key();
    assert_eq!(encrypt(&cs, &mut key, &chars("ab")), Ok(chars("bh")));
    assert_eq!(
        key,
        Key { multiplicative_first: 15, multiplicative_second: 23, additive_first: 3, additive_second: 5 }
    );
}

#[test]
fn recursive_decrypt_undoes_encrypt() {
    let cs = latin();
    let mut enc_key = start_key();
    let mut dec_key = start_key();
    let text = chars("attackatdawn");
    let enc = encrypt(&cs, &mut enc_key, &text).unwrap();
    assert!(can_decrypt(&cs, &start_key(), &enc));
    let dec = decrypt(&cs, &mut dec_key, &enc).unwrap();
    assert_eq!(dec, text);
    assert_eq!(enc_key, dec_key);
}

#[test]
fn recursive_rejects_unknown_characters_and_keeps_key() {
    let cs = latin();
    let mut key = start_key();
    assert_eq!(
        encrypt(&cs, &mut key, &chars("a1")),
        Err(CipherError::CharactersNotInAlphabet(chars("1")))
    );
    assert_eq!(key, start_key());
}

#[test]
fn recursive_definedness() {
    let cs = latin();
    assert!(can_encrypt(&cs, &start_key(), &chars("hello")));
    // (0 - 26) * 1 is a negative multiple of 26, which lands past the alphabet
    let shifted = Key { multiplicative_first: 1, multiplicative_second: 1, additive_first: 26, additive_second: 0 };
    assert!(!can_decrypt(&cs, &shifted, &chars("a")));
    // 2 has no inverse modulo 26
    let even = Key { multiplicative_first: 2, multiplicative_second: 3, additive_first: 0, additive_second: 0 };
    assert!(!can_decrypt(&cs, &even, &chars("a")));
    assert!(can_encrypt(&cs, &even, &chars("a")));
    let huge = Key { multiplicative_first: isize::MAX, multiplicative_second: 2, additive_first: 0, additive_second: 0 };
    assert!(!can_encrypt(&cs, &huge, &chars("a")));
}
