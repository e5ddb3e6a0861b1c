use ciphers::ciphers::affine_cipher::{can_decrypt, can_encrypt, decrypt, encrypt, Key};
use ciphers::ciphers::{CharacterSet, CipherError};

fn chars(s: &str) -> Vec<char> {
    s.chars().collect()
}

fn latin() -> CharacterSet {
    CharacterSet::new(chars("abcdefghijklmnopqrstuvwxyz")).unwrap()
}

#[test]
fn key_needs_an_invertible_multiplier() {
    let key = Key::new(5, 8, 26).unwrap();
    assert_eq!(key.multiplicative, 5);
    assert_eq!(key.inverse_multiplicative, 21);
    assert_eq!(key.additive, 8);
    assert!(Key::new(2, 8, 26).is_none());
    assert!(Key::new(13, 8, 26).is_none());
}

#[test]
fn affine_encrypt_values() {
    let cs = latin();
    let key = Key::new(5, 8, 26).unwrap();
    assert_eq!(encrypt(&cs, &key, &chars("hello")), Ok(chars("rclla")));
    assert_eq!(encrypt(&cs, &key, &chars("")), Ok(chars("")));
}

#[test]
fn affine_decrypt_uses_inverse_times_index_plus_shift() {
    let cs = latin();
    let key = Key::new(5, 8, 26).unwrap();
    // position of 'r' is 17: (21 * 17 + 8) % 26 == 1
    assert_eq!(decrypt(&cs, &key, &chars("r")), Ok(chars("b")));
    // deciphering shifts every position by 8 * (21 + 1) == 176 == 20 (mod 26)
    let enc = encrypt(&cs, &key, &chars("hello")).unwrap();
    let dec = decrypt(&cs, &key, &enc).unwrap();
    assert_eq!(dec, chars("byffi"));
}

#[test]
fn affine_roundtrip_when_shift_cancels() {
    let cs = latin();
    // additive * (inverse + 1) == 13 * 22 == 286 == 0 (mod 26)
    let key = Key::new(5, 13, 26).unwrap();
    let text = chars("thequickbrownfox");
    let enc = encrypt(&cs, &key, &text).unwrap();
    assert_eq!(decrypt(&cs, &key, &enc), Ok(text));
    let plain = Key::new(7, 0, 26).unwrap();
    let enc = encrypt(&cs, &plain, &chars("zebra")).unwrap();
    assert_eq!(decrypt(&cs, &plain, &enc), Ok(chars("zebra")));
}

#[test]
fn affine_rejects_characters_outside_alphabet() {
    let cs = latin();
    let key = Key::new(5, 8, 26).unwrap();
    assert_eq!(
        encrypt(&cs, &key, &chars("a b!")),
        Err(CipherError::CharactersNotInAlphabet(chars(" !")))
    );
    assert_eq!(
        decrypt(&cs, &key, &chars("A")),
        Err(CipherError::CharactersNotInAlphabet(chars("A")))
    );
}

#[test]
fn affine_definedness() {
    let cs = latin();
    let negative = Key { multiplicative: -1, inverse_multiplicative: 25, additive: 0 };
    // 'b' gives -1, whose remainder is negative
    assert!(!can_encrypt(&cs, &negative, &chars("b")));
    // 'a' gives 0
    assert!(can_encrypt(&cs, &negative, &chars("a")));
    assert!(can_decrypt(&cs, &negative, &chars("b")));
    let huge = Key { multiplicative: isize::MAX, inverse_multiplicative: 1, additive: 0 };
    assert!(!can_encrypt(&cs, &huge, &chars("c")));
    // characters outside the alphabet are rejected before any arithmetic
    assert!(can_encrypt(&cs, &huge, &chars("c?")));
}
