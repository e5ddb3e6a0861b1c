use ciphers::ciphers::substitution_cipher::{decrypt, encrypt, same_characters};
use ciphers::ciphers::{CharacterSet, CipherError};

fn chars(s: &str) -> Vec<char> {
    s.chars().collect()
}

fn set(s: &str) -> CharacterSet {
    CharacterSet::new(chars(s)).unwrap()
}

#[test]
fn substitution_encrypt_and_decrypt() {
    let cs = set("abcd");
    let key = set("dcba");
    assert_eq!(encrypt(&cs, &key, &chars("abad")), Ok(chars("dcda")));
    assert_eq!(decrypt(&cs, &key, &chars("dcda")), Ok(chars("abad")));
    let other = set("wxyz");
    let enc = encrypt(&cs, &other, &chars("cab")).unwrap();
    assert_eq!(enc, chars("ywx"));
    assert_eq!(decrypt(&cs, &other, &enc), Ok(chars("cab")));
}

#[test]
fn substitution_errors() {
    let cs = set("abcd");
    assert_eq!(encrypt(&cs, &set("abc"), &chars("a")), Err(CipherError::AlphabetLengthMismatch));
    assert_eq!(
        encrypt(&cs, &set("wxyz"), &chars("aez")),
        Err(CipherError::CharactersNotInAlphabet(chars("ez")))
    );
    assert_eq!(
        decrypt(&cs, &set("wxyz"), &chars("wa")),
        Err(CipherError::CharactersNotInAlphabet(chars("a")))
    );
}

#[test]
fn substitution_same_characters() {
    assert!(same_characters(&set("abcd"), &set("dcba")));
    assert!(!same_characters(&set("abcd"), &set("wxyz")));
    assert!(!same_characters(&set("abc"), &set("abcd")));
}
