use ciphers::ciphers::{CharacterSet, CipherError};

fn chars(s: &str) -> Vec<char> {
    s.chars().collect()
}

#[test]
fn character_set_tables() {
    let cs = CharacterSet::new(chars("abc")).unwrap();
    assert_eq!(cs.alphabet, chars("abc"));
    assert_eq!(cs.index('c'), 2);
    assert_eq!(cs.char_at(1), 'b');
    assert!(cs.has('a'));
    assert!(!cs.has('z'));
    assert_eq!(cs.char_to_idx.get(&('b' as u32)), Some(&1));
    assert_eq!(cs.idx_to_char.get(&0), Some(&'a'));
    assert_eq!(cs.set_characters.len(), 3);
    assert_eq!(cs.alphabet_length(), Some(3));
}

#[test]
fn character_set_rejects_repeats() {
    assert!(CharacterSet::new(chars("abca")).is_none());
    assert!(CharacterSet::new(chars("aa")).is_none());
    assert!(CharacterSet::new(chars("")).is_some());
    assert!(CharacterSet::new(chars("жёж")).is_none());
}

#[test]
fn missing_characters_lists_each_once() {
    let cs = CharacterSet::new(chars("abc")).unwrap();
    assert_eq!(cs.missing_characters(&chars("abcab")), Vec::<char>::new());
    assert_eq!(cs.missing_characters(&chars("axbyx")), chars("xy"));
}

#[test]
fn cipher_error_variants() {
    let e = CipherError::CharactersNotInAlphabet(chars("q"));
    assert_ne!(e, CipherError::AlphabetLengthMismatch);
}
