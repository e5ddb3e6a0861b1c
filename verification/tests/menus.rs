use ciphers::ciphers::text::{parse_number, text_from_file};
use ciphers::ciphers::{AlphabetSelect, CharacterSet, CharsOptions, CipherOperations, OutputOptions};
use ciphers::SupportedCiphers;

#[test]
fn labels() {
    assert_eq!(SupportedCiphers::SubstitutionCipher.label(), "Substitution Cipher");
    assert_eq!(SupportedCiphers::AffineCipher.label(), "Affine Cipher");
    assert_eq!(SupportedCiphers::AffineRecursiveCipher.label(), "Affine Recursive Cipher");
    assert_eq!(AlphabetSelect::Combined.label(), "Combined (with newline & tab)");
    assert_eq!(CipherOperations::Encrypt.label(), "Encrypt");
    assert_eq!(CipherOperations::Encrypt.text_type_name(), "plaintext");
    assert_eq!(CipherOperations::Encrypt.other_type_name(), "cyphertext");
    assert_eq!(CipherOperations::Decrypt.text_type_name(), "ciphertext");
    assert_eq!(CipherOperations::Decrypt.other_type_name(), "plaintext");
    assert_eq!(CharsOptions::File.label(), "From file (will be lowercased and filtered)");
    assert_eq!(OutputOptions::Stdout.label(), "Stdout");
}

#[test]
fn builtin_alphabets() {
    assert_eq!(AlphabetSelect::Input.alphabet(false), None);
    assert_eq!(AlphabetSelect::Input.alphabet(true), None);
    let latin: Vec<char> = "abcdefghijklmnopqrstuvwxyz".chars().collect();
    assert_eq!(AlphabetSelect::LatinLower.alphabet(false), Some(latin.clone()));
    assert_eq!(AlphabetSelect::Numbers.alphabet(false), Some("0123456789".chars().collect()));
    for selection in [
        AlphabetSelect::CyrillicAndSpecial,
        AlphabetSelect::LatinLower,
        AlphabetSelect::Numbers,
        AlphabetSelect::Combined,
    ] {
        let alphabet = selection.alphabet(false).unwrap();
        assert!(CharacterSet::new(alphabet).is_some());
    }
    let combined = AlphabetSelect::Combined.alphabet(false).unwrap();
    assert!(combined.contains(&'\n') && combined.contains(&'\t') && combined.contains(&'я'));
}

#[test]
fn shuffled_alphabet_is_a_permutation() {
    let latin: Vec<char> = "abcdefghijklmnopqrstuvwxyz".chars().collect();
    let shuffled = AlphabetSelect::LatinLower.alphabet(true).unwrap();
    let mut sorted = shuffled.clone();
    sorted.sort();
    assert_eq!(sorted, latin);
    // 26! orders: staying put would be a one-in-4e26 draw
    assert_ne!(shuffled, latin);
}

#[test]
fn file_text_is_lowercased_and_filtered() {
    let bytes = "Hello, World! ЖЁ".as_bytes();
    assert_eq!(text_from_file(bytes, None), "hello, world! жё".chars().collect::<Vec<char>>());
    let latin = CharacterSet::new("abcdefghijklmnopqrstuvwxyz".chars().collect()).unwrap();
    assert_eq!(text_from_file(bytes, Some(&latin)), "helloworld".chars().collect::<Vec<char>>());
    assert_eq!(text_from_file(&[0xff, b'A'], None), vec!['\u{fffd}', 'a']);
}

#[test]
fn numbers_parse_in_base_ten() {
    assert_eq!(parse_number("42"), Some(42));
    assert_eq!(parse_number("-7"), Some(-7));
    assert_eq!(parse_number("+3"), Some(3));
    assert_eq!(parse_number("007"), Some(7));
    assert_eq!(parse_number(" 1"), None);
    assert_eq!(parse_number(""), None);
    assert_eq!(parse_number("-"), None);
    assert_eq!(parse_number("1_000"), None);
    assert_eq!(parse_number("9223372036854775808"), None);
    assert_eq!(parse_number("-9223372036854775808"), Some(isize::MIN));
}
