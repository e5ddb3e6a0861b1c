//! The affine cipher: position `i` of the alphabet becomes position `(a * i + b) mod m`.
use crate::ciphers::{CharacterSet, CipherError};
use crate::util::inverse::{
    coprime,egcd, inverse_defined, inverse_spec, lemma_inverse_is_inverse, mod_inverse};
use crate::util::{in_isize, lemma_trunc_rem_is_mod, lemma_trunc_rem_zero};
use vstd::arithmetic::div_mod::*;
use vstd::prelude::*;

verus! {

/// An affine key: the multiplier, its inverse modulo the alphabet's length, and the shift.
pub struct Key {
    pub multiplicative: isize,
    pub inverse_multiplicative: isize,
    pub additive: isize,
}

impl Key {
    /// `inverse_multiplicative` is what `mod_inverse` finds for `multiplicative` modulo `modulus`.
    pub open spec fn inverts(&self, modulus: int) -> bool {
        inverse_spec(self.multiplicative as int, modulus) == Some(self.inverse_multiplicative as int)
    }

    /// The key with the given multiplier and shift for an alphabet of `alphabet_length`
    /// characters; `None` when the multiplier has no inverse that `mod_inverse` finds.
    pub fn new(multiplicative: isize, additive: isize, alphabet_length: isize) -> (r: Option<Key>)
        requires
            inverse_defined(multiplicative as int, alphabet_length as int),
        ensures
            r is None <==> egcd(multiplicative as int, alphabet_length as int).0 != 1,
            multiplicative >= 0 && alphabet_length > 0 && coprime(
                multiplicative as int,
                alphabet_length as int,
            ) ==> r is Some,
            r matches Some(k) ==> k.multiplicative == multiplicative && k.additive == additive
                && k.inverts(alphabet_length as int),
    {
        match mod_inverse(multiplicative, alphabet_length) {
            Some(inverse_multiplicative) => Some(
                Key { multiplicative, inverse_multiplicative, additive },
            ),
            None => None,
        }
    }
}

/// `factor * index + shift` as an `isize` computation stays in range, and the remainder that
/// `%` gives is not negative.
pub open spec fn affine_step_defined(factor: int, index: int, shift: int, modulus: int) -> bool {
    &&& in_isize(factor * index)
    &&& in_isize(factor * index + shift)
    &&& (factor * index + shift >= 0 || (factor * index + shift) % modulus == 0)
}

/// Each character of `text` replaced by the alphabet's character at position
/// `(factor * index + shift) mod m`.
pub open spec fn affine_map(cs: &CharacterSet, factor: int, shift: int, text: Seq<char>) -> Seq<
    char,
> {
    Seq::new(
        text.len(),
        |k: int| cs.alphabet@[(factor * cs.index_of(text[k]) + shift) % (cs.alphabet.len() as int)],
    )
}

/// The inputs on which the map computes without overflow or a negative position: when all
/// characters are in the alphabet, every step is defined.
pub open spec fn affine_map_defined(cs: &CharacterSet, factor: int, shift: int, text: Seq<char>) -> bool {
    cs.all_in(text) ==> forall|k: int|
        0 <= k < text.len() ==> affine_step_defined(
            factor,
            cs.index_of(#[trigger] text[k]),
            shift,
            cs.alphabet.len() as int,
        )
}

/// Applies the map `i -> (factor * i + shift) % m` to the positions of the characters of `text`.
fn affine_apply(cs: &CharacterSet, factor: isize, shift: isize, text: &Vec<char>) -> (r: Vec<char>)
    requires
        cs.wf(),
        cs.alphabet.len() <= isize::MAX,
        cs.all_in(text@),
        affine_map_defined(cs, factor as int, shift as int, text@),
    ensures
        r@ == affine_map(cs, factor as int, shift as int, text@),
{
    let alphabet_length = cs.alphabet.len() as isize;
    let mut out: Vec<char> = Vec::new();
    let mut k: usize = 0;
    while k < text.len()
        invariant
            0 <= k <= text.len(),
            cs.wf(),
            alphabet_length == cs.alphabet.len(),
            cs.all_in(text@),
            affine_map_defined(cs, factor as int, shift as int, text@),
            out@.len() == k,
            forall|t: int| 0 <= t < k ==> out@[t] == affine_map(cs, factor as int, shift as int, text@)[t],
        decreases text.len() - k,
    {
        let c = text[k];
        assert(cs.contains(text@[k as int]));
        let index = cs.index(c) as isize;
        assert(affine_step_defined(factor as int, cs.index_of(text@[k as int]), shift as int, alphabet_length as int));
        let value = factor * index + shift;
        proof {
            lemma_trunc_rem_is_mod(value as int, alphabet_length as int);
        }
        let position = value % alphabet_length;
        out.push(cs.char_at(position as usize));
        k = k + 1;
    }
    assert(out@ == affine_map(cs, factor as int, shift as int, text@));
    out
}

/// Decides `affine_map_defined`.
fn affine_apply_defined(cs: &CharacterSet, factor: isize, shift: isize, text: &Vec<char>) -> (r: bool)
    requires
        cs.wf(),
        cs.alphabet.len() <= isize::MAX,
    ensures
        r == affine_map_defined(cs, factor as int, shift as int, text@),
{
    let missing = cs.missing_characters(text);
    if missing.len() > 0 {
        return true;
    }
    let alphabet_length = cs.alphabet.len() as isize;
    let mut k: usize = 0;
    while k < text.len()
        invariant
            0 <= k <= text.len(),
            cs.wf(),
            alphabet_length == cs.alphabet.len(),
            cs.all_in(text@),
            forall|t: int|
                0 <= t < k ==> affine_step_defined(
                    factor as int,
                    cs.index_of(#[trigger] text@[t]),
                    shift as int,
                    alphabet_length as int,
                ),
        decreases text.len() - k,
    {
        let c = text[k];
        assert(cs.contains(text@[k as int]));
        let index = cs.index(c) as isize;
        let product = match factor.checked_mul(index) {
            Some(p) => p,
            None => return false,
        };
        let value = match product.checked_add(shift) {
            Some(v) => v,
            None => return false,
        };
        if value < 0 && value % alphabet_length != 0 {
            proof {
                assert((value as int) % (alphabet_length as int) != 0) by {
                    if (value as int) % (alphabet_length as int) == 0 {
                        lemma_trunc_rem_is_mod(value as int, alphabet_length as int);
                    }
                }
            }
            return false;
        }
        proof {
            if value < 0 {
                lemma_trunc_rem_zero(value as int, alphabet_length as int);
            }
        }
        k = k + 1;
    }
    true
}

/// Enciphers `text`: position `i` becomes `(multiplicative * i + additive) mod m`. Fails, listing
/// them, when characters of `text` are not in the alphabet.
pub fn encrypt(cs: &CharacterSet, key: &Key, text: &Vec<char>) -> (r: Result<Vec<char>, CipherError>)
    requires
        cs.wf(),
        cs.alphabet.len() <= isize::MAX,
        affine_map_defined(cs, key.multiplicative as int, key.additive as int, text@),
    ensures
        match r {
            Ok(out) => cs.all_in(text@) && out@ == affine_map(
                cs,
                key.multiplicative as int,
                key.additive as int,
                text@,
            ),
            Err(CipherError::CharactersNotInAlphabet(missing)) => !cs.all_in(text@)
                && missing@ == cs.missing_list(text@),
            Err(CipherError::AlphabetLengthMismatch) => false,
        },
{
    let missing = cs.missing_characters(text);
    if missing.len() > 0 {
        return Err(CipherError::CharactersNotInAlphabet(missing));
    }
    Ok(affine_apply(cs, key.multiplicative, key.additive, text))
}

/// Deciphers `text` as this cipher does: position `i` becomes
/// `(inverse_multiplicative * i + additive) mod m`. Fails, listing them, when characters of `text`
/// are not in the alphabet.
pub fn decrypt(cs: &CharacterSet, key: &Key, text: &Vec<char>) -> (r: Result<Vec<char>, CipherError>)
    requires
        cs.wf(),
        cs.alphabet.len() <= isize::MAX,
        affine_map_defined(cs, key.inverse_multiplicative as int, key.additive as int, text@),
    ensures
        match r {
            Ok(out) => cs.all_in(text@) && out@ == affine_map(
                cs,
                key.inverse_multiplicative as int,
                key.additive as int,
                text@,
            ),
            Err(CipherError::CharactersNotInAlphabet(missing)) => !cs.all_in(text@)
                && missing@ == cs.missing_list(text@),
            Err(CipherError::AlphabetLengthMismatch) => false,
        },
{
    let missing = cs.missing_characters(text);
    if missing.len() > 0 {
        return Err(CipherError::CharactersNotInAlphabet(missing));
    }
    Ok(affine_apply(cs, key.inverse_multiplicative, key.additive, text))
}

/// Whether `encrypt(cs, key, text)` computes without overflow or a negative position.
pub fn can_encrypt(cs: &CharacterSet, key: &Key, text: &Vec<char>) -> (r: bool)
    requires
        cs.wf(),
        cs.alphabet.len() <= isize::MAX,
    ensures
        r == affine_map_defined(cs, key.multiplicative as int, key.additive as int, text@),
{
    affine_apply_defined(cs, key.multiplicative, key.additive, text)
}

/// Whether `decrypt(cs, key, text)` computes without overflow or a negative position.
pub fn can_decrypt(cs: &CharacterSet, key: &Key, text: &Vec<char>) -> (r: bool)
    requires
        cs.wf(),
        cs.alphabet.len() <= isize::MAX,
    ensures
        r == affine_map_defined(cs, key.inverse_multiplicative as int, key.additive as int, text@),
{
    affine_apply_defined(cs, key.inverse_multiplicative, key.additive, text)
}

/// Deciphering what was enciphered with the same key moves each position `i` to
/// `(i + additive * (inverse_multiplicative + 1)) mod m`.
pub proof fn lemma_decrypt_after_encrypt(cs: &CharacterSet, key: &Key, text: Seq<char>)
    requires
        cs.wf(),
        cs.alphabet.len() > 0,
        cs.all_in(text),
        key.inverts(cs.alphabet.len() as int),
    ensures
        affine_map(
            cs,
            key.inverse_multiplicative as int,
            key.additive as int,
            affine_map(cs, key.multiplicative as int, key.additive as int, text),
        ) == Seq::new(
            text.len(),
            |k: int|
                cs.alphabet@[(cs.index_of(text[k]) + key.additive * (key.inverse_multiplicative + 1))
                    % (cs.alphabet.len() as int)],
        ),
{
    let m = cs.alphabet.len() as int;
    let a = key.multiplicative as int;
    let inv = key.inverse_multiplicative as int;
    let b = key.additive as int;
    let enc = affine_map(cs, a, b, text);
    let dec = affine_map(cs, inv, b, enc);
    let expected = Seq::new(
        text.len(),
        |k: int| cs.alphabet@[(cs.index_of(text[k]) + b * (inv + 1)) % m],
    );
    lemma_inverse_is_inverse(a, m);
    assert forall|k: int| 0 <= k < text.len() implies dec[k] == expected[k] by {
        let i = cs.index_of(text[k]);
        let e = (a * i + b) % m;
        lemma_mod_bound(a * i + b, m);
        cs.lemma_index_of_position(e);
        assert(cs.index_of(enc[k]) == e);
        // inv * e + b == inv * (a * i + b) + b  (mod m)
        lemma_mul_mod_noop_right(inv, a * i + b, m);
        lemma_add_mod_noop(inv * e, b, m);
        lemma_add_mod_noop(inv * (a * i + b), b, m);
        assert((inv * e + b) % m == (inv * (a * i + b) + b) % m);
        assert(inv * (a * i + b) + b == (a * inv) * i + b * (inv + 1)) by (nonlinear_arith);
        // (a * inv) * i == i  (mod m)
        lemma_mul_mod_noop_left(a * inv, i, m);
        lemma_mul_mod_noop_left(1, i, m);
        assert(((a * inv) * i) % m == i % m);
        lemma_add_mod_noop((a * inv) * i, b * (inv + 1), m);
        lemma_add_mod_noop(i, b * (inv + 1), m);
    }
    assert(dec == expected);
}

/// When `additive * (inverse_multiplicative + 1)` is a multiple of the alphabet's length,
/// deciphering undoes enciphering.
pub proof fn lemma_decrypt_undoes_encrypt(cs: &CharacterSet, key: &Key, text: Seq<char>)
    requires
        cs.wf(),
        cs.alphabet.len() > 0,
        cs.all_in(text),
        key.inverts(cs.alphabet.len() as int),
        (key.additive * (key.inverse_multiplicative + 1)) % (cs.alphabet.len() as int) == 0,
    ensures
        affine_map(
            cs,
            key.inverse_multiplicative as int,
            key.additive as int,
            affine_map(cs, key.multiplicative as int, key.additive as int, text),
        ) == text,
{
    let m = cs.alphabet.len() as int;
    let s = key.additive * (key.inverse_multiplicative + 1);
    lemma_decrypt_after_encrypt(cs, key, text);
    assert forall|k: int| 0 <= k < text.len() implies cs.alphabet@[(cs.index_of(text[k]) + s)
        % m] == text[k] by {
        let i = cs.index_of(text[k]);
        cs.lemma_lookup(text[k]);
        lemma_add_mod_noop(i, s, m);
        lemma_small_mod(i as nat, m as nat);
        lemma_mod_bound(i, m);
    }
}

} // verus!
