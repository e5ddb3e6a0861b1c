//! The recursive affine cipher: an affine cipher whose key changes after every character, the
//! next multiplier being the product of the last two and the next shift their sum.
use crate::ciphers::{CharacterSet, CipherError};
use crate::util::inverse::{
    coprime,
    egcd, inverse_defined, inverse_spec, lemma_inverse_is_inverse, mod_inverse, mod_inverse_defined,
};
use crate::util::{
    in_isize, lemma_trunc_div_rem, trunc_div, lemma_trunc_rem_is_mod, lemma_trunc_rem_zero, positive_mod,
    positive_mod_defined, positive_mod_spec, trunc_rem,
};
use vstd::arithmetic::div_mod::*;
use vstd::prelude::*;

verus! {

/// One multiplier and one shift.
#[derive(Clone, Copy, Debug, PartialEq, Eq, Structural)]
pub struct PartialKey {
    pub multiplicative: isize,
    pub additive: isize,
}

impl From<(isize, isize)> for PartialKey {
    fn from(pair: (isize, isize)) -> (r: Self) {
        PartialKey { multiplicative: pair.0, additive: pair.1 }
    }
}

impl vstd::std_specs::convert::FromSpecImpl<(isize, isize)> for PartialKey {
    open spec fn obeys_from_spec() -> bool {
        true
    }

    open spec fn from_spec(v: (isize, isize)) -> Self {
        PartialKey { multiplicative: v.0, additive: v.1 }
    }
}

impl PartialKey {
    /// The partial key with the given multiplier and shift for an alphabet of `alphabet_length`
    /// characters; `None` when the multiplier has no inverse that `mod_inverse` finds.
    pub fn new(multiplicative: isize, additive: isize, alphabet_length: isize) -> (r: Option<
        PartialKey,
    >)
        requires
            inverse_defined(multiplicative as int, alphabet_length as int),
        ensures
            r is None <==> egcd(multiplicative as int, alphabet_length as int).0 != 1,
            multiplicative >= 0 && alphabet_length > 0 && coprime(
                multiplicative as int,
                alphabet_length as int,
            ) ==> r is Some,
            r matches Some(k) ==> k == (PartialKey { multiplicative, additive }),
    {
        match mod_inverse(multiplicative, alphabet_length) {
            Some(_) => Some(PartialKey { multiplicative, additive }),
            None => None,
        }
    }
}

/// The key in force for the current character (`first`) and the one after it (`second`).
#[derive(Clone, Copy, Debug, PartialEq, Eq, Structural)]
pub struct Key {
    pub multiplicative_first: isize,
    pub multiplicative_second: isize,
    pub additive_first: isize,
    pub additive_second: isize,
}

impl From<(PartialKey, PartialKey)> for Key {
    fn from(keys: (PartialKey, PartialKey)) -> (r: Self) {
        Key {
            multiplicative_first: keys.0.multiplicative,
            multiplicative_second: keys.1.multiplicative,
            additive_first: keys.0.additive,
            additive_second: keys.1.additive,
        }
    }
}

impl vstd::std_specs::convert::FromSpecImpl<(PartialKey, PartialKey)> for Key {
    open spec fn obeys_from_spec() -> bool {
        true
    }

    open spec fn from_spec(v: (PartialKey, PartialKey)) -> Self {
        Key {
            multiplicative_first: v.0.multiplicative,
            multiplicative_second: v.1.multiplicative,
            additive_first: v.0.additive,
            additive_second: v.1.additive,
        }
    }
}

impl Key {
    /// The key after one step: the second half moves first, and the new second half is the
    /// product of the multipliers and the sum of the shifts, each taken `%` the modulus.
    pub open spec fn next_spec(self, modulus: int) -> Key {
        Key {
            multiplicative_first: self.multiplicative_second,
            multiplicative_second: trunc_rem(
                self.multiplicative_first * self.multiplicative_second,
                modulus,
            ) as isize,
            additive_first: self.additive_second,
            additive_second: trunc_rem(self.additive_first + self.additive_second, modulus) as isize,
        }
    }

    /// `next` computes without overflow or division by zero.
    pub open spec fn next_defined(self, modulus: int) -> bool {
        let product = self.multiplicative_first * self.multiplicative_second;
        let sum = self.additive_first + self.additive_second;
        &&& modulus != 0
        &&& in_isize(product)
        &&& in_isize(sum)
        &&& !(product == isize::MIN && modulus == -1)
        &&& !(sum == isize::MIN && modulus == -1)
    }

    /// Advances the key by one step.
    pub fn next(&mut self, modulus: isize)
        requires
            old(self).next_defined(modulus as int),
        ensures
            *final(self) == old(self).next_spec(modulus as int),
            final(self).multiplicative_first == old(self).multiplicative_second,
            final(self).additive_first == old(self).additive_second,
            modulus > 0 ==> (final(self).multiplicative_second - old(self).multiplicative_first
                * old(self).multiplicative_second) % (modulus as int) == 0,
            modulus > 0 ==> (final(self).additive_second - (old(self).additive_first
                + old(self).additive_second)) % (modulus as int) == 0,
    {
        proof {
            if modulus > 0 {
                lemma_next_advances(*old(self), modulus as int);
            }
        }
        proof {
            lemma_trunc_div_rem(self.multiplicative_first * self.multiplicative_second, modulus as int);
            lemma_trunc_div_rem(self.additive_first + self.additive_second, modulus as int);
        }
        let partial_from_last = PartialKey {
            multiplicative: self.multiplicative_second,
            additive: self.additive_second,
        };
        let partial_current = PartialKey {
            multiplicative: (self.multiplicative_first * self.multiplicative_second) % modulus,
            additive: (self.additive_first + self.additive_second) % modulus,
        };

        *self = Key::from((partial_from_last, partial_current));
    }
}

/// Rust's `x % m` differs from `x` by a multiple of `m`, is smaller than `m` in magnitude, takes
/// the sign of `x`, and fits wherever `x` does.
proof fn lemma_rem_congruent(x: int, m: int)
    requires
        m > 0,
    ensures
        (trunc_rem(x, m) - x) % m == 0,
        -m < trunc_rem(x, m) < m,
        x >= 0 ==> 0 <= trunc_rem(x, m) <= x,
        x < 0 ==> x <= trunc_rem(x, m) <= 0,
{
    lemma_trunc_div_rem(x, m);
    let q = trunc_div(x, m);
    assert(trunc_rem(x, m) - x == (-q) * m) by (nonlinear_arith)
        requires
            x == q * m + trunc_rem(x, m),
    ;
    lemma_mod_multiples_basic(-q, m);
}

/// Advancing a key moves its second multiplier and shift into first place; the new second
/// multiplier is the product of the two multipliers and the new second shift the sum of the two
/// shifts, each up to a multiple of `m`, smaller than `m` in magnitude and of the sign of that
/// product or sum.
pub proof fn lemma_next_advances(k: Key, m: int)
    requires
        m > 0,
        k.next_defined(m),
    ensures
        k.next_spec(m).multiplicative_first == k.multiplicative_second,
        k.next_spec(m).additive_first == k.additive_second,
        (k.next_spec(m).multiplicative_second - k.multiplicative_first * k.multiplicative_second)
            % m == 0,
        (k.next_spec(m).additive_second - (k.additive_first + k.additive_second)) % m == 0,
        -m < k.next_spec(m).multiplicative_second < m,
        -m < k.next_spec(m).additive_second < m,
        k.multiplicative_first * k.multiplicative_second >= 0 ==> k.next_spec(
            m,
        ).multiplicative_second >= 0,
        k.multiplicative_first * k.multiplicative_second < 0 ==> k.next_spec(
            m,
        ).multiplicative_second <= 0,
        k.additive_first + k.additive_second >= 0 ==> k.next_spec(m).additive_second >= 0,
        k.additive_first + k.additive_second < 0 ==> k.next_spec(m).additive_second <= 0,
{
    lemma_rem_congruent(k.multiplicative_first * k.multiplicative_second, m);
    lemma_rem_congruent(k.additive_first + k.additive_second, m);
}

/// The first character is enciphered with the starting key's first multiplier and shift, and the
/// second with its second ones.
pub proof fn lemma_schedule_start(k: Key, m: int)
    ensures
        key_after(k, m, 0) == k,
        key_after(k, m, 1).multiplicative_first == k.multiplicative_second,
        key_after(k, m, 1).additive_first == k.additive_second,
{
    assert(key_after(k, m, 1) == key_after(k, m, 0).next_spec(m));
}

/// Along the key schedule, the shift in force for character `j + 2` is congruent modulo `m` to
/// the sum of the shifts for characters `j` and `j + 1`, and the multiplier to the product of
/// their multipliers.
pub proof fn lemma_schedule_recurrence(k: Key, m: int, j: nat)
    requires
        m > 0,
        key_after(k, m, j).next_defined(m),
    ensures
        (key_after(k, m, j + 2).additive_first - (key_after(k, m, j).additive_first + key_after(
            k,
            m,
            j + 1,
        ).additive_first)) % m == 0,
        (key_after(k, m, j + 2).multiplicative_first - key_after(k, m, j).multiplicative_first
            * key_after(k, m, j + 1).multiplicative_first) % m == 0,
{
    let kj = key_after(k, m, j);
    lemma_next_advances(kj, m);
    assert(key_after(k, m, j + 1) == kj.next_spec(m));
    assert(key_after(k, m, j + 2) == key_after(k, m, j + 1).next_spec(m));
}

/// The key after `n` steps.
pub open spec fn key_after(key: Key, modulus: int, n: nat) -> Key
    decreases n,
{
    if n == 0 {
        key
    } else {
        key_after(key, modulus, (n - 1) as nat).next_spec(modulus)
    }
}

/// The position of the `j`-th character after enciphering, before it is reduced: its position
/// times the current multiplier plus the current shift.
pub open spec fn encrypt_value(cs: &CharacterSet, key: Key, text: Seq<char>, j: int) -> int {
    let k = key_after(key, cs.alphabet.len() as int, j as nat);
    cs.index_of(text[j]) * k.multiplicative_first + k.additive_first
}

/// The multiplier's inverse in force for the `j`-th character.
pub open spec fn step_inverse(cs: &CharacterSet, key: Key, j: int) -> int {
    inverse_spec(
        key_after(key, cs.alphabet.len() as int, j as nat).multiplicative_first as int,
        cs.alphabet.len() as int,
    ).unwrap()
}

/// The position of the `j`-th character after deciphering, before it is reduced: its position
/// minus the current shift, times the inverse of the current multiplier.
pub open spec fn decrypt_value(cs: &CharacterSet, key: Key, text: Seq<char>, j: int) -> int {
    let k = key_after(key, cs.alphabet.len() as int, j as nat);
    (cs.index_of(text[j]) - k.additive_first) * step_inverse(cs, key, j)
}

/// `positive_mod(value, m)` computes, and lands on a position of the alphabet.
pub open spec fn position_defined(value: int, modulus: int) -> bool {
    &&& in_isize(value)
    &&& positive_mod_defined(value, modulus)
    &&& positive_mod_spec(value, modulus) < modulus
}

/// Step `j` of enciphering computes without overflow and lands in the alphabet, and the key
/// can advance after it.
pub open spec fn encrypt_step_defined(cs: &CharacterSet, key: Key, text: Seq<char>, j: int) -> bool {
    let m = cs.alphabet.len() as int;
    let k = key_after(key, m, j as nat);
    &&& in_isize(cs.index_of(text[j]) * k.multiplicative_first)
    &&& position_defined(encrypt_value(cs, key, text, j), m)
    &&& k.next_defined(m)
}

/// Step `j` of deciphering: the current multiplier has an inverse that `mod_inverse` finds, the
/// arithmetic stays in range and lands in the alphabet, and the key can advance after it.
pub open spec fn decrypt_step_defined(cs: &CharacterSet, key: Key, text: Seq<char>, j: int) -> bool {
    let m = cs.alphabet.len() as int;
    let k = key_after(key, m, j as nat);
    &&& inverse_defined(k.multiplicative_first as int, m)
    &&& egcd(k.multiplicative_first as int, m).0 == 1
    &&& in_isize(cs.index_of(text[j]) - k.additive_first)
    &&& position_defined(decrypt_value(cs, key, text, j), m)
    &&& k.next_defined(m)
}

/// Enciphering `text` with `key` computes: when all characters are in the alphabet, every step
/// is defined.
pub open spec fn encryption_defined(cs: &CharacterSet, key: Key, text: Seq<char>) -> bool {
    cs.all_in(text) ==> forall|j: int|
        0 <= j < text.len() ==> #[trigger] encrypt_step_defined(cs, key, text, j)
}

/// Deciphering `text` with `key` computes: when all characters are in the alphabet, every step
/// is defined.
pub open spec fn decryption_defined(cs: &CharacterSet, key: Key, text: Seq<char>) -> bool {
    cs.all_in(text) ==> forall|j: int|
        0 <= j < text.len() ==> #[trigger] decrypt_step_defined(cs, key, text, j)
}

/// The enciphered text: the `j`-th character goes to position `encrypt_value mod m`.
pub open spec fn encrypt_map(cs: &CharacterSet, key: Key, text: Seq<char>) -> Seq<char> {
    Seq::new(
        text.len(),
        |j: int| cs.alphabet@[encrypt_value(cs, key, text, j) % (cs.alphabet.len() as int)],
    )
}

/// The deciphered text: the `j`-th character goes to position `decrypt_value mod m`.
pub open spec fn decrypt_map(cs: &CharacterSet, key: Key, text: Seq<char>) -> Seq<char> {
    Seq::new(
        text.len(),
        |j: int| cs.alphabet@[decrypt_value(cs, key, text, j) % (cs.alphabet.len() as int)],
    )
}

/// Where `position_defined` holds, `positive_mod` gives the Euclidean remainder.
proof fn lemma_position(value: int, modulus: int)
    requires
        position_defined(value, modulus),
    ensures
        positive_mod_spec(value, modulus) == value % modulus,
        0 <= value % modulus < modulus,
{
    lemma_mod_bound(value, modulus);
}

/// Enciphers `text`, advancing `key` once per character: the `j`-th character's position `i`
/// becomes `(i * multiplicative_first + additive_first) mod m` under the key of that step. Fails,
/// listing them and leaving `key` as it was, when characters are not in the alphabet.
pub fn encrypt(cs: &CharacterSet, key: &mut Key, text: &Vec<char>) -> (r: Result<Vec<char>, CipherError>)
    requires
        cs.wf(),
        cs.alphabet.len() <= isize::MAX,
        encryption_defined(cs, *old(key), text@),
    ensures
        match r {
            Ok(out) => cs.all_in(text@) && out@ == encrypt_map(cs, *old(key), text@) && *final(key)
                == key_after(*old(key), cs.alphabet.len() as int, text.len() as nat),
            Err(CipherError::CharactersNotInAlphabet(missing)) => !cs.all_in(text@)
                && missing@ == cs.missing_list(text@) && *final(key) == *old(key),
            Err(CipherError::AlphabetLengthMismatch) => false,
        },
{
    let missing = cs.missing_characters(text);
    if missing.len() > 0 {
        return Err(CipherError::CharactersNotInAlphabet(missing));
    }
    let ghost start = *key;
    let alphabet_length = cs.alphabet.len() as isize;
    let mut ciphertext: Vec<char> = Vec::new();
    let mut j: usize = 0;
    while j < text.len()
        invariant
            0 <= j <= text.len(),
            cs.wf(),
            alphabet_length == cs.alphabet.len(),
            cs.all_in(text@),
            encryption_defined(cs, start, text@),
            *key == key_after(start, alphabet_length as int, j as nat),
            ciphertext@.len() == j,
            forall|t: int| 0 <= t < j ==> ciphertext@[t] == encrypt_map(cs, start, text@)[t],
        decreases text.len() - j,
    {
        let c = text[j];
        assert(cs.contains(text@[j as int]));
        assert(encrypt_step_defined(cs, start, text@, j as int));
        let index = cs.index(c) as isize;
        let resulting_index = index * key.multiplicative_first + key.additive_first;
        proof {
            lemma_position(resulting_index as int, alphabet_length as int);
        }
        let resulting_index = positive_mod(resulting_index, alphabet_length);
        ciphertext.push(cs.char_at(resulting_index as usize));
        key.next(alphabet_length);
        j = j + 1;
    }
    assert(ciphertext@ == encrypt_map(cs, start, text@));
    Ok(ciphertext)
}

/// Deciphers `text`, advancing `key` once per character: the `j`-th character's position `c`
/// becomes `((c - additive_first) * inverse) mod m`, `inverse` being the inverse of that step's
/// `multiplicative_first`. Fails, listing them and leaving `key` as it was, when characters are
/// not in the alphabet.
pub fn decrypt(cs: &CharacterSet, key: &mut Key, text: &Vec<char>) -> (r: Result<Vec<char>, CipherError>)
    requires
        cs.wf(),
        cs.alphabet.len() <= isize::MAX,
        decryption_defined(cs, *old(key), text@),
    ensures
        match r {
            Ok(out) => cs.all_in(text@) && out@ == decrypt_map(cs, *old(key), text@) && *final(key)
                == key_after(*old(key), cs.alphabet.len() as int, text.len() as nat),
            Err(CipherError::CharactersNotInAlphabet(missing)) => !cs.all_in(text@)
                && missing@ == cs.missing_list(text@) && *final(key) == *old(key),
            Err(CipherError::AlphabetLengthMismatch) => false,
        },
{
    let missing = cs.missing_characters(text);
    if missing.len() > 0 {
        return Err(CipherError::CharactersNotInAlphabet(missing));
    }
    let ghost start = *key;
    let alphabet_length = cs.alphabet.len() as isize;
    let mut plaintext: Vec<char> = Vec::new();
    let mut j: usize = 0;
    while j < text.len()
        invariant
            0 <= j <= text.len(),
            cs.wf(),
            alphabet_length == cs.alphabet.len(),
            cs.all_in(text@),
            decryption_defined(cs, start, text@),
            *key == key_after(start, alphabet_length as int, j as nat),
            plaintext@.len() == j,
            forall|t: int| 0 <= t < j ==> plaintext@[t] == decrypt_map(cs, start, text@)[t],
        decreases text.len() - j,
    {
        let c = text[j];
        assert(cs.contains(text@[j as int]));
        assert(decrypt_step_defined(cs, start, text@, j as int));
        let inverse_key = mod_inverse(key.multiplicative_first, alphabet_length).unwrap();
        let character_index = cs.index(c) as isize;
        let resulting_index = (character_index - key.additive_first) * inverse_key;
        proof {
            lemma_position(resulting_index as int, alphabet_length as int);
        }
        let resulting_index = positive_mod(resulting_index, alphabet_length);
        plaintext.push(cs.char_at(resulting_index as usize));
        key.next(alphabet_length);
        j = j + 1;
    }
    assert(plaintext@ == decrypt_map(cs, start, text@));
    Ok(plaintext)
}

/// Decides `position_defined` for a positive modulus.
fn position_ok(value: isize, modulus: isize) -> (r: bool)
    requires
        modulus > 0,
    ensures
        r == position_defined(value as int, modulus as int),
{
    proof {
        lemma_trunc_div_rem(value as int, modulus as int);
        lemma_mod_bound(value as int, modulus as int);
    }
    if value >= 0 {
        return true;
    }
    if value == isize::MIN {
        return false;
    }
    let quotient = (-value) / modulus;
    let multiple = match quotient.checked_add(1) {
        Some(q) => modulus.checked_mul(q),
        None => None,
    };
    if multiple.is_none() {
        proof {
            assert(modulus * ((-value) / (modulus as int) + 1) > isize::MAX) by (nonlinear_arith)
                requires
                    quotient == (-value) / (modulus as int),
                    modulus > 0,
                    quotient + 1 > isize::MAX || modulus * (quotient + 1) > isize::MAX,
                    quotient >= 0,
            ;
        }
        return false;
    }
    if value % modulus == 0 {
        proof {
            lemma_trunc_rem_zero(value as int, modulus as int);
        }
        return false;
    }
    proof {
        if (value as int) % (modulus as int) == 0 {
            lemma_trunc_rem_is_mod(value as int, modulus as int);
        }
    }
    true
}

/// Decides `next_defined` for a positive modulus, returning the advanced key when it is.
fn next_checked(key: Key, modulus: isize) -> (r: Option<Key>)
    requires
        modulus > 0,
    ensures
        r is Some <==> key.next_defined(modulus as int),
        r matches Some(k) ==> k == key.next_spec(modulus as int),
{
    if key.multiplicative_first.checked_mul(key.multiplicative_second).is_none()
        || key.additive_first.checked_add(key.additive_second).is_none() {
        return None;
    }
    let mut k = key;
    k.next(modulus);
    Some(k)
}

/// Whether `encrypt(cs, key, text)` computes without overflow and lands in the alphabet.
pub fn can_encrypt(cs: &CharacterSet, key: &Key, text: &Vec<char>) -> (r: bool)
    requires
        cs.wf(),
        cs.alphabet.len() <= isize::MAX,
    ensures
        r == encryption_defined(cs, *key, text@),
{
    let missing = cs.missing_characters(text);
    if missing.len() > 0 {
        return true;
    }
    let alphabet_length = cs.alphabet.len() as isize;
    let mut k = *key;
    let mut j: usize = 0;
    while j < text.len()
        invariant
            0 <= j <= text.len(),
            cs.wf(),
            alphabet_length == cs.alphabet.len(),
            cs.all_in(text@),
            k == key_after(*key, alphabet_length as int, j as nat),
            forall|t: int| 0 <= t < j ==> #[trigger] encrypt_step_defined(cs, *key, text@, t),
        decreases text.len() - j,
    {
        assert(cs.contains(text@[j as int]));
        let index = cs.index(text[j]) as isize;
        let product = match index.checked_mul(k.multiplicative_first) {
            Some(p) => p,
            None => {
                proof {
                    assert(!encrypt_step_defined(cs, *key, text@, j as int));
                }
                return false;
            },
        };
        let value = match product.checked_add(k.additive_first) {
            Some(v) => v,
            None => {
                proof {
                    assert(!encrypt_step_defined(cs, *key, text@, j as int));
                }
                return false;
            },
        };
        if !position_ok(value, alphabet_length) {
            proof {
                assert(!encrypt_step_defined(cs, *key, text@, j as int));
            }
            return false;
        }
        k = match next_checked(k, alphabet_length) {
            Some(n) => n,
            None => {
                proof {
                    assert(!encrypt_step_defined(cs, *key, text@, j as int));
                }
                return false;
            },
        };
        j = j + 1;
    }
    true
}

/// Whether `decrypt(cs, key, text)` computes without overflow, finds every inverse, and lands in
/// the alphabet.
pub fn can_decrypt(cs: &CharacterSet, key: &Key, text: &Vec<char>) -> (r: bool)
    requires
        cs.wf(),
        cs.alphabet.len() <= isize::MAX,
    ensures
        r == decryption_defined(cs, *key, text@),
{
    let missing = cs.missing_characters(text);
    if missing.len() > 0 {
        return true;
    }
    let alphabet_length = cs.alphabet.len() as isize;
    let mut k = *key;
    let mut j: usize = 0;
    while j < text.len()
        invariant
            0 <= j <= text.len(),
            cs.wf(),
            alphabet_length == cs.alphabet.len(),
            cs.all_in(text@),
            k == key_after(*key, alphabet_length as int, j as nat),
            forall|t: int| 0 <= t < j ==> #[trigger] decrypt_step_defined(cs, *key, text@, t),
        decreases text.len() - j,
    {
        assert(cs.contains(text@[j as int]));
        if !mod_inverse_defined(k.multiplicative_first, alphabet_length) {
            proof {
                assert(!decrypt_step_defined(cs, *key, text@, j as int));
            }
            return false;
        }
        let inverse = match mod_inverse(k.multiplicative_first, alphabet_length) {
            Some(v) => v,
            None => {
                proof {
                    assert(!decrypt_step_defined(cs, *key, text@, j as int));
                }
                return false;
            },
        };
        let index = cs.index(text[j]) as isize;
        let difference = match index.checked_sub(k.additive_first) {
            Some(d) => d,
            None => {
                proof {
                    assert(!decrypt_step_defined(cs, *key, text@, j as int));
                }
                return false;
            },
        };
        let value = match difference.checked_mul(inverse) {
            Some(v) => v,
            None => {
                proof {
                    assert(!decrypt_step_defined(cs, *key, text@, j as int));
                }
                return false;
            },
        };
        if !position_ok(value, alphabet_length) {
            proof {
                assert(!decrypt_step_defined(cs, *key, text@, j as int));
            }
            return false;
        }
        k = match next_checked(k, alphabet_length) {
            Some(n) => n,
            None => {
                proof {
                    assert(!decrypt_step_defined(cs, *key, text@, j as int));
                }
                return false;
            },
        };
        j = j + 1;
    }
    true
}

/// Deciphering undoes enciphering under the same starting key, when the multiplier in force at
/// every step has an inverse that `mod_inverse` finds.
pub proof fn lemma_decrypt_undoes_encrypt(cs: &CharacterSet, key: Key, text: Seq<char>)
    requires
        cs.wf(),
        cs.alphabet.len() > 0,
        cs.all_in(text),
        forall|j: int|
            0 <= j < text.len() ==> egcd(
                #[trigger] key_after(key, cs.alphabet.len() as int, j as nat).multiplicative_first as int,
                cs.alphabet.len() as int,
            ).0 == 1,
    ensures
        decrypt_map(cs, key, encrypt_map(cs, key, text)) == text,
{
    let m = cs.alphabet.len() as int;
    let enc = encrypt_map(cs, key, text);
    let dec = decrypt_map(cs, key, enc);
    assert forall|j: int| 0 <= j < text.len() implies dec[j] == text[j] by {
        let k = key_after(key, m, j as nat);
        let a = k.multiplicative_first as int;
        let b = k.additive_first as int;
        let i = cs.index_of(text[j]);
        cs.lemma_lookup(text[j]);
        let x = i * a + b;
        let e = x % m;
        lemma_mod_bound(x, m);
        cs.lemma_index_of_position(e);
        assert(cs.index_of(enc[j]) == e);
        assert(egcd(a, m).0 == 1);
        lemma_inverse_is_inverse(a, m);
        let inv = step_inverse(cs, key, j);
        assert(decrypt_value(cs, key, enc, j) == (e - b) * inv);
        // (e - b) == i * a  (mod m)
        lemma_mod_twice(x, m);
        lemma_sub_mod_noop(e, b, m);
        lemma_sub_mod_noop(x, b, m);
        assert((e - b) % m == (i * a) % m);
        // ((e - b) * inv) == i * (a * inv) == i  (mod m)
        lemma_mul_mod_noop_left(e - b, inv, m);
        lemma_mul_mod_noop_left(i * a, inv, m);
        assert((i * a) * inv == i * (a * inv)) by (nonlinear_arith);
        lemma_mul_mod_noop_right(i, a * inv, m);
        lemma_mul_mod_noop_right(i, 1, m);
        lemma_small_mod(i as nat, m as nat);
        assert(((e - b) * inv) % m == i);
    }
    assert(dec == text);
}

} // verus!
