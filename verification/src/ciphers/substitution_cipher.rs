//! The substitution cipher: the character at position `i` of one alphabet is replaced by the
//! character at position `i` of another.
use crate::ciphers::{CharacterSet, CipherError};
use vstd::prelude::*;

verus! {

/// Each character of `text` replaced by the character of `to` at its position in `from`.
pub open spec fn substitute(from: &CharacterSet, to: &CharacterSet, text: Seq<char>) -> Seq<char> {
    Seq::new(text.len(), |k: int| to.alphabet@[from.index_of(text[k])])
}

/// Whether the characters of `from` all occur in `to`.
fn included(from: &CharacterSet, to: &CharacterSet) -> (r: bool)
    requires
        from.wf(),
        to.wf(),
    ensures
        r == (forall|c: char| from.contains(c) ==> to.contains(c)),
{
    let mut i: usize = 0;
    while i < from.alphabet.len()
        invariant
            0 <= i <= from.alphabet.len(),
            from.wf(),
            to.wf(),
            forall|t: int| 0 <= t < i ==> to.contains(#[trigger] from.alphabet@[t]),
        decreases from.alphabet.len() - i,
    {
        if !to.has(from.alphabet[i]) {
            assert(from.contains(from.alphabet@[i as int]));
            return false;
        }
        i = i + 1;
    }
    proof {
        assert forall|c: char| from.contains(c) implies to.contains(c) by {
            let t = choose|t: int| 0 <= t < from.alphabet.len() && from.alphabet@[t] == c;
        }
    }
    true
}

/// Whether the two alphabets hold the same characters (in any order).
pub fn same_characters(cs: &CharacterSet, key_cs: &CharacterSet) -> (r: bool)
    requires
        cs.wf(),
        key_cs.wf(),
    ensures
        r == (cs.alphabet@.to_set() == key_cs.alphabet@.to_set()),
{
    let r = included(cs, key_cs) && included(key_cs, cs);
    proof {
        if r {
            assert forall|c: char| cs.alphabet@.to_set().contains(c) <==> key_cs.alphabet@.to_set().contains(c) by {
                assert(cs.contains(c) ==> key_cs.contains(c));
                assert(key_cs.contains(c) ==> cs.contains(c));
            }
            assert(cs.alphabet@.to_set() =~= key_cs.alphabet@.to_set());
        } else if cs.alphabet@.to_set() == key_cs.alphabet@.to_set() {
            assert forall|c: char| cs.contains(c) implies key_cs.contains(c) by {
                assert(cs.alphabet@.to_set().contains(c));
            }
            assert forall|c: char| key_cs.contains(c) implies cs.contains(c) by {
                assert(key_cs.alphabet@.to_set().contains(c));
            }
        }
    }
    r
}

/// Enciphers `text`: the character at position `i` of `cs` becomes the character at position `i`
/// of `key_cs`. Fails when the alphabets differ in length, and otherwise, listing them, when
/// characters of `text` are not in `cs`.
pub fn encrypt(cs: &CharacterSet, key_cs: &CharacterSet, text: &Vec<char>) -> (r: Result<Vec<char>, CipherError>)
    requires
        cs.wf(),
        key_cs.wf(),
    ensures
        match r {
            Ok(out) => cs.alphabet.len() == key_cs.alphabet.len() && cs.all_in(text@) && out@
                == substitute(cs, key_cs, text@),
            Err(CipherError::AlphabetLengthMismatch) => cs.alphabet.len() != key_cs.alphabet.len(),
            Err(CipherError::CharactersNotInAlphabet(missing)) => cs.alphabet.len()
                == key_cs.alphabet.len() && !cs.all_in(text@) && missing@ == cs.missing_list(text@),
        },
{
    if cs.alphabet.len() != key_cs.alphabet.len() {
        return Err(CipherError::AlphabetLengthMismatch);
    }
    let missing = cs.missing_characters(text);
    if missing.len() > 0 {
        return Err(CipherError::CharactersNotInAlphabet(missing));
    }
    let mut out: Vec<char> = Vec::new();
    let mut k: usize = 0;
    while k < text.len()
        invariant
            0 <= k <= text.len(),
            cs.wf(),
            key_cs.wf(),
            cs.alphabet.len() == key_cs.alphabet.len(),
            cs.all_in(text@),
            out@.len() == k,
            forall|t: int| 0 <= t < k ==> out@[t] == substitute(cs, key_cs, text@)[t],
        decreases text.len() - k,
    {
        assert(cs.contains(text@[k as int]));
        let index = cs.index(text[k]);
        out.push(key_cs.char_at(index));
        k = k + 1;
    }
    assert(out@ == substitute(cs, key_cs, text@));
    Ok(out)
}

/// Deciphers `text`: the character at position `i` of `key_cs` becomes the character at position
/// `i` of `cs`. Fails when the alphabets differ in length, and otherwise, listing them, when
/// characters of `text` are not in `key_cs`.
pub fn decrypt(cs: &CharacterSet, key_cs: &CharacterSet, text: &Vec<char>) -> (r: Result<Vec<char>, CipherError>)
    requires
        cs.wf(),
        key_cs.wf(),
    ensures
        match r {
            Ok(out) => cs.alphabet.len() == key_cs.alphabet.len() && key_cs.all_in(text@) && out@
                == substitute(key_cs, cs, text@),
            Err(CipherError::AlphabetLengthMismatch) => cs.alphabet.len() != key_cs.alphabet.len(),
            Err(CipherError::CharactersNotInAlphabet(missing)) => cs.alphabet.len()
                == key_cs.alphabet.len() && !key_cs.all_in(text@) && missing@ == key_cs.missing_list(text@),
        },
{
    encrypt(key_cs, cs, text)
}

/// Deciphering undoes enciphering, and enciphering undoes deciphering, for alphabets of one
/// length.
pub proof fn lemma_decrypt_undoes_encrypt(cs: &CharacterSet, key_cs: &CharacterSet, text: Seq<char>)
    requires
        cs.wf(),
        key_cs.wf(),
        cs.alphabet.len() == key_cs.alphabet.len(),
        cs.all_in(text),
    ensures
        key_cs.all_in(substitute(cs, key_cs, text)),
        substitute(key_cs, cs, substitute(cs, key_cs, text)) == text,
{
    let enc = substitute(cs, key_cs, text);
    assert forall|k: int| 0 <= k < text.len() implies key_cs.contains(#[trigger] enc[k]) && cs.alphabet@[key_cs.index_of(enc[k])] == text[k] by {
        cs.lemma_lookup(text[k]);
        key_cs.lemma_index_of_position(cs.index_of(text[k]));
    }
    assert(substitute(key_cs, cs, enc) == text);
}

/// Enciphering replaces each character at position `i` of `cs` by the character at position `i`
/// of `key_cs`; so characters at different positions stay different.
pub proof fn lemma_substitute_by_position(cs: &CharacterSet, key_cs: &CharacterSet, text: Seq<char>)
    requires
        cs.wf(),
        key_cs.wf(),
        cs.alphabet.len() == key_cs.alphabet.len(),
        cs.all_in(text),
    ensures
        substitute(cs, key_cs, text).len() == text.len(),
        forall|k: int, i: int|
            #![trigger substitute(cs, key_cs, text)[k], cs.alphabet@[i]]
            0 <= k < text.len() && 0 <= i < cs.alphabet.len() && text[k] == cs.alphabet@[i]
                ==> substitute(cs, key_cs, text)[k] == key_cs.alphabet@[i],
        forall|k1: int, k2: int|
            0 <= k1 < text.len() && 0 <= k2 < text.len() && text[k1] != text[k2]
                ==> #[trigger] substitute(cs, key_cs, text)[k1] != #[trigger] substitute(
                cs,
                key_cs,
                text,
            )[k2],
{
    assert forall|k: int, i: int|
        #![trigger substitute(cs, key_cs, text)[k], cs.alphabet@[i]]
        0 <= k < text.len() && 0 <= i < cs.alphabet.len() && text[k] == cs.alphabet@[i]
            implies substitute(cs, key_cs, text)[k] == key_cs.alphabet@[i] by {
        cs.lemma_index_of_position(i);
    }
    assert forall|k1: int, k2: int|
        0 <= k1 < text.len() && 0 <= k2 < text.len() && text[k1] != text[k2]
            implies #[trigger] substitute(cs, key_cs, text)[k1] != #[trigger] substitute(
            cs,
            key_cs,
            text,
        )[k2] by {
        assert(cs.contains(text[k1]));
        assert(cs.contains(text[k2]));
        cs.lemma_lookup(text[k1]);
        cs.lemma_lookup(text[k2]);
        let i1 = cs.index_of(text[k1]);
        let i2 = cs.index_of(text[k2]);
        assert(i1 != i2);
        assert(key_cs.alphabet@.no_duplicates());
    }
}

} // verus!
