//! Alphabets, the operations and menus shared by the ciphers, and the ciphers themselves.
pub mod affine_cipher;
pub mod affine_recursive_cipher;
pub mod substitution_cipher;
pub mod text;

use std::collections::{HashMap, HashSet};
use vstd::prelude::*;

verus! {

broadcast use vstd::std_specs::hash::group_hash_axioms;

/// The code point of `c`, by which the lookup tables of a [`CharacterSet`] are keyed.
pub open spec fn code_of(c: char) -> u32 {
    c as u32
}

/// Distinct characters have distinct code points.
pub proof fn lemma_code_of_injective(a: char, b: char)
    ensures
        code_of(a) == code_of(b) <==> a == b,
{
    assert(0 <= (a as int) <= 0x10FFFF);
    assert(0 <= (b as int) <= 0x10FFFF);
    assert(a as u32 == a as int);
    assert(b as u32 == b as int);
}

/// An alphabet without repeated characters, with lookup tables from characters (by code point)
/// to positions and back.
pub struct CharacterSet {
    pub alphabet: Vec<char>,
    pub char_to_idx: HashMap<u32, usize>,
    pub idx_to_char: HashMap<usize, char>,
    pub set_characters: HashSet<u32>,
}

impl CharacterSet {
    /// The tables agree with `alphabet`, which holds no character twice.
    pub open spec fn wf(&self) -> bool {
        &&& self.alphabet@.no_duplicates()
        &&& forall|i: int|
            0 <= i < self.alphabet.len() ==> #[trigger] self.char_to_idx@.contains_key(
                code_of(self.alphabet@[i]),
            ) && self.char_to_idx@[code_of(self.alphabet@[i])] == i
        &&& forall|k: u32| #[trigger]
            self.char_to_idx@.contains_key(k) ==> self.char_to_idx@[k] < self.alphabet.len()
                && code_of(self.alphabet@[self.char_to_idx@[k] as int]) == k
        &&& forall|i: usize| #[trigger]
            self.idx_to_char@.contains_key(i) <==> i < self.alphabet.len()
        &&& forall|i: usize|
            i < self.alphabet.len() ==> #[trigger] self.idx_to_char@[i] == self.alphabet@[i as int]
        &&& self.set_characters@ == self.char_to_idx@.dom()
    }

    /// `c` is a character of the alphabet.
    pub open spec fn contains(&self, c: char) -> bool {
        self.alphabet@.contains(c)
    }

    /// The position of `c` in the alphabet.
    pub open spec fn index_of(&self, c: char) -> int {
        self.char_to_idx@[code_of(c)] as int
    }

    /// In a well-formed set, `index_of` finds each character of the alphabet at its position, and
    /// the set of code points holds exactly the alphabet's characters.
    pub proof fn lemma_lookup(&self, c: char)
        requires
            self.wf(),
        ensures
            self.contains(c) <==> self.set_characters@.contains(code_of(c)),
            self.contains(c) <==> self.char_to_idx@.contains_key(code_of(c)),
            self.contains(c) ==> 0 <= self.index_of(c) < self.alphabet.len() && self.alphabet@[self.index_of(c)] == c,
    {
        if self.contains(c) {
            let i = choose|i: int| 0 <= i < self.alphabet.len() && self.alphabet@[i] == c;
            assert(self.char_to_idx@.contains_key(code_of(self.alphabet@[i])));
        }
        if self.char_to_idx@.contains_key(code_of(c)) {
            let j = self.char_to_idx@[code_of(c)] as int;
            lemma_code_of_injective(self.alphabet@[j], c);
        }
    }

    /// Every character of `text` is in the alphabet.
    pub open spec fn all_in(&self, text: Seq<char>) -> bool {
        forall|k: int| 0 <= k < text.len() ==> self.contains(#[trigger] text[k])
    }

    /// The characters of `text` that the alphabet lacks, each once, in the order of their first
    /// occurrence.
    pub open spec fn missing_list(&self, text: Seq<char>) -> Seq<char>
        decreases text.len(),
    {
        if text.len() == 0 {
            Seq::empty()
        } else {
            let earlier = self.missing_list(text.drop_last());
            if !self.contains(text.last()) && !earlier.contains(text.last()) {
                earlier.push(text.last())
            } else {
                earlier
            }
        }
    }

    /// `missing` lists, once each, exactly the characters of `text` that the alphabet lacks.
    pub open spec fn is_missing_list(&self, text: Seq<char>, missing: Seq<char>) -> bool {
        &&& missing.no_duplicates()
        &&& forall|c: char| #[trigger]
            missing.contains(c) <==> (text.contains(c) && !self.contains(c))
    }

    /// Every character of the alphabet is found at its own position.
    pub proof fn lemma_index_of_position(&self, i: int)
        requires
            self.wf(),
            0 <= i < self.alphabet.len(),
        ensures
            self.index_of(self.alphabet@[i]) == i,
            self.contains(self.alphabet@[i]),
    {
        assert(self.char_to_idx@.contains_key(code_of(self.alphabet@[i])));
    }

    /// Builds the lookup tables for `alphabet`; `None` when a character occurs twice.
    pub fn new(alphabet: Vec<char>) -> (r: Option<CharacterSet>)
        ensures
            r is None <==> !alphabet@.no_duplicates(),
            r matches Some(cs) ==> cs.wf() && cs.alphabet@ == alphabet@,
    {
        let mut char_to_idx: HashMap<u32, usize> = HashMap::new();
        let mut idx_to_char: HashMap<usize, char> = HashMap::new();
        let mut set_characters: HashSet<u32> = HashSet::new();
        let mut i: usize = 0;
        while i < alphabet.len()
            invariant
                0 <= i <= alphabet.len(),
                alphabet@.subrange(0, i as int).no_duplicates(),
                forall|j: int|
                    0 <= j < i ==> #[trigger] char_to_idx@.contains_key(code_of(alphabet@[j]))
                        && char_to_idx@[code_of(alphabet@[j])] == j,
                forall|k: u32| #[trigger]
                    char_to_idx@.contains_key(k) ==> char_to_idx@[k] < i && code_of(
                        alphabet@[char_to_idx@[k] as int],
                    ) == k,
                forall|j: usize| #[trigger] idx_to_char@.contains_key(j) <==> j < i,
                forall|j: usize| j < i ==> #[trigger] idx_to_char@[j] == alphabet@[j as int],
                set_characters@ == char_to_idx@.dom(),
            decreases alphabet.len() - i,
        {
            let c = alphabet[i];
            let code = c as u32;
            if char_to_idx.contains_key(&code) {
                proof {
                    let j = char_to_idx@[code] as int;
                    lemma_code_of_injective(alphabet@[j], c);
                    assert(alphabet@[j] == alphabet@[i as int]);
                }
                return None;
            }
            char_to_idx.insert(code, i);
            idx_to_char.insert(i, c);
            set_characters.insert(code);
            proof {
                let s = alphabet@.subrange(0, i as int + 1);
                assert forall|a: int, b: int| 0 <= a < s.len() && 0 <= b < s.len() && a != b implies s[a] != s[b] by {
                    if a < i && b < i {
                        assert(alphabet@.subrange(0, i as int)[a] == s[a]);
                        assert(alphabet@.subrange(0, i as int)[b] == s[b]);
                    } else if a == i {
                        assert(char_to_idx@.contains_key(code_of(alphabet@[b])));
                        lemma_code_of_injective(alphabet@[b], c);
                    } else {
                        assert(char_to_idx@.contains_key(code_of(alphabet@[a])));
                        lemma_code_of_injective(alphabet@[a], c);
                    }
                }
            }
            i = i + 1;
        }
        assert(alphabet@.subrange(0, alphabet.len() as int) == alphabet@);
        Some(CharacterSet { alphabet, char_to_idx, idx_to_char, set_characters })
    }
}


impl CharacterSet {
    /// The alphabet's length as an `isize`; `None` when it does not fit.
    pub fn alphabet_length(&self) -> (r: Option<isize>)
        ensures
            r == (if self.alphabet.len() <= isize::MAX {
                Some(self.alphabet.len() as isize)
            } else {
                None
            }),
    {
        if self.alphabet.len() <= isize::MAX as usize {
            Some(self.alphabet.len() as isize)
        } else {
            None
        }
    }

    /// Whether `c` belongs to the alphabet.
    pub fn has(&self, c: char) -> (r: bool)
        requires
            self.wf(),
        ensures
            r == self.contains(c),
    {
        proof {
            self.lemma_lookup(c);
        }
        self.set_characters.contains(&(c as u32))
    }

    /// The position of `c` in the alphabet.
    pub fn index(&self, c: char) -> (r: usize)
        requires
            self.wf(),
            self.contains(c),
        ensures
            r == self.index_of(c),
            r < self.alphabet.len(),
            self.alphabet@[r as int] == c,
    {
        proof {
            self.lemma_lookup(c);
        }
        *self.char_to_idx.get(&(c as u32)).unwrap()
    }

    /// The character at position `i` of the alphabet.
    pub fn char_at(&self, i: usize) -> (r: char)
        requires
            self.wf(),
            i < self.alphabet.len(),
        ensures
            r == self.alphabet@[i as int],
    {
        *self.idx_to_char.get(&i).unwrap()
    }

    /// The characters of `text` that are not in the alphabet, each once, in the order of their
    /// first occurrence.
    pub fn missing_characters(&self, text: &Vec<char>) -> (r: Vec<char>)
        requires
            self.wf(),
        ensures
            r@ == self.missing_list(text@),
            self.is_missing_list(text@, r@),
            r@.len() == 0 <==> self.all_in(text@),
    {
        let mut seen: HashSet<u32> = HashSet::new();
        let mut missing: Vec<char> = Vec::new();
        let mut j: usize = 0;
        while j < text.len()
            invariant
                0 <= j <= text.len(),
                self.wf(),
                missing@ == self.missing_list(text@.subrange(0, j as int)),
                missing@.no_duplicates(),
                forall|c: char| #[trigger]
                    missing@.contains(c) <==> (text@.subrange(0, j as int).contains(c)
                        && !self.contains(c)),
                forall|c: char| seen@.contains(#[trigger] code_of(c)) <==> missing@.contains(c),
            decreases text.len() - j,
        {
            let c = text[j];
            proof {
                self.lemma_lookup(c);
            }
            let code = c as u32;
            let ghost old_missing = missing@;
            let ghost prev = text@.subrange(0, j as int);
            let ghost next = text@.subrange(0, j as int + 1);
            proof {
                assert(next == prev.push(c));
                assert(next.drop_last() == prev);
                assert forall|d: char| #[trigger] next.contains(d) <==> (prev.contains(d) || d == c) by {
                    if next.contains(d) && d != c {
                        let t = choose|t: int| 0 <= t < next.len() && next[t] == d;
                        assert(prev[t] == d);
                    }
                    if prev.contains(d) {
                        let t = choose|t: int| 0 <= t < prev.len() && prev[t] == d;
                        assert(next[t] == d);
                    }
                    assert(next[j as int] == c);
                }
            }
            if !self.set_characters.contains(&code) && !seen.contains(&code) {
                missing.push(c);
                seen.insert(code);
                proof {
                    assert(!old_missing.contains(c));
                    assert forall|d: char| #[trigger] missing@.contains(d) <==> (old_missing.contains(d) || d == c) by {
                        if missing@.contains(d) && d != c {
                            let t = choose|t: int| 0 <= t < missing@.len() && missing@[t] == d;
                            assert(old_missing[t] == d);
                        }
                        if old_missing.contains(d) {
                            let t = choose|t: int| 0 <= t < old_missing.len() && old_missing[t] == d;
                            assert(missing@[t] == d);
                        }
                        assert(missing@[old_missing.len() as int] == c);
                    }
                    assert forall|d: char| seen@.contains(#[trigger] code_of(d)) <==> missing@.contains(d) by {
                        lemma_code_of_injective(d, c);
                    }
                }
            }
            j = j + 1;
        }
        proof {
            assert(text@.subrange(0, text.len() as int) == text@);
            if missing@.len() > 0 {
                assert(missing@.contains(missing@[0]));
            }
            if !self.all_in(text@) {
                let k = choose|k: int| 0 <= k < text.len() && !self.contains(text@[k]);
                assert(text@.contains(text@[k]));
                assert(missing@.contains(text@[k]));
            }
        }
        missing
    }
}

/// Why a text cannot be enciphered or deciphered.
#[derive(Debug, PartialEq, Eq)]
pub enum CipherError {
    /// The characters of the text that the alphabet lacks, each once.
    CharactersNotInAlphabet(Vec<char>),
    /// A substitution alphabet whose length differs from that of the alphabet it replaces.
    AlphabetLengthMismatch,
}

/// Where an alphabet comes from: typed in, or one of the built-in ones.
#[derive(Clone, Copy, Debug, PartialEq, Eq, Structural)]
pub enum AlphabetSelect {
    Input,
    CyrillicAndSpecial,
    LatinLower,
    Numbers,
    Combined,
}

impl AlphabetSelect {
    /// The text a menu shows for this choice.
    pub fn label(&self) -> (r: &'static str)
        ensures
            r@ == (match *self {
                AlphabetSelect::Input => "From input"@,
                AlphabetSelect::CyrillicAndSpecial => "Lowercase cyrillic and special characters"@,
                AlphabetSelect::LatinLower => "Lowercase latin"@,
                AlphabetSelect::Numbers => "Numbers"@,
                AlphabetSelect::Combined => "Combined (with newline & tab)"@,
            }),
    {
        match self {
            AlphabetSelect::Input => "From input",
            AlphabetSelect::CyrillicAndSpecial => "Lowercase cyrillic and special characters",
            AlphabetSelect::LatinLower => "Lowercase latin",
            AlphabetSelect::Numbers => "Numbers",
            AlphabetSelect::Combined => "Combined (with newline & tab)",
        }
    }
}

/// What to do with a text.
#[derive(Clone, Copy, Debug, PartialEq, Eq, Structural)]
pub enum CipherOperations {
    Encrypt,
    Decrypt,
}

impl CipherOperations {
    /// The name of the text this operation takes.
    pub fn text_type_name(&self) -> (r: &'static str)
        ensures
            r@ == (match *self {
                CipherOperations::Encrypt => "plaintext"@,
                CipherOperations::Decrypt => "ciphertext"@,
            }),
    {
        match self {
            CipherOperations::Encrypt => "plaintext",
            CipherOperations::Decrypt => "ciphertext",
        }
    }

    /// The name of the text this operation produces.
    pub fn other_type_name(&self) -> (r: &'static str)
        ensures
            r@ == (match *self {
                CipherOperations::Encrypt => "cyphertext"@,
                CipherOperations::Decrypt => "plaintext"@,
            }),
    {
        match self {
            CipherOperations::Encrypt => "cyphertext",
            CipherOperations::Decrypt => "plaintext",
        }
    }

    /// The text a menu shows for this choice.
    pub fn label(&self) -> (r: &'static str)
        ensures
            r@ == (match *self {
                CipherOperations::Encrypt => "Encrypt"@,
                CipherOperations::Decrypt => "Decrypt"@,
            }),
    {
        match self {
            CipherOperations::Encrypt => "Encrypt",
            CipherOperations::Decrypt => "Decrypt",
        }
    }
}

/// Where a text comes from: typed in, or read from a file.
#[derive(Clone, Copy, Debug, PartialEq, Eq, Structural)]
pub enum CharsOptions {
    Input,
    File,
}

impl CharsOptions {
    /// The text a menu shows for this choice.
    pub fn label(&self) -> (r: &'static str)
        ensures
            r@ == (match *self {
                CharsOptions::Input => "From input"@,
                CharsOptions::File => "From file (will be lowercased and filtered)"@,
            }),
    {
        match self {
            CharsOptions::Input => "From input",
            CharsOptions::File => "From file (will be lowercased and filtered)",
        }
    }
}

/// Where a result goes: to standard output, or to a file.
#[derive(Clone, Copy, Debug, PartialEq, Eq, Structural)]
pub enum OutputOptions {
    Stdout,
    File,
}

impl OutputOptions {
    /// The text a menu shows for this choice.
    pub fn label(&self) -> (r: &'static str)
        ensures
            r@ == (match *self {
                OutputOptions::Stdout => "Stdout"@,
                OutputOptions::File => "File"@,
            }),
    {
        match self {
            OutputOptions::Stdout => "Stdout",
            OutputOptions::File => "File",
        }
    }
}

} // verus!
