//! Where texts and alphabets come from: the built-in alphabets (optionally shuffled) and the
//! text of a file, lowercased and filtered to an alphabet; and the numbers typed in as keys.
use crate::ciphers::{AlphabetSelect, CharacterSet};
use crate::util::in_isize;
use vstd::prelude::*;
use vstd::utf8::{decode_utf8, valid_utf8};

verus! {

/// The lowercase latin letters.
pub open spec fn latin_lower() -> Seq<char> {
    seq!['a', 'b', 'c', 'd', 'e', 'f', 'g', 'h', 'i', 'j', 'k', 'l', 'm', 'n', 'o', 'p', 'q', 'r', 's', 't', 'u', 'v', 'w', 'x', 'y', 'z']
}

/// The lowercase cyrillic letters.
pub open spec fn cyrillic_lower() -> Seq<char> {
    seq!['а', 'б', 'в', 'г', 'д', 'е', 'ё', 'ж', 'з', 'и', 'й', 'к', 'л', 'м', 'н', 'о', 'п', 'р', 'с', 'т', 'у', 'ф', 'х', 'ц', 'ч', 'ш', 'щ', 'ъ', 'ы', 'ь', 'э', 'ю', 'я']
}

/// Space and the punctuation that the built-in alphabets add.
pub open spec fn special_characters() -> Seq<char> {
    seq![' ', '.', ',', '!', '?', '-']
}

/// The decimal digits.
pub open spec fn digits() -> Seq<char> {
    seq!['0', '1', '2', '3', '4', '5', '6', '7', '8', '9']
}

/// The characters of a built-in alphabet; empty for `Input`, which has none.
pub open spec fn preset(selection: AlphabetSelect) -> Seq<char> {
    match selection {
        AlphabetSelect::Input => Seq::empty(),
        AlphabetSelect::CyrillicAndSpecial => cyrillic_lower() + special_characters(),
        AlphabetSelect::LatinLower => latin_lower(),
        AlphabetSelect::Numbers => digits(),
        AlphabetSelect::Combined => latin_lower() + cyrillic_lower() + digits() + special_characters()
            + seq!['\n', '\t'],
    }
}

fn latin_lower_chars() -> (r: Vec<char>)
    ensures
        r@ == latin_lower(),
{
    vec!['a', 'b', 'c', 'd', 'e', 'f', 'g', 'h', 'i', 'j', 'k', 'l', 'm', 'n', 'o', 'p', 'q', 'r', 's', 't', 'u', 'v', 'w', 'x', 'y', 'z']
}

fn cyrillic_lower_chars() -> (r: Vec<char>)
    ensures
        r@ == cyrillic_lower(),
{
    vec!['а', 'б', 'в', 'г', 'д', 'е', 'ё', 'ж', 'з', 'и', 'й', 'к', 'л', 'м', 'н', 'о', 'п', 'р', 'с', 'т', 'у', 'ф', 'х', 'ц', 'ч', 'ш', 'щ', 'ъ', 'ы', 'ь', 'э', 'ю', 'я']
}

fn special_chars() -> (r: Vec<char>)
    ensures
        r@ == special_characters(),
{
    vec![' ', '.', ',', '!', '?', '-']
}

fn digit_chars() -> (r: Vec<char>)
    ensures
        r@ == digits(),
{
    vec!['0', '1', '2', '3', '4', '5', '6', '7', '8', '9']
}

/// A lowercase letter of the Russian alphabet: `а` to `я` (U+0430 to U+044F) or `ё` (U+0451).
pub open spec fn is_russian_lowercase(c: char) -> bool {
    ('\u{430}' <= c && c <= '\u{44F}') || c == '\u{451}'
}

/// A lowercase letter of the latin alphabet.
pub open spec fn is_latin_lowercase(c: char) -> bool {
    'a' <= c && c <= 'z'
}

/// An ASCII decimal digit.
pub open spec fn is_decimal_digit(c: char) -> bool {
    '0' <= c && c <= '9'
}

/// Space and the punctuation marks `.`, `,`, `!`, `?` and `-`.
pub open spec fn is_space_or_punctuation(c: char) -> bool {
    c == ' ' || c == '.' || c == ',' || c == '!' || c == '?' || c == '-'
}

/// A concatenation holds exactly what its parts hold.
proof fn lemma_concat_contains(a: Seq<char>, b: Seq<char>, c: char)
    ensures
        (a + b).contains(c) <==> a.contains(c) || b.contains(c),
{
    if a.contains(c) {
        let i = choose|i: int| 0 <= i < a.len() && a[i] == c;
        assert((a + b)[i] == c);
    }
    if b.contains(c) {
        let i = choose|i: int| 0 <= i < b.len() && b[i] == c;
        assert((a + b)[a.len() + i] == c);
    }
    if (a + b).contains(c) {
        let i = choose|i: int| 0 <= i < (a + b).len() && (a + b)[i] == c;
        if i < a.len() {
            assert(a[i] == c);
        } else {
            assert(b[i - a.len()] == c);
        }
    }
}

/// The built-in alphabets, described by the characters they hold: the lowercase latin letters;
/// all 33 lowercase Russian letters (`ё` and `щ` among them) with space and `.,!?-`; the ten
/// digits; and all of these together with newline and tab.
pub proof fn lemma_builtin_alphabets()
    ensures
        latin_lower().len() == 26,
        forall|c: char| #[trigger] latin_lower().contains(c) <==> is_latin_lowercase(c),
        cyrillic_lower().len() == 33,
        forall|c: char| #[trigger] cyrillic_lower().contains(c) <==> is_russian_lowercase(c),
        digits().len() == 10,
        forall|c: char| #[trigger] digits().contains(c) <==> is_decimal_digit(c),
        preset(AlphabetSelect::LatinLower).len() == 26,
        forall|c: char| #[trigger]
            preset(AlphabetSelect::LatinLower).contains(c) <==> is_latin_lowercase(c),
        preset(AlphabetSelect::CyrillicAndSpecial).len() == 39,
        forall|c: char| #[trigger]
            preset(AlphabetSelect::CyrillicAndSpecial).contains(c) <==> (is_russian_lowercase(c)
                || is_space_or_punctuation(c)),
        preset(AlphabetSelect::CyrillicAndSpecial).contains('щ'),
        preset(AlphabetSelect::Numbers).len() == 10,
        forall|c: char| #[trigger]
            preset(AlphabetSelect::Numbers).contains(c) <==> is_decimal_digit(c),
        preset(AlphabetSelect::Combined).len() == 77,
        forall|c: char| #[trigger]
            preset(AlphabetSelect::Combined).contains(c) <==> (is_latin_lowercase(c)
                || is_russian_lowercase(c) || is_decimal_digit(c) || is_space_or_punctuation(c)
                || c == '\n' || c == '\t'),
        preset(AlphabetSelect::Input).len() == 0,
{
    let lat = latin_lower();
    let cyr = cyrillic_lower();
    let dig = digits();
    let spe = special_characters();
    let nt = seq!['\n', '\t'];
    assert forall|c: char| lat.contains(c) <==> is_latin_lowercase(c) by {
        if is_latin_lowercase(c) {
            assert(lat[c as int - 'a' as int] == c);
        }
        if lat.contains(c) {
            let i = choose|i: int| 0 <= i < lat.len() && lat[i] == c;
        }
    }
    assert forall|c: char| cyr.contains(c) <==> is_russian_lowercase(c) by {
        if is_russian_lowercase(c) {
            let i: int = if c == '\u{451}' {
                6
            } else if (c as int) < 0x436 {
                c as int - 0x430
            } else {
                c as int - 0x430 + 1
            };
            assert(cyr[i] == c);
        }
        if cyr.contains(c) {
            let i = choose|i: int| 0 <= i < cyr.len() && cyr[i] == c;
        }
    }
    assert forall|c: char| dig.contains(c) <==> is_decimal_digit(c) by {
        if is_decimal_digit(c) {
            assert(dig[c as int - '0' as int] == c);
        }
        if dig.contains(c) {
            let i = choose|i: int| 0 <= i < dig.len() && dig[i] == c;
        }
    }
    assert forall|c: char| spe.contains(c) <==> is_space_or_punctuation(c) by {
        if c == ' ' {
            assert(spe[0] == c);
        } else if c == '.' {
            assert(spe[1] == c);
        } else if c == ',' {
            assert(spe[2] == c);
        } else if c == '!' {
            assert(spe[3] == c);
        } else if c == '?' {
            assert(spe[4] == c);
        } else if c == '-' {
            assert(spe[5] == c);
        }
        if spe.contains(c) {
            let i = choose|i: int| 0 <= i < spe.len() && spe[i] == c;
        }
    }
    assert forall|c: char| nt.contains(c) <==> (c == '\n' || c == '\t') by {
        if c == '\n' {
            assert(nt[0] == c);
        } else if c == '\t' {
            assert(nt[1] == c);
        }
        if nt.contains(c) {
            let i = choose|i: int| 0 <= i < nt.len() && nt[i] == c;
        }
    }
    assert forall|c: char| #[trigger]
        preset(AlphabetSelect::CyrillicAndSpecial).contains(c) <==> (is_russian_lowercase(c)
            || is_space_or_punctuation(c)) by {
        lemma_concat_contains(cyr, spe, c);
    }
    assert(cyr.contains('щ')) by {
        assert(is_russian_lowercase('щ'));
    }
    lemma_concat_contains(cyr, spe, 'щ');
    assert forall|c: char| #[trigger]
        preset(AlphabetSelect::Combined).contains(c) <==> (is_latin_lowercase(c)
            || is_russian_lowercase(c) || is_decimal_digit(c) || is_space_or_punctuation(c)
            || c == '\n' || c == '\t') by {
        lemma_concat_contains(lat, cyr, c);
        lemma_concat_contains(lat + cyr, dig, c);
        lemma_concat_contains(lat + cyr + dig, spe, c);
        lemma_concat_contains(lat + cyr + dig + spe, nt, c);
    }
}

/// Shuffles `chars` in place with `rand::seq::SliceRandom::shuffle` and a fresh
/// `rand::rngs::ThreadRng`. The crate's source swaps elements (Fisher-Yates), so the result is
/// a permutation of the input; which permutation is left to chance and not stated. Creating the
/// `ThreadRng` panics if the operating system's random source fails while seeding it; that
/// depends on the machine, not on the input, and is not excluded here.
#[verifier::external_body]
fn shuffle_chars(chars: &mut Vec<char>)
    ensures
        final(chars)@.to_multiset() == old(chars)@.to_multiset(),
        final(chars)@.len() == old(chars)@.len(),
{
    let mut rng = rand::rngs::ThreadRng::default();
    rand::seq::SliceRandom::shuffle(chars.as_mut_slice(), &mut rng);
}

impl AlphabetSelect {
    /// The characters of the chosen built-in alphabet, shuffled when `shuffle` is set; `None`
    /// for `Input`, whose characters come from the user.
    pub fn alphabet(&self, shuffle: bool) -> (r: Option<Vec<char>>)
        ensures
            r is None <==> *self == AlphabetSelect::Input,
            r matches Some(chars) ==> (if shuffle {
                chars@.to_multiset() == preset(*self).to_multiset() && chars@.len() == preset(*self).len()
            } else {
                chars@ == preset(*self)
            }),
    {
        let mut chars = match self {
            AlphabetSelect::Input => {
                return None;
            },
            AlphabetSelect::CyrillicAndSpecial => {
                let mut v = cyrillic_lower_chars();
                let mut rest = special_chars();
                v.append(&mut rest);
                assert(v@ =~= preset(*self));
                v
            },
            AlphabetSelect::LatinLower => latin_lower_chars(),
            AlphabetSelect::Numbers => digit_chars(),
            AlphabetSelect::Combined => {
                let mut v = latin_lower_chars();
                let mut cyrillic = cyrillic_lower_chars();
                let mut numbers = digit_chars();
                let mut special = special_chars();
                v.append(&mut cyrillic);
                v.append(&mut numbers);
                v.append(&mut special);
                v.push('\n');
                v.push('\t');
                assert(v@ =~= preset(*self));
                v
            },
        };
        assert(chars@ == preset(*self));
        if shuffle {
            shuffle_chars(&mut chars);
        }
        Some(chars)
    }
}

/// What `String::from_utf8_lossy` makes of `bytes`: their UTF-8 decoding, each invalid sequence
/// replaced by U+FFFD.
pub uninterp spec fn lossy_utf8(bytes: Seq<u8>) -> Seq<char>;

/// Decodes `bytes` with `String::from_utf8_lossy`. Its documentation gives the result's text,
/// here named `lossy_utf8`; for valid UTF-8 it is the plain decoding, which is stated.
#[verifier::external_body]
fn decode_utf8_lossy(bytes: &[u8]) -> (s: String)
    ensures
        s@ == lossy_utf8(bytes@),
        valid_utf8(bytes@) ==> s@ == decode_utf8(bytes@),
{
    String::from_utf8_lossy(bytes).into_owned()
}

/// What `str::to_lowercase` makes of a text: each character replaced by its Unicode lowercase
/// mapping.
pub uninterp spec fn lowercase(text: Seq<char>) -> Seq<char>;

/// Lowercases `text` with `str::to_lowercase` and returns its characters; the result is named
/// `lowercase`, as the Unicode tables behind it take more than a few lines.
#[verifier::external_body]
fn lowercase_chars(text: &str) -> (r: Vec<char>)
    ensures
        r@ == lowercase(text@),
{
    text.to_lowercase().chars().collect()
}

/// The characters of `text` that the alphabet holds, in order; all of them without an alphabet.
pub open spec fn keep_allowed(text: Seq<char>, allowed: Option<&CharacterSet>) -> Seq<char> {
    match allowed {
        None => text,
        Some(cs) => text.filter(|c: char| cs.contains(c)),
    }
}

/// The text of a file's contents: decoded as UTF-8 (invalid sequences replaced), lowercased, and,
/// when an alphabet is given, reduced to the characters it holds.
pub fn text_from_file(bytes: &[u8], allowed: Option<&CharacterSet>) -> (r: Vec<char>)
    requires
        allowed matches Some(cs) ==> cs.wf(),
    ensures
        r@ == keep_allowed(lowercase(lossy_utf8(bytes@)), allowed),
{
    let decoded = decode_utf8_lossy(bytes);
    let lowered = lowercase_chars(decoded.as_str());
    match allowed {
        None => lowered,
        Some(cs) => {
            let ghost pred = |c: char| cs.contains(c);
            let mut kept: Vec<char> = Vec::new();
            let mut j: usize = 0;
            while j < lowered.len()
                invariant
                    0 <= j <= lowered.len(),
                    cs.wf(),
                    pred == (|c: char| cs.contains(c)),
                    kept@ == lowered@.subrange(0, j as int).filter(pred),
                decreases lowered.len() - j,
            {
                let c = lowered[j];
                proof {
                    let next = lowered@.subrange(0, j as int + 1);
                    assert(next.drop_last() == lowered@.subrange(0, j as int));
                    assert(next.last() == c);
                    reveal(Seq::filter);
                }
                if cs.has(c) {
                    kept.push(c);
                }
                j = j + 1;
            }
            assert(lowered@.subrange(0, lowered.len() as int) == lowered@);
            kept
        },
    }
}

/// All characters of `s` are ASCII digits.
pub open spec fn all_digits(s: Seq<char>) -> bool {
    forall|i: int| 0 <= i < s.len() ==> '0' <= #[trigger] s[i] <= '9'
}

/// The value of a string of ASCII digits, read in base ten.
pub open spec fn digits_value(s: Seq<char>) -> int
    decreases s.len(),
{
    if s.len() == 0 {
        0
    } else {
        digits_value(s.drop_last()) * 10 + (s.last() as int - '0' as int)
    }
}

/// What `str::parse::<isize>` accepts, as its documentation puts it: an optional `+` or `-`
/// followed by at least one ASCII digit and nothing else, whose value fits in an `isize`.
pub open spec fn decimal_isize(s: Seq<char>) -> Option<int> {
    let negative = s.len() > 0 && s[0] == '-';
    let body = if s.len() > 0 && (s[0] == '-' || s[0] == '+') {
        s.drop_first()
    } else {
        s
    };
    let value = if negative {
        -digits_value(body)
    } else {
        digits_value(body)
    };
    if body.len() > 0 && all_digits(body) && in_isize(value) {
        Some(value)
    } else {
        None
    }
}

/// Parses `text` with `str::parse::<isize>`, as `decimal_isize` states it.
#[verifier::external_body]
fn parse_isize(text: &str) -> (r: Option<isize>)
    ensures
        r is None <==> decimal_isize(text@) is None,
        r matches Some(v) ==> decimal_isize(text@) == Some(v as int),
{
    text.parse::<isize>().ok()
}

/// The integer that `text` spells in base ten (optional sign, digits only); `None` when it spells
/// none or one outside `isize`.
pub fn parse_number(text: &str) -> (r: Option<isize>)
    ensures
        r is None <==> decimal_isize(text@) is None,
        r matches Some(v) ==> decimal_isize(text@) == Some(v as int),
{
    parse_isize(text)
}

} // verus!
