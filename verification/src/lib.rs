//! Classical substitution, affine and recursive affine ciphers over a chosen alphabet,
//! with the modular arithmetic they rest on.
pub mod ciphers;
pub mod util;

use vstd::prelude::*;

verus! {

/// The ciphers the program offers.
#[derive(Clone, Copy, Debug, PartialEq, Eq, Structural)]
pub enum SupportedCiphers {
    SubstitutionCipher,
    AffineCipher,
    AffineRecursiveCipher,
}

impl SupportedCiphers {
    /// The text a menu shows for this choice.
    pub fn label(&self) -> (r: &'static str)
        ensures
            r@ == (match *self {
                SupportedCiphers::SubstitutionCipher => "Substitution Cipher"@,
                SupportedCiphers::AffineCipher => "Affine Cipher"@,
                SupportedCiphers::AffineRecursiveCipher => "Affine Recursive Cipher"@,
            }),
    {
        match self {
            SupportedCiphers::SubstitutionCipher => "Substitution Cipher",
            SupportedCiphers::AffineCipher => "Affine Cipher",
            SupportedCiphers::AffineRecursiveCipher => "Affine Recursive Cipher",
        }
    }
}

} // verus!
