//! Errors returned by the cipher, its keys and its alphabets.

use vstd::prelude::*;

verus! {

/// Every way an operation of this crate can be refused.
#[derive(Debug, Clone, PartialEq, Eq)]
#[non_exhaustive]
pub enum MusubiError {
    /// A character that does not belong to the active alphabet.
    CharOutsideAlphabet {
        /// The offending character.
        ch: char,
    },
    /// An alphabet was constructed with no characters.
    EmptyAlphabet,
    /// An alphabet was constructed with a repeated character.
    DuplicateAlphabetChar {
        /// The repeated character.
        ch: char,
    },
    /// A key permutation does not have the alphabet's length.
    PermutationLengthMismatch {
        /// The alphabet's size.
        expected: usize,
        /// The permutation's length.
        got: usize,
    },
    /// A key permutation is not a bijection over its alphabet: it holds a
    /// character twice, or a character that is not in the alphabet.
    PermutationNotBijection,
    /// Encryption was asked for an empty plaintext.
    EmptyPlaintext,
    /// The anchor position lies past the end of the text.
    AnchorOutOfRange {
        /// The anchor position that was given.
        position: usize,
        /// The length of the text.
        length: usize,
    },
    /// A ciphertext breaks one of its structural rules.
    MalformedCiphertext {
        /// What was wrong, in words.
        reason: String,
    },
    /// A ciphertext or key document names another alphabet than expected.
    AlphabetMismatch {
        /// The identifier that was expected.
        expected: String,
        /// The identifier that was found.
        got: String,
    },
}

/// The result type of this crate.
pub type Result<T> = core::result::Result<T, MusubiError>;

} // verus!
