//! musubi: a relational classical cipher.
//!
//! Instead of substituting or transposing characters, a musubi ciphertext
//! describes how each character relates to another one. One *anchor*
//! character is revealed; with the secret key, every other character is
//! recovered by following the chain of relations from the anchor.
//!
//! This is a toy cipher for love letters and puzzles, not for secrets.

use vstd::prelude::*;

pub mod alphabet;
pub mod cipher;
mod decode;
pub mod error;
pub mod graph;
pub mod key;
pub mod laws;
pub mod relation;
pub mod splash;
mod rng;
pub mod text;

pub use alphabet::Alphabet;
pub use cipher::{anchor_for, decrypt, encrypt, encrypt_chain, Anchor, Ciphertext, FORMAT_VERSION};
pub use error::{MusubiError, Result};
pub use key::{Key, KeyDocument};
pub use relation::Relation;
pub use text::trim_trailing_newline;

verus! {

/// The crate's version.
pub const VERSION: &'static str = "0.2.0";

} // verus!
