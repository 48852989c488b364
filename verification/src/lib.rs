//! Rename files to kebab case: the pure transform from a name to its kebab form.
//!
//! This crate is the transform layer, a function from a name to a name with no
//! filesystem access. An empty result means there is no kebab name for the input:
//! every character was punctuation, emoji or invisible, or the extension alone
//! exceeds the length budget.

use vstd::prelude::*;

pub mod alphabet;
pub mod fixed_point;
pub mod fold;
pub mod journal;
pub mod name;
pub mod plan;
pub mod protect;
pub mod rename;
pub mod separator;
pub mod text;
pub mod translit;
pub mod tree;
pub mod unicode;
pub mod walk;
pub mod word;

pub use name::{kebab, kebab_with, with_ordinal};
pub use word::{kebab_word, kebab_word_with};

verus! {

/// Longest filename the transform emits, in bytes and in UTF-16 code units.
///
/// 255 is `NAME_MAX` on ext4 (bytes) and the limit on APFS and NTFS (UTF-16 code
/// units). Both are enforced, so a name is portable across all three.
pub const DEFAULT_MAX_LENGTH: usize = 255;

/// The three knobs the transform layer admits.
#[derive(Debug, Clone, PartialEq, Eq)]
pub struct Options {
    /// Emitted between words. `-` unless you have a reason.
    pub separator: char,
    /// Narrow the output alphabet to ASCII, dropping the scripts that are otherwise
    /// kept verbatim (CJK, Thai, Arabic, Hebrew, Indic).
    pub ascii: bool,
    /// Length budget, counted in bytes and in UTF-16 code units.
    pub max_length: usize,
}

impl Options {
    /// The defaults: `-`, every script the transform keeps, 255.
    pub open spec fn spec_default() -> Options {
        Options { separator: '-', ascii: false, max_length: 255 }
    }
}

impl Default for Options {
    fn default() -> (r: Options)
        ensures
            r == Options::spec_default(),
    {
        Options { separator: '-', ascii: false, max_length: DEFAULT_MAX_LENGTH }
    }
}

} // verus!
