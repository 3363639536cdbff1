//! The errors of the tokenizer.

use vstd::prelude::*;

verus! {

/// Why an operation of the tokenizer failed.
#[derive(Clone, Debug, PartialEq, Eq)]
pub enum TokenizerError {
    /// The configuration is not usable: the vocabulary size is below 256, or
    /// the splitting pattern does not compile. The text says which.
    InvalidConfig(String),
    /// A token id to decode is neither a byte nor a recorded merge.
    UnknownToken(u32),
    /// The decoded bytes are not UTF-8; the number is the length of the longest
    /// prefix that is.
    InvalidUtf8(usize),
    /// The corpus is larger than the statistics can count.
    OversizedInput,
    /// The search for the splitting pattern gave up on a text.
    MatchFailed,
}

} // verus!
