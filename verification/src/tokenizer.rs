//! Token counting.
//!
//! Counting is delegated to the fixed `o200k_base` byte-pair encoding of
//! the `tiktoken_rs` crate.  For a fixed encoding the token sequence of a
//! text is a function of the text alone, so the count is given a name,
//! `token_count_of`, and every contract in the library speaks of that
//! name.  Selecting an encoding by model name or environment variable is
//! deliberately not offered: the count would then depend on process
//! state, and `token_count_of` could no longer name it.

use vstd::prelude::*;

verus! {

#[verifier::external_type_specification]
#[verifier::external_body]
pub struct ExCoreBPE(tiktoken_rs::CoreBPE);

/// The number of tokens that the `o200k_base` encoding assigns to a text.
pub uninterp spec fn token_count_of(s: Seq<char>) -> nat;

/// A handle on the process's token counter.
pub struct Tokenizer {
    bpe: tiktoken_rs::CoreBPE,
}

impl Tokenizer {
    /// Relies on `tiktoken_rs::o200k_base`: builds the fixed `o200k_base`
    /// encoding from data embedded in that crate; fails only if that data
    /// cannot be parsed.
    #[verifier::external_body]
    pub fn new() -> (r: Option<Tokenizer>)
    {
        match tiktoken_rs::o200k_base() {
            Ok(bpe) => Some(Tokenizer { bpe }),
            Err(_) => None,
        }
    }

    /// Relies on `tiktoken_rs::CoreBPE::encode_with_special_tokens`: the
    /// token sequence of a text under a fixed encoding depends on the
    /// text alone.
    #[verifier::external_body]
    pub fn count(&self, text: &str) -> (r: usize)
        ensures
            r as nat == token_count_of(text@),
    {
        self.bpe.encode_with_special_tokens(text).len()
    }
}

/// The number of tokens in the given text.
pub fn count_tokens(tok: &Tokenizer, text: &str) -> (r: usize)
    ensures
        r as nat == token_count_of(text@),
{
    tok.count(text)
}

} // verus!
