use vstd::prelude::*;

verus! {

#[verifier::external_type_specification]
#[verifier::external_body]
pub struct ExCoreBPE(tiktoken_rs::CoreBPE);

/// The number of tokens the cl100k_base byte-pair encoding assigns to a
/// text, special tokens allowed; for fixed text the encoding is
/// deterministic, so this is a function of the text alone.
pub uninterp spec fn token_count_of(text: Seq<char>) -> nat;

/// Whether the encoder handles a text at all: its regex engine gives up
/// on some texts, and deterministically so, a function of the text alone.
pub uninterp spec fn token_count_ok(text: Seq<char>) -> bool;

/// A handle to the byte-pair tokenizer. Every handle is built from the
/// cl100k_base vocabulary, so every handle counts alike.
pub struct Tokenizer {
    inner: tiktoken_rs::CoreBPE,
}

impl Tokenizer {
    /// Relies on `tiktoken_rs::cl100k_base`: builds the tokenizer from
    /// the vocabulary embedded in that crate; `None` when loading it
    /// fails.
    #[verifier::external_body]
    pub fn cl100k() -> (r: Option<Tokenizer>) {
        match tiktoken_rs::cl100k_base() {
            Ok(b) => Some(Tokenizer { inner: b }),
            Err(_) => None,
        }
    }

    /// Relies on `tiktoken_rs::CoreBPE::encode` with every special token
    /// allowed, as `encode_with_special_tokens` calls it: the token ids
    /// of the text, counted; `None` exactly when the crate's regex engine
    /// gives up on the text. Both the count and whether counting succeeds
    /// depend on the text alone.
    #[verifier::external_body]
    pub(crate) fn token_count(&self, text: &str) -> (r: Option<usize>)
        ensures
            r matches Some(n) ==> n as nat == token_count_of(text@),
            r is Some == token_count_ok(text@),
    {
        let allowed = self.inner.special_tokens();
        match self.inner.encode(text, &allowed) {
            Ok((ids, _)) => Some(ids.len()),
            Err(_) => None,
        }
    }
}

} // verus!
