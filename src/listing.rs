//! Runnable listings: small programs over the pipeline.

use crate::bpe::{bpe_decoding, bpe_encoding, bpe_model_known, widened, UnsafeBPETokenizer};
use crate::tokenizer::{Tokenizer, TokenizerError};
use crate::vocab::{construct_vocab, is_vocabulary_of};
use vstd::prelude::*;

verus! {

/// What a listing found.
pub enum ListingOutcome {
    /// The number of indices of a corpus's vocabulary.
    VocabularySize(usize),
    /// A text, and what encoding and decoding it gave back.
    RoundTrip { input: String, decoded: String },
}

/// Why a listing could not finish.
#[derive(Debug, Clone, Copy, PartialEq, Eq, Structural)]
pub enum ListingError {
    /// No byte-pair encoding is known for the model.
    UnknownModel,
    /// Encoding or decoding failed.
    Tokenizer(TokenizerError),
}

/// A listing runs over a corpus text that the caller supplies; listings
/// that need none ignore it.
pub trait Listing {
    fn main(&self, corpus: &str) -> Result<ListingOutcome, ListingError>;
}

/// Builds the vocabulary of a corpus and reports its size.
pub struct L2_1;

/// Encodes a made-up phrase with the GPT-2 byte-pair encoding and decodes
/// it again.
pub struct E2_1;

impl Listing for L2_1 {
    fn main(&self, corpus: &str) -> (r: Result<ListingOutcome, ListingError>)
        ensures
            r matches Ok(ListingOutcome::VocabularySize(n)) && exists|e: Seq<Seq<char>>|
                is_vocabulary_of(e, corpus@, Seq::empty()) && e.len() == n,
    {
        let vocab = construct_vocab(corpus, None);
        Ok(ListingOutcome::VocabularySize(vocab.len()))
    }
}

impl Listing for E2_1 {
    fn main(&self, corpus: &str) -> (r: Result<ListingOutcome, ListingError>)
        ensures
            !bpe_model_known("gpt2"@) ==> r == Err::<ListingOutcome, ListingError>(
                ListingError::UnknownModel,
            ),
            bpe_model_known("gpt2"@) ==> match bpe_encoding("gpt2"@, "Akwirw ier"@) {
                None => r == Err::<ListingOutcome, ListingError>(
                    ListingError::Tokenizer(TokenizerError::Rejected),
                ),
                Some(ids) => match bpe_decoding("gpt2"@, ids) {
                    Some(s) => r matches Ok(ListingOutcome::RoundTrip { input, decoded }) && input@
                        == "Akwirw ier"@ && decoded@ == s,
                    None => r == Err::<ListingOutcome, ListingError>(
                        ListingError::Tokenizer(TokenizerError::Rejected),
                    ),
                },
            },
    {
        let input = "Akwirw ier";
        let tokenizer = match UnsafeBPETokenizer::new("gpt2") {
            Some(t) => t,
            None => {
                return Err(ListingError::UnknownModel);
            },
        };
        let encoded = match tokenizer.encode(input.to_owned()) {
            Ok(ids) => ids,
            Err(e) => {
                return Err(ListingError::Tokenizer(e));
            },
        };
        proof {
            let v = bpe_encoding("gpt2"@, "Akwirw ier"@)->0;
            assert(widened(v).map_values(|x: usize| x as u32) =~= v);
        }
        match tokenizer.decode(encoded) {
            Ok(decoded) => Ok(ListingOutcome::RoundTrip { input: input.to_owned(), decoded }),
            Err(e) => Err(ListingError::Tokenizer(e)),
        }
    }
}

} // verus!
