//! A byte-pair-encoding tokenizer of a published model, behind the same
//! encode and decode operations as the vocabulary tokenizers.

use crate::tokenizer::{Tokenizer, TokenizerError};
use std::collections::HashSet;
use tiktoken_rs::CoreBPE;
use vstd::prelude::*;

verus! {

#[verifier::external_type_specification]
#[verifier::external_body]
pub struct ExCoreBPE(CoreBPE);

/// Whether tiktoken knows a byte-pair encoding for the model of this name.
pub uninterp spec fn bpe_model_known(model: Seq<char>) -> bool;

/// The ids that the model's byte-pair encoding gives `text`, with no
/// special token allowed; `None` where the encoder reports an error.
pub uninterp spec fn bpe_encoding(model: Seq<char>, text: Seq<char>) -> Option<Seq<u32>>;

/// The text that the model's byte-pair encoding makes of `ids`; `None` for
/// an unknown id or bytes that are not UTF-8.
pub uninterp spec fn bpe_decoding(model: Seq<char>, ids: Seq<u32>) -> Option<Seq<char>>;

/// Relies on `tiktoken_rs::bpe_for_model`: it finds the encoding from the
/// model name alone, tables built into the crate.
#[verifier::external_body]
fn bpe_for_model(model: &str) -> (r: Option<&'static CoreBPE>)
    ensures
        r is Some == bpe_model_known(model@),
{
    tiktoken_rs::bpe_for_model(model).ok()
}

/// A byte-pair tokenizer, with the name of the model whose tables it uses.
pub struct UnsafeBPETokenizer {
    tokenizer: &'static CoreBPE,
    model: String,
}

/// Relies on `CoreBPE::encode` with an empty set of allowed special tokens:
/// the ids depend on the model's tables and the text alone.
#[verifier::external_body]
fn bpe_encode(t: &UnsafeBPETokenizer, text: &str) -> (r: Option<Vec<u32>>)
    ensures
        match r {
            Some(v) => bpe_encoding(t.model_name(), text@) == Some(v@),
            None => bpe_encoding(t.model_name(), text@) is None,
        },
{
    t.tokenizer.encode(text, &HashSet::new()).ok().map(|p| p.0)
}

/// Relies on `CoreBPE::decode`: the text of the ids' bytes under the
/// model's tables, or an error for an unknown id or invalid UTF-8.
#[verifier::external_body]
fn bpe_decode(t: &UnsafeBPETokenizer, ids: &Vec<u32>) -> (r: Option<String>)
    ensures
        match r {
            Some(s) => bpe_decoding(t.model_name(), ids@) == Some(s@),
            None => bpe_decoding(t.model_name(), ids@) is None,
        },
{
    t.tokenizer.decode(ids).ok()
}

/// Ids as `usize`.
pub open spec fn widened(v: Seq<u32>) -> Seq<usize> {
    v.map_values(|x: u32| x as usize)
}

/// Every id fits the encoder's id type.
pub open spec fn fits_u32(ids: Seq<usize>) -> bool {
    forall|i: int| 0 <= i < ids.len() ==> #[trigger] ids[i] <= u32::MAX
}

impl UnsafeBPETokenizer {
    /// The model name.
    pub closed spec fn model_name(&self) -> Seq<char> {
        self.model@
    }

    /// The tokenizer of the model `model_name`, where tiktoken knows one.
    pub fn new(model_name: &str) -> (r: Option<Self>)
        ensures
            r is Some == bpe_model_known(model_name@),
            r matches Some(t) ==> t.model_name() == model_name@,
    {
        match bpe_for_model(model_name) {
            Some(tokenizer) => Some(UnsafeBPETokenizer { tokenizer, model: model_name.to_owned() }),
            None => None,
        }
    }
}

impl Tokenizer for UnsafeBPETokenizer {
    open spec fn encoding(&self, text: Seq<char>) -> Result<Seq<usize>, TokenizerError> {
        match bpe_encoding(self.model_name(), text) {
            Some(v) => Ok(widened(v)),
            None => Err(TokenizerError::Rejected),
        }
    }

    open spec fn decoding(&self, ids: Seq<usize>) -> Result<Seq<char>, TokenizerError> {
        if !fits_u32(ids) {
            Err(TokenizerError::UnknownId)
        } else {
            match bpe_decoding(self.model_name(), ids.map_values(|x: usize| x as u32)) {
                Some(s) => Ok(s),
                None => Err(TokenizerError::Rejected),
            }
        }
    }

    fn encode(&self, text: String) -> (r: Result<Vec<usize>, TokenizerError>) {
        match bpe_encode(self, text.as_str()) {
            None => Err(TokenizerError::Rejected),
            Some(v) => {
                let mut out: Vec<usize> = Vec::new();
                let mut k: usize = 0;
                while k < v.len()
                    invariant
                        k <= v@.len(),
                        out@ == widened(v@.subrange(0, k as int)),
                    decreases v@.len() - k,
                {
                    out.push(v[k] as usize);
                    assert(widened(v@.subrange(0, k + 1)) =~= widened(v@.subrange(0, k as int)).push(
                        v@[k as int] as usize,
                    ));
                    k += 1;
                }
                assert(v@.subrange(0, k as int) =~= v@);
                Ok(out)
            },
        }
    }

    fn decode(&self, ids: Vec<usize>) -> (r: Result<String, TokenizerError>) {
        let mut narrow: Vec<u32> = Vec::new();
        let mut k: usize = 0;
        while k < ids.len()
            invariant
                k <= ids@.len(),
                forall|i: int| 0 <= i < k ==> #[trigger] ids@[i] <= u32::MAX,
                narrow@ == ids@.subrange(0, k as int).map_values(|x: usize| x as u32),
            decreases ids@.len() - k,
        {
            if ids[k] > 4294967295 {
                assert(!fits_u32(ids@));
                return Err(TokenizerError::UnknownId);
            }
            narrow.push(ids[k] as u32);
            assert(ids@.subrange(0, k + 1).map_values(|x: usize| x as u32) =~= ids@.subrange(
                0,
                k as int,
            ).map_values(|x: usize| x as u32).push(ids@[k as int] as u32));
            k += 1;
        }
        assert(ids@.subrange(0, k as int) =~= ids@);
        match bpe_decode(self, &narrow) {
            Some(s) => Ok(s),
            None => Err(TokenizerError::Rejected),
        }
    }
}

} // verus!
