//! Tokenizers: text to ids and back over a vocabulary.

use crate::segment::{segment, str_views, tokenize};
use crate::spacing::{join_spaced, tighten, tighten_spacing};
use crate::vocab::{
    extra_views, index_in, is_vocabulary_of, last_index, lemma_last_index, token_at,
    Corpus, FetchError, Vocabulary,
};
use vstd::prelude::*;

verus! {

/// Why encoding or decoding failed.
#[derive(Debug, Clone, Copy, PartialEq, Eq, Structural)]
pub enum TokenizerError {
    /// A token of the text has no index.
    UnknownToken,
    /// The vocabulary lacks the marker that stands for unknown tokens.
    MissingUnknownMarker,
    /// An id stands for no token.
    UnknownId,
    /// A byte-pair encoder refused the input.
    Rejected,
}

pub open spec fn ids_result(r: Result<Vec<usize>, TokenizerError>) -> Result<Seq<usize>, TokenizerError> {
    match r {
        Ok(v) => Ok(v@),
        Err(e) => Err(e),
    }
}

pub open spec fn text_result(r: Result<String, TokenizerError>) -> Result<Seq<char>, TokenizerError> {
    match r {
        Ok(s) => Ok(s@),
        Err(e) => Err(e),
    }
}

/// Converts text to ids and ids to text.
pub trait Tokenizer {
    /// What encoding `text` gives.
    spec fn encoding(&self, text: Seq<char>) -> Result<Seq<usize>, TokenizerError>;

    /// What decoding `ids` gives.
    spec fn decoding(&self, ids: Seq<usize>) -> Result<Seq<char>, TokenizerError>;

    fn encode(&self, text: String) -> (r: Result<Vec<usize>, TokenizerError>)
        ensures
            ids_result(r) == self.encoding(text@),
    ;

    fn decode(&self, ids: Vec<usize>) -> (r: Result<String, TokenizerError>)
        ensures
            text_result(r) == self.decoding(ids@),
    ;
}

/// The text of the marker that stands for tokens without an index.
pub open spec fn unknown_marker() -> Seq<char> {
    "<|unk|>"@
}

/// The text of the marker that ends a segment.
pub open spec fn end_marker() -> Seq<char> {
    "<|endoftext|>"@
}

/// Every token of `text` has an index in `e`.
pub open spec fn all_known(e: Seq<Seq<char>>, text: Seq<char>) -> bool {
    forall|i: int| 0 <= i < segment(text).len() ==> last_index(e, #[trigger] segment(text)[i]) >= 0
}

/// Strict encoding: the index of each token, or `UnknownToken` where one
/// has none.
pub open spec fn strict_encoding(e: Seq<Seq<char>>, text: Seq<char>) -> Result<Seq<usize>, TokenizerError> {
    let toks = segment(text);
    if all_known(e, text) {
        Ok(Seq::new(toks.len(), |i: int| last_index(e, toks[i]) as usize))
    } else {
        Err(TokenizerError::UnknownToken)
    }
}

/// Permissive encoding: the index of each token, or that of the unknown
/// marker where it has none; `MissingUnknownMarker` where the marker has no
/// index.
pub open spec fn permissive_encoding(e: Seq<Seq<char>>, text: Seq<char>) -> Result<Seq<usize>, TokenizerError> {
    let toks = segment(text);
    let u = last_index(e, unknown_marker());
    if u < 0 {
        Err(TokenizerError::MissingUnknownMarker)
    } else {
        Ok(
            Seq::new(
                toks.len(),
                |i: int|
                    if last_index(e, toks[i]) >= 0 {
                        last_index(e, toks[i]) as usize
                    } else {
                        u as usize
                    },
            ),
        )
    }
}

/// Decoding: the tokens of the ids joined by spaces, without the spaces
/// before closing punctuation; `UnknownId` where an id stands for no token.
pub open spec fn decoding_in(e: Seq<Seq<char>>, ids: Seq<usize>) -> Result<Seq<char>, TokenizerError> {
    if forall|i: int| 0 <= i < ids.len() ==> (#[trigger] token_at(e, ids[i] as int)) is Some {
        Ok(tighten(join_spaced(Seq::new(ids.len(), |i: int| token_at(e, ids[i] as int)->0))))
    } else {
        Err(TokenizerError::UnknownId)
    }
}

/// The index of each token, or the fallback where it has none.
pub open spec fn ids_with_fallback(e: Seq<Seq<char>>, toks: Seq<Seq<char>>, fallback: Option<usize>) -> Seq<usize> {
    toks.map_values(
        |t: Seq<char>|
            if last_index(e, t) >= 0 {
                last_index(e, t) as usize
            } else {
                match fallback {
                    Some(u) => u,
                    None => 0,
                }
            },
    )
}

fn encode_tokens(vocab: &Vocabulary, text: &str, fallback: Option<usize>) -> (r: Result<
    Vec<usize>,
    TokenizerError,
>)
    requires
        fallback matches Some(u) ==> u < vocab@.len(),
    ensures
        r is Ok ==> (r->Ok_0)@ == ids_with_fallback(vocab@, segment(text@), fallback),
        r is Ok && fallback is None ==> all_known(vocab@, text@),
        r is Err ==> fallback is None && r->Err_0 == TokenizerError::UnknownToken && !all_known(
            vocab@,
            text@,
        ),
{
    let tokens = tokenize(text);
    let ghost toks = segment(text@);
    let mut ids: Vec<usize> = Vec::new();
    let mut k: usize = 0;
    while k < tokens.len()
        invariant
            toks == segment(text@),
            str_views(tokens@) == toks,
            k <= tokens@.len(),
            fallback matches Some(u) ==> u < vocab@.len(),
            fallback is None ==> forall|i: int| 0 <= i < k ==> last_index(vocab@, #[trigger] toks[i]) >= 0,
            ids@ == ids_with_fallback(vocab@, toks.subrange(0, k as int), fallback),
        decreases tokens@.len() - k,
    {
        proof {
            lemma_last_index(vocab@, toks[k as int]);
        }
        assert(toks[k as int] == tokens@[k as int]@);
        let ghost before = ids@;
        match vocab.index_of(tokens[k]) {
            Some(i) => ids.push(i),
            None => match fallback {
                Some(u) => ids.push(u),
                None => {
                    assert(last_index(vocab@, segment(text@)[k as int]) < 0);
                    return Err(TokenizerError::UnknownToken);
                },
            },
        }
        assert(ids@ =~= ids_with_fallback(vocab@, toks.subrange(0, k + 1), fallback));
        k += 1;
    }
    assert(toks.subrange(0, k as int) =~= toks);
    Ok(ids)
}

fn decode_ids(vocab: &Vocabulary, ids: &Vec<usize>) -> (r: Result<String, TokenizerError>)
    ensures
        text_result(r) == decoding_in(vocab@, ids@),
{
    let mut joined = String::new();
    let ghost ts = Seq::new(ids@.len(), |i: int| token_at(vocab@, ids@[i] as int)->0);
    let mut k: usize = 0;
    while k < ids.len()
        invariant
            k <= ids@.len(),
            ts == Seq::new(ids@.len(), |i: int| token_at(vocab@, ids@[i] as int)->0),
            forall|i: int| 0 <= i < k ==> (#[trigger] token_at(vocab@, ids@[i] as int)) is Some,
            joined@ == join_spaced(ts.subrange(0, k as int)),
        decreases ids@.len() - k,
    {
        match vocab.token_of(ids[k]) {
            Some(t) => {
                assert(ts[k as int] == t@);
                let ghost before = joined@;
                if k > 0 {
                    joined.append(" ");
                }
                joined.append(t);
                let ghost next = ts.subrange(0, k + 1);
                assert(next.drop_last() =~= ts.subrange(0, k as int));
                if k == 0 {
                    assert(joined@ =~= join_spaced(next));
                } else {
                    proof {
                        reveal_strlit(" ");
                    }
                    assert(joined@ =~= before + seq![' '] + t@);
                    assert(joined@ =~= join_spaced(next));
                }
            },
            None => {
                return Err(TokenizerError::UnknownId);
            },
        }
        k += 1;
    }
    assert(ts.subrange(0, k as int) =~= ts);
    Ok(tighten_spacing(joined.as_str()))
}

/// A tokenizer that refuses tokens without an index.
pub struct SimpleTokenizerV1 {
    vocab: Vocabulary,
}

impl View for SimpleTokenizerV1 {
    type V = Seq<Seq<char>>;

    closed spec fn view(&self) -> Seq<Seq<char>> {
        self.vocab@
    }
}

impl SimpleTokenizerV1 {
    pub fn new(vocab: Vocabulary) -> (r: Self)
        ensures
            r@ == vocab@,
    {
        SimpleTokenizerV1 { vocab }
    }

    pub fn vocabulary(&self) -> (r: &Vocabulary)
        ensures
            r@ == self@,
    {
        &self.vocab
    }
}

impl Tokenizer for SimpleTokenizerV1 {
    open spec fn encoding(&self, text: Seq<char>) -> Result<Seq<usize>, TokenizerError> {
        strict_encoding(self@, text)
    }

    open spec fn decoding(&self, ids: Seq<usize>) -> Result<Seq<char>, TokenizerError> {
        decoding_in(self@, ids)
    }

    fn encode(&self, text: String) -> (r: Result<Vec<usize>, TokenizerError>) {
        let s = text.as_str();
        let r = encode_tokens(&self.vocab, s, None);
        proof {
            if r is Ok {
                let toks = segment(text@);
                let ids = (r->Ok_0)@;
                let want = strict_encoding(self@, text@)->Ok_0;
                assert forall|i: int| 0 <= i < toks.len() implies ids[i] == want[i] by {
                    assert(last_index(self@, segment(text@)[i]) >= 0);
                }
                assert((r->Ok_0)@ =~= strict_encoding(self@, text@)->Ok_0);
            }
        }
        r
    }

    fn decode(&self, ids: Vec<usize>) -> (r: Result<String, TokenizerError>) {
        decode_ids(&self.vocab, &ids)
    }
}

/// A tokenizer that stands the unknown marker in for tokens without an
/// index.
pub struct SimpleTokenizerV2 {
    vocab: Vocabulary,
}

impl View for SimpleTokenizerV2 {
    type V = Seq<Seq<char>>;

    closed spec fn view(&self) -> Seq<Seq<char>> {
        self.vocab@
    }
}

/// The markers that a permissive tokenizer adds to its corpus's tokens.
pub open spec fn special_tokens() -> Seq<Seq<char>> {
    seq![end_marker(), unknown_marker()]
}

impl SimpleTokenizerV2 {
    /// A tokenizer over the vocabulary of `corpus` extended by the end
    /// marker and the unknown marker; a failed fetch is reported.
    pub fn new(corpus: Corpus) -> (r: Result<Self, FetchError>)
        ensures
            match corpus {
                Corpus::Raw(text) => r matches Ok(t) && is_vocabulary_of(
                    t@,
                    text@,
                    special_tokens(),
                ),
                Corpus::Url { fetched: Ok(text), .. } => r matches Ok(t) && is_vocabulary_of(
                    t@,
                    text@,
                    special_tokens(),
                ),
                Corpus::Url { fetched: Err(e), .. } => r matches Err(e2) && e2 == e,
            },
    {
        let additional_tokens = vec!["<|endoftext|>".to_owned(), "<|unk|>".to_owned()];
        let ghost extra = Some(additional_tokens);
        assert(extra_views(extra) =~= special_tokens());
        match corpus.to_vocab(Some(additional_tokens)) {
            Ok(vocab) => Ok(SimpleTokenizerV2 { vocab }),
            Err(e) => Err(e),
        }
    }

    pub fn vocabulary(&self) -> (r: &Vocabulary)
        ensures
            r@ == self@,
    {
        &self.vocab
    }
}

impl Tokenizer for SimpleTokenizerV2 {
    open spec fn encoding(&self, text: Seq<char>) -> Result<Seq<usize>, TokenizerError> {
        permissive_encoding(self@, text)
    }

    open spec fn decoding(&self, ids: Seq<usize>) -> Result<Seq<char>, TokenizerError> {
        decoding_in(self@, ids)
    }

    fn encode(&self, text: String) -> (r: Result<Vec<usize>, TokenizerError>) {
        match self.vocab.index_of("<|unk|>") {
            None => Err(TokenizerError::MissingUnknownMarker),
            Some(u) => {
                proof {
                    lemma_last_index(self@, unknown_marker());
                }
                let r = encode_tokens(&self.vocab, text.as_str(), Some(u));
                proof {
                    if r is Ok {
                        assert((r->Ok_0)@ =~= permissive_encoding(self@, text@)->Ok_0);
                    }
                }
                r
            },
        }
    }

    fn decode(&self, ids: Vec<usize>) -> (r: Result<String, TokenizerError>) {
        decode_ids(&self.vocab, &ids)
    }
}

/// The ids of known tokens decode to those tokens.
proof fn lemma_known_ids_decode(e: Seq<Seq<char>>, text: Seq<char>, ids: Seq<usize>)
    requires
        e.len() <= usize::MAX,
        all_known(e, text),
        ids == ids_with_fallback(e, segment(text), None),
    ensures
        decoding_in(e, ids) == Ok::<Seq<char>, TokenizerError>(tighten(join_spaced(segment(text)))),
{
    let toks = segment(text);
    assert forall|i: int| 0 <= i < ids.len() implies #[trigger] token_at(e, ids[i] as int) == Some(
        toks[i],
    ) by {
        assert(last_index(e, segment(text)[i]) >= 0);
        lemma_last_index(e, toks[i]);
    }
    let ts = Seq::new(ids.len(), |i: int| token_at(e, ids[i] as int)->0);
    assert(ts =~= toks);
}

/// Encoding under the permissive policy never fails on a tokenizer built
/// with the special markers, and a token without an index gets the unknown
/// marker's index at its position.
pub proof fn lemma_permissive_fallback(
    t: SimpleTokenizerV2,
    corpus: Seq<char>,
    text: Seq<char>,
)
    requires
        is_vocabulary_of(t@, corpus, special_tokens()),
    ensures
        t.encoding(text) is Ok,
        index_in(t@, unknown_marker()) == Some(t@.len() - 1),
        forall|i: int|
            0 <= i < segment(text).len() && index_in(t@, #[trigger] segment(text)[i]) is None
                ==> t.encoding(text)->Ok_0[i] == (t@.len() - 1) as usize,
{
    let e = t@;
    assert(e.subrange(e.len() - 2, e.len() as int)[1] == e.last());
}

/// Encoding under the strict policy fails with `UnknownToken` exactly when
/// some token of the text has no index.
pub proof fn lemma_strict_failure(t: SimpleTokenizerV1, text: Seq<char>, i: int)
    requires
        0 <= i < segment(text).len(),
        index_in(t@, segment(text)[i]) is None,
    ensures
        t.encoding(text) == Err::<Seq<usize>, TokenizerError>(TokenizerError::UnknownToken),
{
}

/// On text whose tokens all have indices, decoding what strict encoding
/// gives yields the tokens joined by single spaces, without the spaces
/// before closing punctuation.
pub proof fn lemma_round_trip_strict(t: SimpleTokenizerV1, text: Seq<char>)
    requires
        all_known(t@, text),
    ensures
        t.encoding(text) is Ok,
        t.decoding(t.encoding(text)->Ok_0) == Ok::<Seq<char>, TokenizerError>(
            tighten(join_spaced(segment(text))),
        ),
{
    t.vocab.lemma_len_fits();
    let toks = segment(text);
    assert(t.encoding(text)->Ok_0 =~= ids_with_fallback(t@, toks, None));
    lemma_known_ids_decode(t@, text, t.encoding(text)->Ok_0);
}

/// The same for the permissive policy: on text whose tokens all have
/// indices, decoding what encoding gives yields the tokens joined by single
/// spaces, without the spaces before closing punctuation.
pub proof fn lemma_round_trip_permissive(t: SimpleTokenizerV2, text: Seq<char>)
    requires
        all_known(t@, text),
        index_in(t@, unknown_marker()) is Some,
    ensures
        t.encoding(text) is Ok,
        t.decoding(t.encoding(text)->Ok_0) == Ok::<Seq<char>, TokenizerError>(
            tighten(join_spaced(segment(text))),
        ),
{
    t.vocab.lemma_len_fits();
    let toks = segment(text);
    assert forall|i: int| 0 <= i < toks.len() implies t.encoding(text)->Ok_0[i] == ids_with_fallback(
        t@,
        toks,
        None,
    )[i] by {
        assert(last_index(t@, segment(text)[i]) >= 0);
    }
    assert(t.encoding(text)->Ok_0 =~= ids_with_fallback(t@, toks, None));
    lemma_known_ids_decode(t@, text, t.encoding(text)->Ok_0);
}

} // verus!
