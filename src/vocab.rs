//! Vocabularies: a dense numbering of the tokens of a corpus.

use crate::order::{
    lemma_lex_irreflexive, lex_lt, lemma_sorted_unique, sort_tokens, string_views, strictly_sorted,
};
use crate::segment::{segment, str_views, tokenize};
use vstd::prelude::*;

verus! {

/// The last index at which `t` stands in `e`, or -1 where it stands nowhere.
pub open spec fn last_index(e: Seq<Seq<char>>, t: Seq<char>) -> int
    decreases e.len(),
{
    if e.len() == 0 {
        -1
    } else if e.last() == t {
        e.len() - 1
    } else {
        last_index(e.drop_last(), t)
    }
}

/// The index that a vocabulary with entries `e` gives to `t`: a later entry
/// of the same text takes the place of an earlier one.
pub open spec fn index_in(e: Seq<Seq<char>>, t: Seq<char>) -> Option<int> {
    if last_index(e, t) >= 0 {
        Some(last_index(e, t))
    } else {
        None
    }
}

/// The token that index `id` stands for, where the index is in use.
pub open spec fn token_at(e: Seq<Seq<char>>, id: int) -> Option<Seq<char>> {
    if 0 <= id < e.len() && last_index(e, e[id]) == id {
        Some(e[id])
    } else {
        None
    }
}

/// `e` is the vocabulary of `corpus` extended by `extra`: the distinct
/// tokens of the corpus in increasing order, then `extra` as given.
pub open spec fn is_vocabulary_of(e: Seq<Seq<char>>, corpus: Seq<char>, extra: Seq<Seq<char>>) -> bool {
    let k = e.len() - extra.len();
    &&& e.len() >= extra.len()
    &&& strictly_sorted(e.subrange(0, k))
    &&& e.subrange(0, k).to_set() == segment(corpus).to_set()
    &&& e.subrange(k, e.len() as int) == extra
}

pub open spec fn extra_views(additional: Option<Vec<String>>) -> Seq<Seq<char>> {
    match additional {
        Some(v) => string_views(v@),
        None => Seq::empty(),
    }
}

pub proof fn lemma_last_index(e: Seq<Seq<char>>, t: Seq<char>)
    ensures
        -1 <= last_index(e, t) < e.len(),
        last_index(e, t) >= 0 ==> e[last_index(e, t)] == t,
        forall|j: int| last_index(e, t) < j < e.len() ==> e[j] != t,
    decreases e.len(),
{
    if e.len() > 0 && e.last() != t {
        lemma_last_index(e.drop_last(), t);
        assert forall|j: int| last_index(e, t) < j < e.len() implies e[j] != t by {
            if j < e.len() - 1 {
                assert(e.drop_last()[j] == e[j]);
            }
        }
    }
}

/// In a sequence without repeats, each entry's last index is its own.
pub proof fn lemma_last_index_distinct(e: Seq<Seq<char>>, i: int)
    requires
        e.no_duplicates(),
        0 <= i < e.len(),
    ensures
        last_index(e, e[i]) == i,
{
    lemma_last_index(e, e[i]);
}

/// A numbering of tokens: index `i` stands for the `i`-th entry.
pub struct Vocabulary {
    tokens: Vec<String>,
}

impl View for Vocabulary {
    type V = Seq<Seq<char>>;

    closed spec fn view(&self) -> Seq<Seq<char>> {
        string_views(self.tokens@)
    }
}

impl Vocabulary {
    /// Indices fit in `usize`.
    pub proof fn lemma_len_fits(&self)
        ensures
            self@.len() <= usize::MAX,
    {
        assert(self.tokens.len() == self.tokens@.len());
    }

    /// The number of indices given out.
    pub fn len(&self) -> (r: usize)
        ensures
            r == self@.len(),
    {
        self.tokens.len()
    }

    /// The index of `token`, if the vocabulary holds it.
    pub fn index_of(&self, token: &str) -> (r: Option<usize>)
        ensures
            match r {
                Some(i) => index_in(self@, token@) == Some(i as int),
                None => index_in(self@, token@) is None,
            },
    {
        let mut k: usize = self.tokens.len();
        let t = token.to_owned();
        assert(self@.subrange(0, k as int) =~= self@);
        while k > 0
            invariant
                k <= self@.len(),
                t@ == token@,
                last_index(self@.subrange(0, k as int), token@) == last_index(self@, token@),
            decreases k,
        {
            let ghost pre = self@.subrange(0, k as int);
            if self.tokens[k - 1] == t {
                assert(pre.last() == self@[k - 1]);
                return Some(k - 1);
            }
            assert(pre.drop_last() =~= self@.subrange(0, k - 1));
            k -= 1;
        }
        None
    }

    /// The token that `id` stands for, if the index is in use.
    pub fn token_of(&self, id: usize) -> (r: Option<&str>)
        ensures
            match r {
                Some(t) => token_at(self@, id as int) == Some(t@),
                None => token_at(self@, id as int) is None,
            },
    {
        if id >= self.tokens.len() {
            return None;
        }
        let t = self.tokens[id].as_str();
        match self.index_of(t) {
            Some(i) => if i == id {
                Some(t)
            } else {
                None
            },
            None => None,
        }
    }
}

/// The distinct strings of `strings`, each once.
pub fn uniq(strings: Vec<&str>) -> (r: Vec<String>)
    ensures
        string_views(r@).no_duplicates(),
        string_views(r@).to_set() == str_views(strings@).to_set(),
{
    let mut out: Vec<String> = Vec::new();
    let mut k: usize = 0;
    while k < strings.len()
        invariant
            k <= strings@.len(),
            string_views(out@).no_duplicates(),
            string_views(out@).to_set() == str_views(strings@.subrange(0, k as int)).to_set(),
        decreases strings@.len() - k,
    {
        let t = strings[k].to_owned();
        let mut j: usize = 0;
        while j < out.len() && out[j] != t
            invariant
                j <= out@.len(),
                forall|q: int| 0 <= q < j ==> out@[q]@ != t@,
            decreases out@.len() - j,
        {
            j += 1;
        }
        let ghost old_out = string_views(out@);
        let ghost pre = str_views(strings@.subrange(0, k as int));
        assert(str_views(strings@.subrange(0, k + 1)) =~= pre.push(t@));
        if j == out.len() {
            out.push(t);
            assert(string_views(out@) =~= old_out.push(t@));
        } else {
            assert(old_out[j as int] == t@);
        }
        let ghost nv = string_views(out@);
        assert forall|x: Seq<char>| #[trigger]
            nv.to_set().contains(x) <==> pre.push(t@).to_set().contains(x) by {
            if nv.to_set().contains(x) {
                let m = choose|m: int| 0 <= m < nv.len() && nv[m] == x;
                if m < old_out.len() {
                    assert(old_out[m] == x);
                    assert(old_out.to_set().contains(x));
                    let q = choose|q: int| 0 <= q < pre.len() && pre[q] == x;
                    assert(pre.push(t@)[q] == x);
                } else {
                    assert(pre.push(t@)[pre.len() as int] == x);
                }
            }
            if pre.push(t@).to_set().contains(x) {
                let m = choose|m: int| 0 <= m < pre.len() + 1 && pre.push(t@)[m] == x;
                if m < pre.len() {
                    assert(pre[m] == x);
                    assert(pre.to_set().contains(x));
                    assert(old_out.to_set().contains(x));
                    let q = choose|q: int| 0 <= q < old_out.len() && old_out[q] == x;
                    assert(nv[q] == x);
                } else if j == old_out.len() {
                    assert(nv[j as int] == x);
                } else {
                    assert(nv[j as int] == x);
                }
            }
        }
        assert(nv.to_set() =~= pre.push(t@).to_set());
        k += 1;
    }
    assert(strings@.subrange(0, strings@.len() as int) =~= strings@);
    out
}

/// The vocabulary of `corpus`: its distinct tokens in increasing order,
/// followed by `additional_tokens` in the order given.
pub fn construct_vocab(corpus: &str, additional_tokens: Option<Vec<String>>) -> (r: Vocabulary)
    ensures
        is_vocabulary_of(r@, corpus@, extra_views(additional_tokens)),
{
    let mut all_words = sort_tokens(uniq(tokenize(corpus)));
    let ghost sorted = string_views(all_words@);
    match additional_tokens {
        Some(tokens) => {
            let mut tokens = tokens;
            all_words.append(&mut tokens);
        },
        None => {},
    }
    let r = Vocabulary { tokens: all_words };
    let ghost k = sorted.len() as int;
    assert(r@.subrange(0, k) =~= sorted);
    assert(r@.subrange(k, r@.len() as int) =~= extra_views(additional_tokens));
    r
}

/// Why fetching a corpus failed.
#[derive(Debug)]
pub struct FetchError {
    pub message: String,
}

/// Builds the vocabulary of a corpus fetched from a URL; a failed fetch is
/// handed back as it is.
pub fn construct_vocab_from_url(
    fetched: Result<String, FetchError>,
    additional_tokens: Option<Vec<String>>,
) -> (r: Result<Vocabulary, FetchError>)
    ensures
        match fetched {
            Ok(text) => r matches Ok(v) && is_vocabulary_of(
                v@,
                text@,
                extra_views(additional_tokens),
            ),
            Err(e) => r == Err::<Vocabulary, FetchError>(e),
        },
{
    match fetched {
        Ok(text) => Ok(construct_vocab(text.as_str(), additional_tokens)),
        Err(e) => Err(e),
    }
}

/// Where a corpus comes from: text in memory, or a URL together with what
/// fetching it gave.
pub enum Corpus {
    Raw(String),
    Url { url: String, fetched: Result<String, FetchError> },
}

impl Corpus {
    /// The vocabulary of the corpus text extended by `additional_tokens`; a
    /// failed fetch is reported.
    pub fn to_vocab(&self, additional_tokens: Option<Vec<String>>) -> (r: Result<
        Vocabulary,
        FetchError,
    >)
        ensures
            match self {
                Corpus::Raw(text) => r matches Ok(v) && is_vocabulary_of(
                    v@,
                    text@,
                    extra_views(additional_tokens),
                ),
                Corpus::Url { fetched: Ok(text), .. } => r matches Ok(v) && is_vocabulary_of(
                    v@,
                    text@,
                    extra_views(additional_tokens),
                ),
                Corpus::Url { fetched: Err(e), .. } => r == Err::<Vocabulary, FetchError>(*e),
            },
    {
        match self {
            Corpus::Raw(text) => Ok(construct_vocab(text.as_str(), additional_tokens)),
            Corpus::Url { fetched, .. } => match fetched {
                Ok(text) => Ok(construct_vocab(text.as_str(), additional_tokens)),
                Err(e) => Err(FetchError { message: e.message.clone() }),
            },
        }
    }
}

/// Building a vocabulary is deterministic: two vocabularies built from the
/// same corpus and the same additional tokens are identical.
pub proof fn lemma_vocabulary_deterministic(
    a: Vocabulary,
    b: Vocabulary,
    corpus: Seq<char>,
    extra: Seq<Seq<char>>,
)
    requires
        is_vocabulary_of(a@, corpus, extra),
        is_vocabulary_of(b@, corpus, extra),
    ensures
        a@ == b@,
        forall|t: Seq<char>| index_in(a@, t) == index_in(b@, t),
        forall|i: int| token_at(a@, i) == token_at(b@, i),
{
    let ka = a@.len() - extra.len();
    let kb = b@.len() - extra.len();
    lemma_sorted_unique(a@.subrange(0, ka), b@.subrange(0, kb));
    assert(a@ =~= a@.subrange(0, ka) + extra);
    assert(b@ =~= b@.subrange(0, kb) + extra);
}

/// Index and token undo each other: where the additional tokens are
/// distinct and none is a token of the corpus, every index below the
/// vocabulary's size stands for a token whose index is that index.
pub proof fn lemma_vocabulary_bijective(v: Vocabulary, corpus: Seq<char>, extra: Seq<Seq<char>>)
    requires
        is_vocabulary_of(v@, corpus, extra),
        extra.no_duplicates(),
        forall|i: int| 0 <= i < extra.len() ==> !segment(corpus).contains(#[trigger] extra[i]),
    ensures
        forall|i: int|
            0 <= i < v@.len() ==> #[trigger] token_at(v@, i) == Some(v@[i]) && index_in(
                v@,
                v@[i],
            ) == Some(i),
{
    let e = v@;
    let k = e.len() - extra.len();
    assert forall|i: int, j: int| 0 <= i < e.len() && 0 <= j < e.len() && i != j implies e[i]
        != e[j] by {
        let (lo, hi) = if i < j { (i, j) } else { (j, i) };
        if hi < k {
            let sub = e.subrange(0, k);
            assert(lex_lt(sub[lo], sub[hi]));
            lemma_lex_irreflexive(e[lo]);
        } else if lo >= k {
            assert(extra[lo - k] != extra[hi - k]);
        } else {
            assert(e.subrange(0, k)[lo] == e[lo]);
            assert(e.subrange(0, k).to_set().contains(e[lo]));
            assert(segment(corpus).to_set().contains(e[lo]));
            assert(extra[hi - k] == e[hi]);
        }
    }
    assert forall|i: int| 0 <= i < v@.len() implies #[trigger] token_at(v@, i) == Some(v@[i])
        && index_in(v@, v@[i]) == Some(i) by {
        lemma_last_index_distinct(e, i);
    }
}

} // verus!
