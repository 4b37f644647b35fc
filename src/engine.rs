use vstd::prelude::*;
use crate::tokenizer::{Token, tokenize, tokens_of, token_views, max_tokens};
use crate::similarity::{Score, overlap, alignment, overlap_score, alignment_score};
use crate::select::{is_top_k, select_top_k, score_views};

verus! {

/// Which similarity a query ranks by.
#[derive(Clone, Copy, Debug, PartialEq, Eq, Structural)]
pub enum Similarity {
    /// Longest common subsequence of the tokens, in order.
    OrderSensitive,
    /// Overlap of the sets of tokens, in any order.
    OrderInsensitive,
}

/// The ways a request can be refused.
#[derive(Clone, Copy, Debug, PartialEq, Eq, Structural)]
pub enum KnnError {
    /// An uploaded element cannot be represented.
    InvalidInput,
    /// The number of neighbours asked for is negative.
    InvalidArgument,
}

impl KnnError {
    /// A short description of the error.
    pub fn message(&self) -> (r: String) {
        match self {
            KnnError::InvalidInput => String::from_str("invalid input"),
            KnnError::InvalidArgument => String::from_str("invalid argument"),
        }
    }
}

/// The similarity of a query's tokens to a candidate's tokens.
pub open spec fn similarity(q: Seq<Seq<char>>, c: Seq<Seq<char>>, mode: Similarity) -> (nat, nat) {
    match mode {
        Similarity::OrderSensitive => alignment(q, c),
        Similarity::OrderInsensitive => overlap(q, c),
    }
}

/// The similarity that an optional order-sensitivity flag selects; unset
/// means order-insensitive.
pub open spec fn mode_of(flag: Option<bool>) -> Similarity {
    if flag == Some(true) {
        Similarity::OrderSensitive
    } else {
        Similarity::OrderInsensitive
    }
}

/// The score of every corpus entry against a query.
pub open spec fn scores_for(corpus: Seq<Seq<char>>, query: Seq<char>, mode: Similarity) -> Seq<(nat, nat)> {
    Seq::new(corpus.len(), |i: int| similarity(tokens_of(query), tokens_of(corpus[i]), mode))
}

/// `out` is the answer to a query for `k` neighbours: the entries of the
/// `min(k, n)` best-ranked candidates, best first.
pub open spec fn is_answer(
    corpus: Seq<Seq<char>>,
    query: Seq<char>,
    k: nat,
    mode: Similarity,
    out: Seq<Seq<char>>,
) -> bool {
    exists|ranked: Seq<usize>|
        #[trigger] is_top_k(scores_for(corpus, query, mode), k, ranked) && out == ranked.map_values(
            |i: usize| corpus[i as int],
        )
}

/// The character sequences of a vector of strings.
pub open spec fn texts(v: Seq<String>) -> Seq<Seq<char>> {
    v.map_values(|s: String| s@)
}

/// Scores a candidate's tokens against a query's tokens.
pub fn score(query: &Vec<Token>, candidate: &Vec<Token>, mode: Similarity) -> (r: Score)
    requires
        query@.len() <= max_tokens(),
        candidate@.len() <= max_tokens(),
    ensures
        r@ == similarity(token_views(query@), token_views(candidate@), mode),
        0 < r.den,
        r.num <= r.den,
{
    match mode {
        Similarity::OrderSensitive => alignment_score(query, candidate),
        Similarity::OrderInsensitive => overlap_score(query, candidate),
    }
}

/// A searchable corpus of strings, each kept with its tokens.
pub struct Engine {
    entries: Vec<String>,
    tokens: Vec<Vec<Token>>,
}

impl View for Engine {
    type V = Seq<Seq<char>>;

    closed spec fn view(&self) -> Seq<Seq<char>> {
        texts(self.entries@)
    }
}

impl Engine {
    /// The stored tokens are those of the stored entries.
    pub closed spec fn wf(&self) -> bool {
        &&& self.tokens@.len() == self.entries@.len()
        &&& forall|i: int|
            0 <= i < self.entries@.len() ==> token_views(#[trigger] self.tokens@[i]@) == tokens_of(
                self.entries@[i]@,
            ) && self.tokens@[i]@.len() <= max_tokens()
    }

    /// An engine with an empty corpus.
    pub fn new() -> (r: Engine)
        ensures
            r.wf(),
            r@ == Seq::<Seq<char>>::empty(),
    {
        let r = Engine { entries: Vec::new(), tokens: Vec::new() };
        assert(r@ =~= Seq::<Seq<char>>::empty());
        r
    }

    /// The number of stored entries.
    pub fn len(&self) -> (r: usize)
        ensures
            r == self@.len(),
    {
        self.entries.len()
    }

    /// Replaces the whole corpus with `strings`, in their order.
    pub fn upload_strings(&mut self, strings: Vec<String>) -> (r: Result<(), KnnError>)
        ensures
            r == Ok::<(), KnnError>(()),
            final(self).wf(),
            final(self)@ == texts(strings@),
    {
        let mut tokens: Vec<Vec<Token>> = Vec::new();
        let mut i: usize = 0;
        while i < strings.len()
            invariant
                i <= strings@.len(),
                tokens@.len() == i,
                forall|j: int|
                    0 <= j < i ==> token_views(#[trigger] tokens@[j]@) == tokens_of(strings@[j]@)
                        && tokens@[j]@.len() <= max_tokens(),
            decreases strings@.len() - i,
        {
            let t = tokenize(strings[i].as_str());
            tokens.push(t);
            i = i + 1;
        }
        self.entries = strings;
        self.tokens = tokens;
        Ok(())
    }

    /// The entries most similar to `query`, at most `k` of them, best first;
    /// equal scores keep the order of upload.
    pub fn nearest(&self, query: &str, k: usize, mode: Similarity) -> (r: Vec<String>)
        requires
            self.wf(),
        ensures
            is_answer(self@, query@, k as nat, mode, texts(r@)),
    {
        let q = tokenize(query);
        let ghost s = scores_for(self@, query@, mode);
        let mut scores: Vec<Score> = Vec::new();
        let mut i: usize = 0;
        while i < self.entries.len()
            invariant
                self.wf(),
                s == scores_for(self@, query@, mode),
                token_views(q@) == tokens_of(query@),
                q@.len() <= max_tokens(),
                i <= self.entries@.len(),
                scores@.len() == i,
                forall|j: int| 0 <= j < i ==> (#[trigger] scores@[j])@ == s[j] && scores@[j].den > 0,
            decreases self.entries@.len() - i,
        {
            let sc = score(&q, &self.tokens[i], mode);
            scores.push(sc);
            i = i + 1;
        }
        assert(score_views(scores@) =~= s);
        let ranked = select_top_k(&scores, k);
        let mut out: Vec<String> = Vec::new();
        let mut j: usize = 0;
        while j < ranked.len()
            invariant
                is_top_k(s, k as nat, ranked@),
                s.len() == self.entries@.len(),
                j <= ranked@.len(),
                texts(out@) == ranked@.subrange(0, j as int).map_values(|x: usize| self@[x as int]),
            decreases ranked@.len() - j,
        {
            let e = self.entries[ranked[j]].clone();
            proof {
                assert(ranked@.subrange(0, j + 1) =~= ranked@.subrange(0, j as int).push(ranked@[j as int]));
                assert(texts(out@.push(e)) =~= texts(out@).push(e@));
                assert(ranked@.subrange(0, j + 1).map_values(|x: usize| self@[x as int])
                    =~= ranked@.subrange(0, j as int).map_values(|x: usize| self@[x as int]).push(self@[ranked@[j as int] as int]));
            }
            out.push(e);
            j = j + 1;
        }
        assert(ranked@.subrange(0, ranked@.len() as int) =~= ranked@);
        out
    }
}

/// Replaces the engine's corpus with `strings`.
pub fn upload_data(engine: &mut Engine, strings: Vec<String>) -> (r: Result<(), KnnError>)
    ensures
        r == Ok::<(), KnnError>(()),
        final(engine).wf(),
        final(engine)@ == texts(strings@),
{
    engine.upload_strings(strings)
}

/// The `k` entries most similar to `query`, best first, ranked
/// order-sensitively when `word_order_sensitive` is `Some(true)`. A negative
/// `k` is refused.
pub fn find_nearest_neighbors(
    engine: &Engine,
    query: String,
    k: i64,
    word_order_sensitive: Option<bool>,
) -> (r: Result<Vec<String>, KnnError>)
    requires
        engine.wf(),
    ensures
        k < 0 ==> r == Err::<Vec<String>, KnnError>(KnnError::InvalidArgument),
        k >= 0 ==> r is Ok && is_answer(
            engine@,
            query@,
            k as nat,
            mode_of(word_order_sensitive),
            texts(r->Ok_0@),
        ),
{
    if k < 0 {
        return Err(KnnError::InvalidArgument);
    }
    let mode = match word_order_sensitive {
        Some(true) => Similarity::OrderSensitive,
        _ => Similarity::OrderInsensitive,
    };
    let n = engine.len();
    let kk: usize = if k as u64 >= n as u64 {
        n
    } else {
        k as usize
    };
    let out = engine.nearest(query.as_str(), kk, mode);
    proof {
        let s = scores_for(engine@, query@, mode);
        let ranked = choose|ranked: Seq<usize>|
            #[trigger] is_top_k(s, kk as nat, ranked) && texts(out@) == ranked.map_values(
                |i: usize| engine@[i as int],
            );
        assert(is_top_k(s, k as nat, ranked));
    }
    Ok(out)
}

} // verus!
