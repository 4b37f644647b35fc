//! Properties of the search that hold for every corpus and query.
use vstd::prelude::*;
use crate::tokenizer::tokens_of;
use crate::similarity::{lcs, overlap};
use crate::select::{is_top_k, lemma_top_k_unique, outranks};
use crate::engine::{Similarity, similarity, scores_for, is_answer};

verus! {

/// Every string in an answer is an entry of the corpus that was searched,
/// which after an upload is exactly the uploaded sequence.
pub proof fn law_answer_from_corpus(
    corpus: Seq<Seq<char>>,
    query: Seq<char>,
    k: nat,
    mode: Similarity,
    out: Seq<Seq<char>>,
)
    requires
        is_answer(corpus, query, k, mode, out),
    ensures
        forall|x: int| 0 <= x < out.len() ==> corpus.contains(#[trigger] out[x]),
{
    let ranked = choose|ranked: Seq<usize>|
        #[trigger] is_top_k(scores_for(corpus, query, mode), k, ranked) && out == ranked.map_values(
            |i: usize| corpus[i as int],
        );
    assert forall|x: int| 0 <= x < out.len() implies corpus.contains(#[trigger] out[x]) by {
        assert(out[x] == corpus[ranked[x] as int]);
    }
}

/// An answer for `k` neighbours over `n` entries has `min(k, n)` strings.
pub proof fn law_answer_length(
    corpus: Seq<Seq<char>>,
    query: Seq<char>,
    k: nat,
    mode: Similarity,
    out: Seq<Seq<char>>,
)
    requires
        is_answer(corpus, query, k, mode, out),
    ensures
        out.len() == (if k <= corpus.len() { k } else { corpus.len() }),
{
}

/// A query has exactly one answer: the same corpus, query, `k` and
/// similarity always give the same strings in the same order.
pub proof fn law_answer_deterministic(
    corpus: Seq<Seq<char>>,
    query: Seq<char>,
    k: nat,
    mode: Similarity,
    out1: Seq<Seq<char>>,
    out2: Seq<Seq<char>>,
)
    requires
        is_answer(corpus, query, k, mode, out1),
        is_answer(corpus, query, k, mode, out2),
    ensures
        out1 == out2,
{
    let s = scores_for(corpus, query, mode);
    let r1 = choose|ranked: Seq<usize>|
        #[trigger] is_top_k(s, k, ranked) && out1 == ranked.map_values(|i: usize| corpus[i as int]);
    let r2 = choose|ranked: Seq<usize>|
        #[trigger] is_top_k(s, k, ranked) && out2 == ranked.map_values(|i: usize| corpus[i as int]);
    lemma_top_k_unique(s, k, r1, r2);
}

/// The order-insensitive similarity is symmetric.
pub proof fn law_overlap_symmetric(a: Seq<char>, b: Seq<char>)
    ensures
        similarity(tokens_of(a), tokens_of(b), Similarity::OrderInsensitive) == similarity(
            tokens_of(b),
            tokens_of(a),
            Similarity::OrderInsensitive,
        ),
{
    let (sa, sb) = (tokens_of(a).to_set(), tokens_of(b).to_set());
    assert(sa + sb =~= sb + sa);
    assert(sa.intersect(sb) =~= sb.intersect(sa));
}

proof fn lemma_lcs_self(a: Seq<Seq<char>>)
    ensures
        lcs(a, a) == a.len(),
    decreases a.len(),
{
    if a.len() > 0 {
        lemma_lcs_self(a.drop_last());
    }
}

proof fn lemma_lcs_disjoint(a: Seq<Seq<char>>, b: Seq<Seq<char>>)
    requires
        forall|i: int, j: int| 0 <= i < a.len() && 0 <= j < b.len() ==> a[i] != b[j],
    ensures
        lcs(a, b) == 0,
    decreases a.len() + b.len(),
{
    if a.len() > 0 && b.len() > 0 {
        assert(a.last() != b.last());
        lemma_lcs_disjoint(a.drop_last(), b);
        lemma_lcs_disjoint(a, b.drop_last());
    }
}

/// Identical token sequences have the maximum similarity, `1`, under
/// either similarity.
pub proof fn law_identical_is_maximal(t: Seq<Seq<char>>, mode: Similarity)
    ensures
        similarity(t, t, mode).0 == similarity(t, t, mode).1,
        similarity(t, t, mode).1 > 0,
{
    lemma_lcs_self(t);
    assert(t.to_set() + t.to_set() =~= t.to_set());
    assert(t.to_set().intersect(t.to_set()) =~= t.to_set());
}

/// Token sequences that share no token, not both empty, have the minimum
/// similarity, `0`, under either similarity.
pub proof fn law_disjoint_is_minimal(a: Seq<Seq<char>>, b: Seq<Seq<char>>, mode: Similarity)
    requires
        a.len() + b.len() > 0,
        forall|i: int, j: int| 0 <= i < a.len() && 0 <= j < b.len() ==> a[i] != b[j],
    ensures
        similarity(a, b, mode).0 == 0,
        similarity(a, b, mode).1 > 0,
{
    lemma_lcs_disjoint(a, b);
    assert(a.to_set().intersect(b.to_set()) =~= Set::empty());
    let w = if a.len() > 0 { a[0] } else { b[0] };
    assert((a.to_set() + b.to_set()).contains(w));
}

/// The order-insensitive similarity depends on the sets of tokens alone:
/// a reordering of a query's tokens scores the same against every candidate.
pub proof fn law_overlap_ignores_order(a: Seq<Seq<char>>, b: Seq<Seq<char>>, c: Seq<Seq<char>>)
    requires
        a.to_set() == b.to_set(),
    ensures
        similarity(a, c, Similarity::OrderInsensitive) == similarity(b, c, Similarity::OrderInsensitive),
{
}

/// Searching an empty corpus answers with nothing, whatever `k`.
pub proof fn law_empty_corpus(query: Seq<char>, k: nat, mode: Similarity, out: Seq<Seq<char>>)
    requires
        is_answer(Seq::empty(), query, k, mode, out),
    ensures
        out.len() == 0,
{
}

/// A query without tokens scores every entry that has tokens at the minimum,
/// so the answer is the first `min(k, n)` entries in upload order.
pub proof fn law_empty_query(
    corpus: Seq<Seq<char>>,
    query: Seq<char>,
    k: nat,
    mode: Similarity,
    out: Seq<Seq<char>>,
)
    requires
        corpus.len() <= usize::MAX,
        tokens_of(query).len() == 0,
        forall|i: int| 0 <= i < corpus.len() ==> tokens_of(#[trigger] corpus[i]).len() > 0,
        is_answer(corpus, query, k, mode, out),
    ensures
        out == corpus.take(if k <= corpus.len() { k as int } else { corpus.len() as int }),
{
    let s = scores_for(corpus, query, mode);
    let m: int = if k <= corpus.len() { k as int } else { corpus.len() as int };
    assert forall|i: int| 0 <= i < s.len() implies #[trigger] s[i].0 == 0 && s[i].1 > 0 by {
        let (q, c) = (tokens_of(query), tokens_of(corpus[i]));
        assert(q.to_set() =~= Set::empty());
        assert(c.to_set().contains(c[0]));
        assert(q.to_set().intersect(c.to_set()) =~= Set::empty());
        assert((q.to_set() + c.to_set()).len() > 0) by {
            assert((q.to_set() + c.to_set()).contains(c[0]));
        }
    }
    let first = Seq::new(m as nat, |x: int| x as usize);
    assert(forall|x: int| 0 <= x < m ==> #[trigger] first[x] as int == x);
    assert(is_top_k(s, k, first)) by {
        assert forall|x: int, y: int| 0 <= x < y < first.len() implies outranks(
            s,
            first[x] as int,
            first[y] as int,
        ) by {
            assert(s[x].0 == 0 && s[y].0 == 0);
        }
        assert forall|j: int, x: int|
            0 <= j < s.len() && !first.contains(j as usize) && 0 <= x < first.len() implies #[trigger] outranks(
                s,
                first[x] as int,
                j,
            ) by {
            if j < m {
                assert(first[j] == j as usize);
            }
            assert(s[j].0 == 0 && s[first[x] as int].0 == 0);
        }
    }
    let ranked = choose|ranked: Seq<usize>|
        #[trigger] is_top_k(s, k, ranked) && out == ranked.map_values(|i: usize| corpus[i as int]);
    lemma_top_k_unique(s, k, ranked, first);
    assert(out =~= corpus.take(m)) by {
        assert forall|x: int| 0 <= x < m implies out[x] == corpus[x] by {
            assert(out[x] == corpus[first[x] as int]);
        }
    }
}

} // verus!
