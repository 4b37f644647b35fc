use vstd::prelude::*;
use crate::tokenizer::{Token, token_views, max_tokens};

verus! {

broadcast use vstd::seq_lib::group_seq_properties, vstd::set_lib::group_set_lib_default;

/// A similarity as the fraction `num / den`, with `den > 0` and `num <= den`.
#[derive(Clone, Copy, Debug, PartialEq, Eq, Structural)]
pub struct Score {
    pub num: usize,
    pub den: usize,
}

impl View for Score {
    type V = (nat, nat);

    open spec fn view(&self) -> (nat, nat) {
        (self.num as nat, self.den as nat)
    }
}

/// The maximum similarity, `1`.
pub open spec fn full() -> (nat, nat) {
    (1, 1)
}

/// Set-overlap (Jaccard) similarity of two token sequences: the number of
/// distinct tokens they share over the number of distinct tokens in either.
/// Two token-free sequences are identical, with similarity `1`; sequences
/// that share no token have similarity `0`.
pub open spec fn overlap(a: Seq<Seq<char>>, b: Seq<Seq<char>>) -> (nat, nat) {
    let u = a.to_set() + b.to_set();
    if u.len() == 0 {
        full()
    } else if a.to_set().intersect(b.to_set()).len() == 0 {
        (0, 1)
    } else {
        (a.to_set().intersect(b.to_set()).len(), u.len())
    }
}

/// Length of a longest common subsequence of two token sequences.
pub open spec fn lcs(a: Seq<Seq<char>>, b: Seq<Seq<char>>) -> nat
    decreases a.len() + b.len(),
{
    if a.len() == 0 || b.len() == 0 {
        0
    } else if a.last() == b.last() {
        1 + lcs(a.drop_last(), b.drop_last())
    } else {
        let x = lcs(a.drop_last(), b);
        let y = lcs(a, b.drop_last());
        if x >= y {
            x
        } else {
            y
        }
    }
}

/// Order-sensitive similarity: the longest common subsequence over the
/// length of the longer sequence. Two empty sequences have similarity `1`.
pub open spec fn alignment(a: Seq<Seq<char>>, b: Seq<Seq<char>>) -> (nat, nat) {
    let m = if a.len() >= b.len() {
        a.len()
    } else {
        b.len()
    };
    if m == 0 {
        full()
    } else {
        (lcs(a, b), m)
    }
}

/// A longest common subsequence is no longer than either sequence.
pub proof fn lemma_lcs_bounded(a: Seq<Seq<char>>, b: Seq<Seq<char>>)
    ensures
        lcs(a, b) <= a.len(),
        lcs(a, b) <= b.len(),
    decreases a.len() + b.len(),
{
    if a.len() > 0 && b.len() > 0 {
        lemma_lcs_bounded(a.drop_last(), b.drop_last());
        lemma_lcs_bounded(a.drop_last(), b);
        lemma_lcs_bounded(a, b.drop_last());
    }
}

/// Whether two tokens are the same.
pub fn same_token(x: &Token, y: &Token) -> (r: bool)
    ensures
        r == (x@ == y@),
{
    if x.len() != y.len() {
        return false;
    }
    let mut i: usize = 0;
    while i < x.len()
        invariant
            x@.len() == y@.len(),
            i <= x@.len(),
            forall|j: int| 0 <= j < i ==> x@[j] == y@[j],
        decreases x@.len() - i,
    {
        if x[i] != y[i] {
            return false;
        }
        i = i + 1;
    }
    assert(x@ =~= y@);
    true
}

/// Whether `t` occurs among the first `end` tokens of `v`.
fn occurs_in(t: &Token, v: &Vec<Token>, end: usize) -> (r: bool)
    requires
        end <= v@.len(),
    ensures
        r == token_views(v@).subrange(0, end as int).contains(t@),
{
    let ghost vs = token_views(v@).subrange(0, end as int);
    let mut i: usize = 0;
    while i < end
        invariant
            end <= v@.len(),
            i <= end,
            vs == token_views(v@).subrange(0, end as int),
            forall|j: int| 0 <= j < i ==> vs[j] != t@,
        decreases end - i,
    {
        if same_token(&v[i], t) {
            assert(vs[i as int] == t@);
            return true;
        }
        i = i + 1;
    }
    false
}

/// Number of distinct tokens of `v`, and of those that also occur in `w`.
fn distinct_counts(v: &Vec<Token>, w: &Vec<Token>) -> (r: (usize, usize))
    ensures
        r.0 == token_views(v@).to_set().len(),
        r.1 == token_views(v@).to_set().intersect(token_views(w@).to_set()).len(),
{
    let ghost tv = token_views(v@);
    let ghost sw = token_views(w@).to_set();
    let mut seen: usize = 0;
    let mut shared: usize = 0;
    let mut i: usize = 0;
    assert(tv.subrange(0, 0).to_set() =~= Set::empty());
    assert(Set::<Seq<char>>::empty().intersect(sw) =~= Set::empty());
    while i < v.len()
        invariant
            i <= v@.len(),
            tv == token_views(v@),
            sw == token_views(w@).to_set(),
            seen == tv.subrange(0, i as int).to_set().len(),
            shared == tv.subrange(0, i as int).to_set().intersect(sw).len(),
            seen <= i,
            shared <= i,
        decreases v@.len() - i,
    {
        let ghost pre = tv.subrange(0, i as int);
        let ghost t = tv[i as int];
        assert(tv.subrange(0, i + 1) =~= pre.push(t));
        assert(pre.push(t).to_set() == pre.to_set().insert(t));
        if !occurs_in(&v[i], v, i) {
            assert(!pre.to_set().contains(t));
            let in_w = occurs_in(&v[i], w, w.len());
            assert(token_views(w@).subrange(0, w@.len() as int) =~= token_views(w@));
            if in_w {
                assert(pre.to_set().insert(t).intersect(sw) =~= pre.to_set().intersect(sw).insert(t));
                shared = shared + 1;
            } else {
                assert(pre.to_set().insert(t).intersect(sw) =~= pre.to_set().intersect(sw));
            }
            seen = seen + 1;
        } else {
            assert(pre.to_set().insert(t) =~= pre.to_set());
        }
        i = i + 1;
    }
    assert(tv.subrange(0, v@.len() as int) =~= tv);
    (seen, shared)
}

/// Order-insensitive similarity of two token sequences.
pub fn overlap_score(a: &Vec<Token>, b: &Vec<Token>) -> (r: Score)
    requires
        a@.len() <= max_tokens(),
        b@.len() <= max_tokens(),
    ensures
        r@ == overlap(token_views(a@), token_views(b@)),
        0 < r.den,
        r.num <= r.den,
{
    let ghost sa = token_views(a@).to_set();
    let ghost sb = token_views(b@).to_set();
    let (na, shared) = distinct_counts(a, b);
    let (nb, shared_b) = distinct_counts(b, a);
    proof {
        vstd::set_lib::lemma_set_intersect_union_lens(sa, sb);
        vstd::set_lib::lemma_len_intersect(sa, sb);
        vstd::set_lib::lemma_len_intersect(sb, sa);
        assert(sb.intersect(sa) =~= sa.intersect(sb));
    }
    if na == 0 && nb == 0 {
        proof {
            assert(sa + sb =~= Set::empty());
        }
        Score { num: 1, den: 1 }
    } else if shared == 0 {
        Score { num: 0, den: 1 }
    } else {
        proof {
            token_views(a@).lemma_cardinality_of_set();
            token_views(b@).lemma_cardinality_of_set();
        }
        Score { num: shared, den: na + (nb - shared) }
    }
}

/// Length of a longest common subsequence of `a` and `b`, by dynamic
/// programming over one row of prefix lengths at a time.
fn lcs_len(a: &Vec<Token>, b: &Vec<Token>) -> (r: usize)
    ensures
        r == lcs(token_views(a@), token_views(b@)),
{
    let ghost ta = token_views(a@);
    let ghost tb = token_views(b@);
    let n = b.len();
    if a.len() == 0 || n == 0 {
        return 0;
    }
    // row[j] is the answer for the first i tokens of `a` and the first j + 1 of `b`.
    let mut row: Vec<usize> = vec![0; n];
    let mut i: usize = 0;
    while i < a.len()
        invariant
            n == b@.len(),
            n > 0,
            ta == token_views(a@),
            tb == token_views(b@),
            i <= a@.len(),
            row@.len() == n,
            forall|j: int| 0 <= j < n ==> row@[j] == lcs(ta.subrange(0, i as int), tb.subrange(0, j + 1)),
        decreases a@.len() - i,
    {
        let mut next: Vec<usize> = Vec::with_capacity(n);
        let mut j: usize = 0;
        while j < n
            invariant
                n == b@.len(),
                ta == token_views(a@),
                tb == token_views(b@),
                i < a@.len(),
                j <= n,
                row@.len() == n,
                forall|jj: int| 0 <= jj < n ==> row@[jj] == lcs(ta.subrange(0, i as int), tb.subrange(0, jj + 1)),
                next@.len() == j,
                forall|jj: int| 0 <= jj < j ==> next@[jj] == lcs(ta.subrange(0, i + 1), tb.subrange(0, jj + 1)),
            decreases n - j,
        {
            let ghost pa = ta.subrange(0, i + 1);
            let ghost pb = tb.subrange(0, j + 1);
            proof {
                assert(pa.drop_last() =~= ta.subrange(0, i as int));
                assert(pb.drop_last() =~= tb.subrange(0, j as int));
                lemma_lcs_bounded(ta.subrange(0, i as int), tb.subrange(0, j as int));
                lemma_lcs_bounded(ta.subrange(0, i as int), pb);
                lemma_lcs_bounded(pa, tb.subrange(0, j as int));
            }
            let diag: usize = if j == 0 {
                0
            } else {
                row[j - 1]
            };
            let up: usize = row[j];
            let left: usize = if j == 0 {
                0
            } else {
                next[j - 1]
            };
            let v: usize = if same_token(&a[i], &b[j]) {
                diag + 1
            } else if up >= left {
                up
            } else {
                left
            };
            next.push(v);
            j = j + 1;
        }
        row = next;
        i = i + 1;
    }
    proof {
        assert(ta.subrange(0, a@.len() as int) =~= ta);
        assert(tb.subrange(0, n as int) =~= tb);
    }
    row[n - 1]
}

/// Order-sensitive similarity of two token sequences.
pub fn alignment_score(a: &Vec<Token>, b: &Vec<Token>) -> (r: Score)
    ensures
        r@ == alignment(token_views(a@), token_views(b@)),
        0 < r.den,
        r.num <= r.den,
{
    if a.len() == 0 && b.len() == 0 {
        return Score { num: 1, den: 1 };
    }
    let len = lcs_len(a, b);
    proof {
        lemma_lcs_bounded(token_views(a@), token_views(b@));
    }
    let m = if a.len() >= b.len() {
        a.len()
    } else {
        b.len()
    };
    Score { num: len, den: m }
}

} // verus!
