use vstd::prelude::*;
use crate::similarity::Score;

verus! {

/// Every score is a fraction with a positive denominator.
pub open spec fn valid_scores(s: Seq<(nat, nat)>) -> bool {
    forall|i: int| 0 <= i < s.len() ==> s[i].1 > 0
}

/// Candidate `i` ranks before candidate `j`: its similarity is strictly
/// greater, or the two are equal and `i` was stored first.
pub open spec fn outranks(s: Seq<(nat, nat)>, i: int, j: int) -> bool {
    let l = s[i].0 * s[j].1;
    let r = s[j].0 * s[i].1;
    l > r || (l == r && i < j)
}

/// `r` lists the `min(k, |s|)` best candidates of `s`, best first.
pub open spec fn is_top_k(s: Seq<(nat, nat)>, k: nat, r: Seq<usize>) -> bool {
    &&& r.len() == (if k <= s.len() { k } else { s.len() })
    &&& forall|x: int| 0 <= x < r.len() ==> r[x] < s.len()
    &&& forall|x: int, y: int| 0 <= x < y < r.len() ==> outranks(s, r[x] as int, r[y] as int)
    &&& forall|j: int, x: int|
        0 <= j < s.len() && !r.contains(j as usize) && 0 <= x < r.len() ==> #[trigger] outranks(
            s,
            r[x] as int,
            j,
        )
}

/// Of two distinct candidates, one ranks before the other.
pub proof fn lemma_outranks_total(s: Seq<(nat, nat)>, i: int, j: int)
    requires
        i != j,
    ensures
        outranks(s, i, j) || outranks(s, j, i),
{
}

/// Ranking is transitive.
pub proof fn lemma_outranks_transitive(s: Seq<(nat, nat)>, i: int, j: int, m: int)
    requires
        0 <= i < s.len(),
        0 <= j < s.len(),
        0 <= m < s.len(),
        valid_scores(s),
        outranks(s, i, j),
        outranks(s, j, m),
    ensures
        outranks(s, i, m),
{
    let (a, b, c) = (s[i], s[j], s[m]);
    let (an, ad, bn, bd, cn, cd) = (a.0 as int, a.1 as int, b.0 as int, b.1 as int, c.0 as int, c.1 as int);
    assert(ad > 0 && bd > 0 && cd > 0);
    assert(an * bd >= bn * ad);
    assert(bn * cd >= cn * bd);
    assert(an * cd * bd >= cn * ad * bd) by (nonlinear_arith)
        requires
            an * bd >= bn * ad,
            bn * cd >= cn * bd,
            ad > 0,
            bd > 0,
            cd > 0,
            an >= 0,
            bn >= 0,
            cn >= 0,
    ;
    if an * bd > bn * ad || bn * cd > cn * bd {
        assert(an * cd * bd > cn * ad * bd) by (nonlinear_arith)
            requires
                an * bd >= bn * ad,
                bn * cd >= cn * bd,
                an * bd > bn * ad || bn * cd > cn * bd,
                ad > 0,
                bd > 0,
                cd > 0,
                an >= 0,
                bn >= 0,
                cn >= 0,
        ;
        assert(an * cd > cn * ad) by (nonlinear_arith)
            requires
                an * cd * bd > cn * ad * bd,
                bd > 0,
        ;
    } else {
        assert(an * cd * bd == cn * ad * bd) by (nonlinear_arith)
            requires
                an * bd == bn * ad,
                bn * cd == cn * bd,
        ;
        assert(an * cd == cn * ad) by (nonlinear_arith)
            requires
                an * cd * bd == cn * ad * bd,
                bd > 0,
        ;
    }
}

/// Where two top-k lists agree before position `x`, the first does not
/// rank a different candidate before the second's at `x`.
proof fn lemma_top_k_no_better(s: Seq<(nat, nat)>, k: nat, r1: Seq<usize>, r2: Seq<usize>, x: int)
    requires
        is_top_k(s, k, r1),
        is_top_k(s, k, r2),
        0 <= x < r1.len(),
        forall|y: int| 0 <= y < x ==> r1[y] == r2[y],
    ensures
        r1[x] == r2[x] || !outranks(s, r1[x] as int, r2[x] as int),
{
    let a = r1[x];
    let b = r2[x];
    if a != b && outranks(s, a as int, b as int) {
        if r2.contains(a) {
            let y = choose|y: int| 0 <= y < r2.len() && r2[y] == a;
            if y < x {
                assert(outranks(s, r1[y] as int, r1[x] as int));
            } else {
                assert(outranks(s, r2[x] as int, r2[y] as int));
            }
        } else {
            assert(outranks(s, r2[x] as int, a as int));
        }
    }
}

/// Two top-k lists of the same scores agree up to and including position `x`.
proof fn lemma_top_k_agree(s: Seq<(nat, nat)>, k: nat, r1: Seq<usize>, r2: Seq<usize>, x: int)
    requires
        is_top_k(s, k, r1),
        is_top_k(s, k, r2),
        0 <= x < r1.len(),
    ensures
        forall|y: int| 0 <= y <= x ==> r1[y] == r2[y],
    decreases x,
{
    if x > 0 {
        lemma_top_k_agree(s, k, r1, r2, x - 1);
    }
    lemma_top_k_no_better(s, k, r1, r2, x);
    lemma_top_k_no_better(s, k, r2, r1, x);
    if r1[x] != r2[x] {
        lemma_outranks_total(s, r1[x] as int, r2[x] as int);
    }
}

/// The top k of a list of scores is unique.
pub proof fn lemma_top_k_unique(s: Seq<(nat, nat)>, k: nat, r1: Seq<usize>, r2: Seq<usize>)
    requires
        is_top_k(s, k, r1),
        is_top_k(s, k, r2),
    ensures
        r1 == r2,
{
    if r1.len() > 0 {
        lemma_top_k_agree(s, k, r1, r2, r1.len() - 1);
    }
    assert(r1 =~= r2);
}

/// The views of a vector of scores.
pub open spec fn score_views(v: Seq<Score>) -> Seq<(nat, nat)> {
    v.map_values(|x: Score| x@)
}

/// The product of two `usize` values fits in a `u128`.
proof fn lemma_product_fits(a: nat, b: nat)
    requires
        a <= usize::MAX,
        b <= usize::MAX,
    ensures
        a * b <= u128::MAX,
{
    assert(usize::MAX <= u64::MAX);
    assert(a * b <= u64::MAX * u64::MAX) by (nonlinear_arith)
        requires
            a <= u64::MAX,
            b <= u64::MAX,
    ;
}

/// Whether candidate `i` ranks before candidate `j`.
fn ranks_before(scores: &Vec<Score>, i: usize, j: usize) -> (r: bool)
    requires
        i < scores@.len(),
        j < scores@.len(),
    ensures
        r == outranks(score_views(scores@), i as int, j as int),
{
    proof {
        lemma_product_fits(scores@[i as int].num as nat, scores@[j as int].den as nat);
        lemma_product_fits(scores@[j as int].num as nat, scores@[i as int].den as nat);
    }
    let l = (scores[i].num as u128) * (scores[j].den as u128);
    let r = (scores[j].num as u128) * (scores[i].den as u128);
    l > r || (l == r && i < j)
}

/// The indices of the `min(k, n)` best of `n` scored candidates, best
/// first; equal scores keep the order of the candidates.
pub fn select_top_k(scores: &Vec<Score>, k: usize) -> (r: Vec<usize>)
    requires
        valid_scores(score_views(scores@)),
    ensures
        is_top_k(score_views(scores@), k as nat, r@),
{
    let ghost s = score_views(scores@);
    let mut r: Vec<usize> = Vec::new();
    let mut i: usize = 0;
    while i < scores.len()
        invariant
            s == score_views(scores@),
            valid_scores(s),
            i <= s.len(),
            r@.len() == (if k <= i { k as int } else { i as int }),
            forall|x: int| 0 <= x < r@.len() ==> r@[x] < i,
            forall|x: int, y: int| 0 <= x < y < r@.len() ==> outranks(s, r@[x] as int, r@[y] as int),
            r@.len() < k ==> forall|j: usize| j < i ==> #[trigger] r@.contains(j),
            forall|j: int, x: int|
                0 <= j < i && !r@.contains(j as usize) && 0 <= x < r@.len() ==> #[trigger] outranks(
                    s,
                    r@[x] as int,
                    j,
                ),
        decreases s.len() - i,
    {
        let mut p: usize = 0;
        while p < r.len() && ranks_before(scores, r[p], i)
            invariant
                s == score_views(scores@),
                i < s.len(),
                p <= r@.len(),
                forall|x: int| 0 <= x < r@.len() ==> r@[x] < i,
                forall|x: int| 0 <= x < p ==> outranks(s, r@[x] as int, i as int),
            decreases r@.len() - p,
        {
            p = p + 1;
        }
        let ghost old_r = r@;
        proof {
            assert forall|x: int| p <= x < old_r.len() implies outranks(s, i as int, old_r[x] as int) by {
                assert(outranks(s, i as int, old_r[p as int] as int));
                if x > p {
                    lemma_outranks_transitive(s, i as int, old_r[p as int] as int, old_r[x] as int);
                }
            }
        }
        if p < k {
            r.insert(p, i);
            let ghost ins = r@;
            assert(ins == old_r.insert(p as int, i));
            assert forall|x: int, y: int| 0 <= x < y < ins.len() implies outranks(s, ins[x] as int, ins[y] as int) by {
                if x < p && y > p {
                    lemma_outranks_transitive(s, ins[x] as int, i as int, ins[y] as int);
                }
            }
            if r.len() > k {
                let gone = r.pop();
                proof {
                    let e = old_r[old_r.len() - 1];
                    assert(gone == Some(e));
                    assert forall|j: int, x: int|
                        0 <= j < i + 1 && !r@.contains(j as usize) && 0 <= x < r@.len() implies #[trigger] outranks(
                            s,
                            r@[x] as int,
                            j,
                        ) by {
                        if j as usize == e {
                            assert(ins[x] == r@[x]);
                            assert(ins[ins.len() - 1] == e);
                        } else if j < i {
                            assert(!old_r.contains(j as usize)) by {
                                if old_r.contains(j as usize) {
                                    let x = choose|x: int| 0 <= x < old_r.len() && old_r[x] == j as usize;
                                    if x < p {
                                        assert(r@[x] == j as usize);
                                    } else if x < old_r.len() - 1 {
                                        assert(r@[x + 1] == j as usize);
                                    }
                                }
                            }
                            if x == p {
                                lemma_outranks_transitive(s, i as int, old_r[p as int] as int, j);
                            }
                        } else {
                            assert(r@[p as int] == i);
                        }
                    }
                }
            } else {
                proof {
                    assert forall|j: usize| j < i + 1 implies #[trigger] r@.contains(j) by {
                        if j == i {
                            assert(r@[p as int] == i);
                        } else {
                            assert(old_r.contains(j));
                            let x = choose|x: int| 0 <= x < old_r.len() && old_r[x] == j;
                            if x < p {
                                assert(r@[x] == j);
                            } else {
                                assert(r@[x + 1] == j);
                            }
                        }
                    }
                }
            }
        } else {
            proof {
                assert forall|j: int, x: int|
                    0 <= j < i + 1 && !r@.contains(j as usize) && 0 <= x < r@.len() implies #[trigger] outranks(
                        s,
                        r@[x] as int,
                        j,
                    ) by {
                    if j == i {
                        assert(p == r@.len());
                    }
                }
            }
        }
        i = i + 1;
    }
    r
}

} // verus!
