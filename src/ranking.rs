use vstd::prelude::*;

verus! {

/// Entry `a` (a roster index and its score) ranks above entry `b`: a higher
/// score, or an equal score and a lower index.
pub open spec fn ranks_above(a: (usize, u128), b: (usize, u128)) -> bool {
    a.1 > b.1 || (a.1 == b.1 && a.0 < b.0)
}

/// Some entry of `r` holds the index `i`.
pub open spec fn lists(r: Seq<(usize, u128)>, i: int) -> bool {
    exists|k: int| 0 <= k < r.len() && (#[trigger] r[k]).0 == i
}

/// `r` lists every index of `scores` once, with its score, from the highest
/// score down, ties by ascending index.
pub open spec fn is_ranking(scores: Seq<u128>, r: Seq<(usize, u128)>) -> bool {
    &&& r.len() == scores.len()
    &&& forall|k: int| 0 <= k < r.len() ==> (#[trigger] r[k]).0 < scores.len() && r[k].1 == scores[r[k].0 as int]
    &&& forall|k: int, l: int| 0 <= k < l < r.len() ==> ranks_above(#[trigger] r[k], #[trigger] r[l])
    &&& forall|i: int| 0 <= i < scores.len() ==> #[trigger] lists(r, i)
}

/// Scores have exactly one ranking: two rankings of the same scores are
/// equal, so equal totals give equal rankings.
pub proof fn lemma_ranking_unique(scores: Seq<u128>, r1: Seq<(usize, u128)>, r2: Seq<(usize, u128)>)
    requires
        is_ranking(scores, r1),
        is_ranking(scores, r2),
    ensures
        r1 == r2,
{
    if r1.len() > 0 {
        lemma_ranking_prefix(scores, r1, r2, r1.len() - 1);
    }
    assert(r1 =~= r2);
}

proof fn lemma_ranking_prefix(scores: Seq<u128>, r1: Seq<(usize, u128)>, r2: Seq<(usize, u128)>, k: int)
    requires
        is_ranking(scores, r1),
        is_ranking(scores, r2),
        0 <= k < r1.len(),
    ensures
        forall|q: int| 0 <= q <= k ==> r1[q] == r2[q],
    decreases k,
{
    if k > 0 {
        lemma_ranking_prefix(scores, r1, r2, k - 1);
    }
    let x = r2[k].0 as int;
    let y = r1[k].0 as int;
    assert(lists(r1, x));
    assert(lists(r2, y));
    let p = choose|p: int| 0 <= p < r1.len() && (#[trigger] r1[p]).0 == x;
    let q = choose|q: int| 0 <= q < r2.len() && (#[trigger] r2[q]).0 == y;
    if p < k {
        assert(r2[p] == r1[p]);
        assert(ranks_above(r2[p], r2[k]));
    }
    if q < k {
        assert(r1[q] == r2[q]);
        assert(ranks_above(r1[q], r1[k]));
    }
    if p > k && q > k {
        assert(ranks_above(r1[k], r1[p]));
        assert(ranks_above(r2[k], r2[q]));
    }
    if p == k {
        assert(r1[k] == r2[k]);
    } else {
        assert(r2[k] == r1[k]);
    }
}

/// The roster indices with their scores, sorted by score descending and then
/// by index ascending.
pub fn rank(scores: &Vec<u128>) -> (r: Vec<(usize, u128)>)
    ensures
        is_ranking(scores@, r@),
{
    let mut r: Vec<(usize, u128)> = Vec::new();
    let mut i: usize = 0;
    while i < scores.len()
        invariant
            i <= scores@.len(),
            r@.len() == i,
            forall|k: int| 0 <= k < r@.len() ==> (#[trigger] r@[k]).0 < i && r@[k].1 == scores@[r@[k].0 as int],
            forall|k: int, l: int| 0 <= k < l < r@.len() ==> ranks_above(#[trigger] r@[k], #[trigger] r@[l]),
            forall|j: int| 0 <= j < i ==> #[trigger] lists(r@, j),
        decreases scores@.len() - i,
    {
        let x = (i, scores[i]);
        let mut p: usize = 0;
        while p < r.len() && r[p].1 >= x.1
            invariant
                p <= r@.len(),
                forall|q: int| 0 <= q < p ==> (#[trigger] r@[q]).1 >= x.1,
            decreases r@.len() - p,
        {
            p = p + 1;
        }
        let ghost old_r = r@;
        r.insert(p, x);
        proof {
            assert forall|k: int| 0 <= k < r@.len() implies #[trigger] r@[k] == (if k < p {
                old_r[k]
            } else if k == p {
                x
            } else {
                old_r[k - 1]
            }) by {}
            assert forall|k: int, l: int| 0 <= k < l < r@.len() implies ranks_above(
                #[trigger] r@[k],
                #[trigger] r@[l],
            ) by {
                if l == p {
                    assert(old_r[k].1 >= x.1);
                } else if k == p {
                    assert(ranks_above(old_r[p as int], old_r[l - 1]) || l - 1 == p);
                }
            }
            assert forall|j: int| 0 <= j < i + 1 implies #[trigger] lists(r@, j) by {
                if j == i {
                    assert(r@[p as int].0 == j);
                } else {
                    assert(lists(old_r, j));
                    let k0 = choose|k: int| 0 <= k < old_r.len() && (#[trigger] old_r[k]).0 == j;
                    if k0 < p {
                        assert(r@[k0].0 == j);
                    } else {
                        assert(r@[k0 + 1].0 == j);
                    }
                }
            }
        }
        i = i + 1;
    }
    r
}

} // verus!
