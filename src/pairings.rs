use itertools::Itertools;
use vstd::prelude::*;

verus! {

/// Row `i` of the pairing list: `(i, i), (i, i + 1), ..., (i, n - 1)`.
pub open spec fn pairing_row(i: nat, n: nat) -> Seq<(usize, usize)> {
    Seq::new((n - i) as nat, |k: int| (i as usize, (i + k) as usize))
}

/// The pairs `(i, j)` with `start <= i <= j < n`, in lexicographic order.
pub open spec fn pairings_from(start: nat, n: nat) -> Seq<(usize, usize)>
    decreases n - start,
{
    if start >= n {
        Seq::empty()
    } else {
        pairing_row(start, n) + pairings_from(start + 1, n)
    }
}

/// Every pair of roster indices `(i, j)` with `i <= j < n`, self-pairs
/// included, in lexicographic order.
pub open spec fn all_pairings(n: nat) -> Seq<(usize, usize)> {
    pairings_from(0, n)
}

/// Each pair of `pairings_from(start, n)` holds two valid indices, the first
/// no greater than the second.
pub proof fn lemma_pairings_from_in_range(start: nat, n: nat)
    requires
        n <= usize::MAX,
    ensures
        forall|k: int|
            0 <= k < pairings_from(start, n).len() ==> {
                let p = #[trigger] pairings_from(start, n)[k];
                start <= p.0 <= p.1 < n
            },
    decreases n - start,
{
    if start < n {
        lemma_pairings_from_in_range(start + 1, n);
        let row = pairing_row(start, n);
        let rest = pairings_from(start + 1, n);
        assert forall|k: int| 0 <= k < pairings_from(start, n).len() implies {
            let p = #[trigger] pairings_from(start, n)[k];
            start <= p.0 <= p.1 < n
        } by {
            if k < row.len() {
                assert(pairings_from(start, n)[k] == row[k]);
            } else {
                assert(pairings_from(start, n)[k] == rest[k - row.len()]);
            }
        }
    }
}

/// Each pair of `all_pairings(n)` holds two valid indices `i <= j < n`.
pub proof fn lemma_all_pairings_in_range(n: nat)
    requires
        n <= usize::MAX,
    ensures
        forall|k: int|
            0 <= k < all_pairings(n).len() ==> {
                let p = #[trigger] all_pairings(n)[k];
                p.0 <= p.1 < n
            },
{
    lemma_pairings_from_in_range(0, n);
}

/// How many sides of the pairs in `s` are player `i`; a self-pair counts
/// twice.
pub open spec fn occurrences(s: Seq<(usize, usize)>, i: int) -> nat
    decreases s.len(),
{
    if s.len() == 0 {
        0
    } else {
        occurrences(s.drop_last(), i) + (if s.last().0 == i {
            1nat
        } else {
            0nat
        }) + (if s.last().1 == i {
            1nat
        } else {
            0nat
        })
    }
}

/// Occurrences add up over a concatenation.
pub proof fn lemma_occurrences_concat(a: Seq<(usize, usize)>, b: Seq<(usize, usize)>, i: int)
    ensures
        occurrences(a + b, i) == occurrences(a, i) + occurrences(b, i),
    decreases b.len(),
{
    if b.len() == 0 {
        assert(a + b =~= a);
    } else {
        assert((a + b).drop_last() =~= a + b.drop_last());
        lemma_occurrences_concat(a, b.drop_last(), i);
    }
}

/// The first `m` pairs of row `s`.
spec fn row_prefix(s: nat, m: nat) -> Seq<(usize, usize)> {
    Seq::new(m, |k: int| (s as usize, (s + k) as usize))
}

proof fn lemma_occurrences_row_prefix(s: nat, m: nat, i: int)
    requires
        s + m <= usize::MAX + 1,
        0 <= i,
    ensures
        s == i ==> occurrences(row_prefix(s, m), i) <= m + 1,
        s < i ==> occurrences(row_prefix(s, m), i) <= (if s + m > i {
            1nat
        } else {
            0nat
        }),
        s > i ==> occurrences(row_prefix(s, m), i) == 0,
    decreases m,
{
    if m > 0 {
        lemma_occurrences_row_prefix(s, (m - 1) as nat, i);
        assert(row_prefix(s, m).drop_last() =~= row_prefix(s, (m - 1) as nat));
        assert(row_prefix(s, m).last() == (s as usize, (s + m - 1) as usize));
    }
}

/// Player `i` occurs in at most `n - start + 1` sides of the rows from `start`
/// on, and in none of them once `start` has passed it.
proof fn lemma_occurrences_pairings_from(start: nat, n: nat, i: int)
    requires
        0 <= i < n,
        n <= usize::MAX,
    ensures
        start <= i ==> occurrences(pairings_from(start, n), i) <= n - start + 1,
        start > i ==> occurrences(pairings_from(start, n), i) == 0,
    decreases n - start,
{
    if start < n {
        lemma_occurrences_pairings_from(start + 1, n, i);
        let row = pairing_row(start, n);
        assert(row =~= row_prefix(start, (n - start) as nat));
        lemma_occurrences_row_prefix(start, (n - start) as nat, i);
        lemma_occurrences_concat(row, pairings_from(start + 1, n), i);
    }
}

/// Player `i` of `n` occurs in at most `n + 1` sides of all pairings.
pub proof fn lemma_occurrences_bounded(n: nat, i: int)
    requires
        0 <= i < n,
        n <= usize::MAX,
    ensures
        occurrences(all_pairings(n), i) <= n + 1,
{
    lemma_occurrences_pairings_from(0, n, i);
}

/// The rows from `start` on hold `(n - start) * (n - start + 1) / 2` pairs.
proof fn lemma_pairings_from_len(start: nat, n: nat)
    requires
        start <= n,
    ensures
        2 * pairings_from(start, n).len() == (n - start) * (n - start + 1),
    decreases n - start,
{
    if start < n {
        lemma_pairings_from_len(start + 1, n);
        let d = n - start;
        assert(2 * d + (d - 1) * d == d * (d + 1)) by (nonlinear_arith);
    }
}

/// There are `n * (n + 1) / 2` pairings of `n` players.
pub proof fn lemma_all_pairings_len(n: nat)
    ensures
        2 * all_pairings(n).len() == n * (n + 1),
{
    lemma_pairings_from_len(0, n);
}

/// Relies on itertools::Itertools::combinations_with_replacement with k = 2 on
/// `0..n`: it yields `[i, j]` for every `i <= j < n`, in lexicographic order.
#[verifier::external_body]
pub(crate) fn index_pairings(n: usize) -> (r: Vec<(usize, usize)>)
    ensures
        r@ == all_pairings(n as nat),
{
    (0..n).combinations_with_replacement(2).map(|x| (x[0], x[1])).collect()
}

} // verus!
