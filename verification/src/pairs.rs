//! The unordered pairs of positions of a sequence, each listed once.

use itertools::Itertools;
use vstd::prelude::*;

verus! {

/// The pairs `(i, i + 1), (i, i + 2), .., (i, n - 1)`.
pub open spec fn row_pairs(i: int, n: int) -> Seq<(usize, usize)> {
    Seq::new((n - 1 - i) as nat, |t: int| (i as usize, (i + 1 + t) as usize))
}

/// The rows `i, i + 1, .., n - 1` of pairs, one after the other.
pub open spec fn pairs_from(i: int, n: int) -> Seq<(usize, usize)>
    decreases n - i,
{
    if i >= n {
        Seq::empty()
    } else {
        row_pairs(i, n) + pairs_from(i + 1, n)
    }
}

/// All pairs `(i, j)` with `i < j < n`, in lexicographic order.
pub open spec fn index_pairs(n: nat) -> Seq<(usize, usize)> {
    pairs_from(0, n as int)
}

/// Position of the pair `(i, j)` in `pairs_from(a, n)`.
pub open spec fn rank_from(a: int, i: int, j: int, n: int) -> int
    decreases i - a,
{
    if a >= i {
        j - i - 1
    } else {
        (n - 1 - a) + rank_from(a + 1, i, j, n)
    }
}

/// Position of the pair `(i, j)` in `index_pairs(n)`.
pub open spec fn pair_rank(i: int, j: int, n: nat) -> int {
    rank_from(0, i, j, n as int)
}

/// Twice the number of pairs in the rows from `a` on.
pub proof fn lemma_pairs_from_len(a: int, n: int)
    requires
        0 <= a <= n,
    ensures
        2 * pairs_from(a, n).len() == (n - a) * (n - a - 1),
    decreases n - a,
{
    if a < n {
        lemma_pairs_from_len(a + 1, n);
        assert((n - a) * (n - a - 1) == (n - a - 1) * (n - a - 2) + 2 * (n - a - 1))
            by (nonlinear_arith);
    } else {
        assert((n - a) * (n - a - 1) == 0) by (nonlinear_arith)
            requires
                n - a == 0,
        ;
    }
}

/// A sequence of `n` positions has `n * (n - 1) / 2` pairs.
pub proof fn lemma_index_pairs_len(n: nat)
    ensures
        index_pairs(n).len() == n * (n - 1) / 2,
        index_pairs(n).len() <= n * n,
{
    lemma_pairs_from_len(0, n as int);
    assert(n * (n - 1) <= 2 * (n * n)) by (nonlinear_arith);
}

/// Every pair of the rows from `a` on stands at its rank.
pub proof fn lemma_pairs_from_rank(a: int, n: int, i: int, j: int)
    requires
        0 <= a <= i < j < n,
        n <= usize::MAX,
    ensures
        0 <= rank_from(a, i, j, n) < pairs_from(a, n).len(),
        pairs_from(a, n)[rank_from(a, i, j, n)] == (i as usize, j as usize),
    decreases i - a,
{
    if a < i {
        lemma_pairs_from_rank(a + 1, n, i, j);
    }
}

/// Every entry of the rows from `a` on is a pair `(i, j)` with `a <= i < j < n`,
/// and its position is the rank of that pair.
pub proof fn lemma_pairs_from_entry(a: int, n: int, p: int)
    requires
        0 <= a <= n <= usize::MAX,
        0 <= p < pairs_from(a, n).len(),
    ensures
        a <= pairs_from(a, n)[p].0 < pairs_from(a, n)[p].1 < n,
        rank_from(a, pairs_from(a, n)[p].0 as int, pairs_from(a, n)[p].1 as int, n) == p,
    decreases n - a,
{
    if p >= n - 1 - a {
        lemma_pairs_from_entry(a + 1, n, p - (n - 1 - a));
    }
}

/// Each pair `(i, j)` with `i < j < n` occurs in `index_pairs(n)`, at its rank.
pub proof fn lemma_pair_occurs(n: nat, i: int, j: int)
    requires
        0 <= i < j < n <= usize::MAX,
    ensures
        0 <= pair_rank(i, j, n) < index_pairs(n).len(),
        index_pairs(n)[pair_rank(i, j, n)] == (i as usize, j as usize),
{
    lemma_pairs_from_rank(0, n as int, i, j);
}

/// Each entry of `index_pairs(n)` is a pair `(i, j)` with `i < j < n`, and it
/// occurs at no other position: no pair is listed twice.
pub proof fn lemma_pair_entry(n: nat, p: int)
    requires
        n <= usize::MAX,
        0 <= p < index_pairs(n).len(),
    ensures
        index_pairs(n)[p].0 < index_pairs(n)[p].1 < n,
        pair_rank(index_pairs(n)[p].0 as int, index_pairs(n)[p].1 as int, n) == p,
{
    lemma_pairs_from_entry(0, n as int, p);
}

/// `Itertools::tuple_combinations` of itertools, on the range `0..n` and for
/// pairs: it yields every pair `(i, j)` with `i < j < n` once, the pairs with
/// the smaller `i` first and, among those, the ones with the smaller `j`
/// first. The pairs are collected, so their number is held within what a
/// vector can be asked to hold.
#[verifier::external_body]
pub(crate) fn pairs_of_positions(n: usize) -> (pairs: Vec<(usize, usize)>)
    requires
        n * n <= usize::MAX,
    ensures
        pairs@ == index_pairs(n as nat),
{
    (0..n).tuple_combinations().collect()
}

} // verus!
