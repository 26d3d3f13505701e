//! Pairwise distances within a set of symbols: the distance matrix, the
//! histogram of distances and the minimum distance.

use crate::distance::{distance, hd, lemma_distance_bound};
use crate::pairs::{
    index_pairs, lemma_index_pairs_len, lemma_pair_entry, lemma_pair_occurs, pair_rank, pairs_of_positions,
};
use crate::width::{bit_width, lemma_distance_within_width, lemma_widest_covers, widest};
use vstd::prelude::*;

verus! {

/// Minimum distance of a set that has no pair of symbols: larger than any
/// distance between two symbols, so that no bound on the minimum distance
/// excludes such a set.
pub const NO_PAIRS: u8 = 0xf;

/// Number of buckets of a histogram of symbols that take fewer than eight bits.
pub const BASE_BUCKETS: usize = 8;

/// Distance between the two symbols of `s` at the positions of `pair`.
pub open spec fn pair_distance(s: Seq<u8>, pair: (usize, usize)) -> nat {
    distance(s[pair.0 as int], s[pair.1 as int])
}

/// The distances of all pairs of positions of `s`, in the order of
/// `index_pairs`.
pub open spec fn pair_distances(s: Seq<u8>) -> Seq<nat> {
    Seq::new(index_pairs(s.len()).len(), |p: int| pair_distance(s, index_pairs(s.len())[p]))
}

/// Number of entries of `ds` that equal `d`.
pub open spec fn occurrences(ds: Seq<nat>, d: nat) -> nat
    decreases ds.len(),
{
    if ds.len() == 0 {
        0
    } else if ds.last() == d {
        occurrences(ds.drop_last(), d) + 1
    } else {
        occurrences(ds.drop_last(), d)
    }
}

/// The smallest entry of `ds`, and `NO_PAIRS` if it is empty or holds nothing
/// smaller.
pub open spec fn smallest(ds: Seq<nat>) -> nat
    decreases ds.len(),
{
    if ds.len() == 0 {
        NO_PAIRS as nat
    } else if ds.last() < smallest(ds.drop_last()) {
        ds.last()
    } else {
        smallest(ds.drop_last())
    }
}

/// The smallest distance between two symbols of `s`, and `NO_PAIRS` for a
/// sequence of fewer than two symbols.
pub open spec fn min_distance(s: Seq<u8>) -> nat {
    smallest(pair_distances(s))
}

/// Number of buckets of the histogram of `s`: one for each distance from zero
/// to the width of its widest symbol, and at least `BASE_BUCKETS`.
pub open spec fn bucket_count(s: Seq<u8>) -> nat {
    if widest(s) + 1 > BASE_BUCKETS {
        widest(s) + 1
    } else {
        BASE_BUCKETS as nat
    }
}

/// For each `d` below `buckets`, the number of entries of `ds` that equal `d`.
pub open spec fn tally(ds: Seq<nat>, buckets: nat) -> Seq<nat> {
    Seq::new(buckets, |d: int| occurrences(ds, d as nat))
}

/// The histogram of `s`: bucket `d` counts the pairs of positions whose
/// symbols are at distance `d`.
pub open spec fn histogram(s: Seq<u8>) -> Seq<nat> {
    tally(pair_distances(s), bucket_count(s))
}

/// The cell of the distance matrix of `s` with index `c`, where the cell of
/// row `i` and column `j` has index `i * s.len() + j`: the distance between the
/// `i`-th and the `j`-th symbol above the diagonal, zero elsewhere.
pub open spec fn matrix_cell(s: Seq<u8>, c: int) -> u8 {
    let i = c / (s.len() as int);
    let j = c % (s.len() as int);
    if i < j {
        distance(s[i], s[j]) as u8
    } else {
        0
    }
}

/// The distance matrix of `s`, row after row.
pub open spec fn distance_matrix(s: Seq<u8>) -> Seq<u8> {
    Seq::new(s.len() * s.len(), |c: int| matrix_cell(s, c))
}

/// The counts of a histogram as natural numbers.
pub open spec fn as_counts(h: Seq<usize>) -> Seq<nat> {
    Seq::new(h.len(), |d: int| h[d] as nat)
}

/// Sum of the counts of a histogram.
pub open spec fn total(h: Seq<nat>) -> nat
    decreases h.len(),
{
    if h.len() == 0 {
        0
    } else {
        total(h.drop_last()) + h.last()
    }
}

/// Whether the loop over the pairs of `n` positions has, after `done` pairs,
/// filled the matrix cell with index `c`.
spec fn filled(c: int, n: nat, done: int) -> bool {
    let i = c / (n as int);
    let j = c % (n as int);
    i < j && 0 <= pair_rank(i, j, n) < done
}

/// No distance occurs more often than there are entries.
proof fn lemma_occurrences_bound(ds: Seq<nat>, d: nat)
    ensures
        occurrences(ds, d) <= ds.len(),
    decreases ds.len(),
{
    if ds.len() > 0 {
        lemma_occurrences_bound(ds.drop_last(), d);
    }
}

/// The distance of every pair of `s` has a bucket in the histogram of `s`.
pub proof fn lemma_distance_has_bucket(s: Seq<u8>, i: int, j: int)
    requires
        0 <= i < s.len(),
        0 <= j < s.len(),
    ensures
        distance(s[i], s[j]) < bucket_count(s),
{
    lemma_widest_covers(s, i);
    lemma_widest_covers(s, j);
    lemma_distance_within_width(s[i], s[j], widest(s));
}

/// Changing one count changes the sum of the counts by as much.
proof fn lemma_total_update(h: Seq<nat>, d: int, count: nat)
    requires
        0 <= d < h.len(),
    ensures
        total(h.update(d, count)) + h[d] == total(h) + count,
    decreases h.len(),
{
    if d < h.len() - 1 {
        lemma_total_update(h.drop_last(), d, count);
        assert(h.update(d, count).drop_last() =~= h.drop_last().update(d, count));
    } else {
        assert(h.update(d, count).drop_last() =~= h.drop_last());
    }
}

/// Where every entry has a bucket, the buckets together count every entry
/// once.
proof fn lemma_tally_total(ds: Seq<nat>, buckets: nat)
    requires
        forall|p: int| 0 <= p < ds.len() ==> ds[p] < buckets,
    ensures
        total(tally(ds, buckets)) == ds.len(),
    decreases ds.len(), buckets,
{
    if ds.len() == 0 {
        if buckets > 0 {
            lemma_tally_total(ds, (buckets - 1) as nat);
            assert(tally(ds, buckets).drop_last() =~= tally(ds, (buckets - 1) as nat));
        }
    } else {
        let rest = ds.drop_last();
        let d = ds.last() as int;
        lemma_tally_total(rest, buckets);
        lemma_total_update(tally(rest, buckets), d, tally(rest, buckets)[d] + 1);
        assert(tally(ds, buckets) =~= tally(rest, buckets).update(d, tally(rest, buckets)[d] + 1));
    }
}

/// The smallest of some distances is the first one that occurs among them.
proof fn lemma_smallest_occurs(ds: Seq<nat>)
    requires
        ds.len() > 0,
        forall|p: int| 0 <= p < ds.len() ==> ds[p] < NO_PAIRS,
    ensures
        smallest(ds) < NO_PAIRS,
        occurrences(ds, smallest(ds)) > 0,
        forall|d: nat| d < smallest(ds) ==> occurrences(ds, d) == 0,
        forall|p: int| 0 <= p < ds.len() ==> smallest(ds) <= ds[p],
        exists|p: int| 0 <= p < ds.len() && ds[p] == smallest(ds),
    decreases ds.len(),
{
    let rest = ds.drop_last();
    if rest.len() > 0 {
        lemma_smallest_occurs(rest);
        let q = choose|q: int| 0 <= q < rest.len() && rest[q] == smallest(rest);
        if ds.last() < smallest(rest) {
            assert(ds[ds.len() - 1] == smallest(ds));
        } else {
            assert(ds[q] == smallest(ds));
        }
        assert forall|p: int| 0 <= p < ds.len() implies smallest(ds) <= ds[p] by {
            if p < rest.len() {
                assert(rest[p] == ds[p]);
            }
        }
        assert forall|d: nat| d < smallest(ds) implies occurrences(ds, d) == 0 by {
            assert(occurrences(rest, d) == 0);
        }
    } else {
        assert(smallest(rest) == NO_PAIRS);
        assert(ds[0] == smallest(ds));
        assert forall|d: nat| d < smallest(ds) implies occurrences(ds, d) == 0 by {
            assert(occurrences(rest, d) == 0);
        }
    }
}

/// The distances of the pairs of `s` are distances between symbols of `s`.
proof fn lemma_pair_distances(s: Seq<u8>, p: int)
    requires
        s.len() <= usize::MAX,
        0 <= p < pair_distances(s).len(),
    ensures
        pair_distances(s)[p] < bucket_count(s),
        pair_distances(s)[p] < NO_PAIRS,
{
    lemma_pair_entry(s.len(), p);
    let pair = index_pairs(s.len())[p];
    lemma_distance_has_bucket(s, pair.0 as int, pair.1 as int);
    lemma_distance_bound(s[pair.0 as int], s[pair.1 as int]);
}

/// The counts of the histogram of `k` symbols add up to the number of pairs,
/// `k * (k - 1) / 2`.
pub proof fn lemma_histogram_total(s: Seq<u8>)
    requires
        s.len() <= usize::MAX,
    ensures
        total(histogram(s)) == s.len() * (s.len() - 1) / 2,
{
    let ds = pair_distances(s);
    assert forall|p: int| 0 <= p < ds.len() implies ds[p] < bucket_count(s) by {
        lemma_pair_distances(s, p);
    }
    lemma_tally_total(ds, bucket_count(s));
    lemma_index_pairs_len(s.len());
}

/// A set of fewer than two symbols has no pair, and its minimum distance is
/// `NO_PAIRS`.
pub proof fn lemma_min_distance_without_pairs(s: Seq<u8>)
    requires
        s.len() < 2,
    ensures
        min_distance(s) == NO_PAIRS,
        forall|d: int| 0 <= d < histogram(s).len() ==> histogram(s)[d] == 0,
{
    lemma_index_pairs_len(s.len());
    assert(s.len() * (s.len() - 1) == 0) by (nonlinear_arith)
        requires
            s.len() == 0 || s.len() == 1,
    ;
}

/// The minimum distance of a set of two or more symbols is the first bucket of
/// its histogram that is not empty.
pub proof fn lemma_min_distance_first_bucket(s: Seq<u8>)
    requires
        2 <= s.len() <= usize::MAX,
    ensures
        min_distance(s) < histogram(s).len(),
        histogram(s)[min_distance(s) as int] > 0,
        forall|d: int| 0 <= d < min_distance(s) ==> histogram(s)[d] == 0,
{
    let ds = pair_distances(s);
    lemma_pair_occurs(s.len(), 0, 1);
    assert forall|p: int| 0 <= p < ds.len() implies ds[p] < NO_PAIRS by {
        lemma_pair_distances(s, p);
    }
    lemma_smallest_occurs(ds);
    let p = choose|p: int| 0 <= p < ds.len() && ds[p] == smallest(ds);
    lemma_pair_distances(s, p);
}

/// No two symbols of a set are closer to each other than its minimum
/// distance.
pub proof fn lemma_min_distance_bounds_pairs(s: Seq<u8>, i: int, j: int)
    requires
        s.len() <= usize::MAX,
        0 <= i < j < s.len(),
    ensures
        min_distance(s) <= distance(s[i], s[j]),
{
    let ds = pair_distances(s);
    lemma_pair_occurs(s.len(), i, j);
    assert forall|p: int| 0 <= p < ds.len() implies ds[p] < NO_PAIRS by {
        lemma_pair_distances(s, p);
    }
    lemma_smallest_occurs(ds);
    assert(ds[pair_rank(i, j, s.len())] == distance(s[i], s[j]));
}

/// In a set of two or more symbols, some two symbols are at its minimum
/// distance from each other.
pub proof fn lemma_min_distance_attained(s: Seq<u8>) -> (pair: (int, int))
    requires
        2 <= s.len() <= usize::MAX,
    ensures
        0 <= pair.0 < pair.1 < s.len(),
        distance(s[pair.0], s[pair.1]) == min_distance(s),
{
    let ds = pair_distances(s);
    lemma_pair_occurs(s.len(), 0, 1);
    assert forall|p: int| 0 <= p < ds.len() implies ds[p] < NO_PAIRS by {
        lemma_pair_distances(s, p);
    }
    lemma_smallest_occurs(ds);
    let p = choose|p: int| 0 <= p < ds.len() && ds[p] == smallest(ds);
    lemma_pair_entry(s.len(), p);
    let pair = index_pairs(s.len())[p];
    (pair.0 as int, pair.1 as int)
}

/// The distance matrix holds the distance between the `i`-th and the `j`-th
/// symbol in row `i` and column `j` where `i < j`, and zero on and below the
/// diagonal.
pub proof fn lemma_matrix_entry(s: Seq<u8>, i: int, j: int)
    requires
        0 <= i < s.len(),
        0 <= j < s.len(),
    ensures
        0 <= i * s.len() + j < distance_matrix(s).len(),
        distance_matrix(s)[i * s.len() + j] == (if i < j {
            distance(s[i], s[j])
        } else {
            0
        }),
{
    let n = s.len() as int;
    assert(0 <= i * n + j < n * n && i * n >= 0) by (nonlinear_arith)
        requires
            0 <= i < n,
            0 <= j < n,
    ;
    vstd::arithmetic::div_mod::lemma_fundamental_div_mod_converse(i * n + j, n, i, j);
    lemma_distance_bound(s[i], s[j]);
}

/// Number of buckets of the histogram of `vals`.
fn histogram_buckets(vals: &[u8]) -> (buckets: usize)
    ensures
        buckets == bucket_count(vals@),
{
    let mut widest_seen: u8 = 0;
    let mut i: usize = 0;
    while i < vals.len()
        invariant
            i <= vals@.len(),
            widest_seen == widest(vals@.take(i as int)),
            widest_seen <= 8,
        decreases vals@.len() - i,
    {
        let w = bit_width(vals[i]);
        proof {
            assert(vals@.take(i + 1).drop_last() =~= vals@.take(i as int));
        }
        if w > widest_seen {
            widest_seen = w;
        }
        i += 1;
    }
    proof {
        assert(vals@.take(i as int) =~= vals@);
    }
    if widest_seen as usize + 1 > BASE_BUCKETS {
        widest_seen as usize + 1
    } else {
        BASE_BUCKETS
    }
}

/// Distances within `vals`: the minimum distance, the histogram of the
/// distances and the distance matrix, in this order.
pub fn hd_for_set(vals: &[u8]) -> (r: (u8, Vec<usize>, Vec<u8>))
    requires
        vals@.len() * vals@.len() <= usize::MAX,
    ensures
        r.0 == min_distance(vals@),
        as_counts(r.1@) == histogram(vals@),
        r.2@ == distance_matrix(vals@),
{
    let n = vals.len();
    let mut hds = vec![0u8; n * n];
    let mut hd_cts = vec![0usize; histogram_buckets(vals)];
    let mut min_hd = NO_PAIRS;

    let pairs = pairs_of_positions(n);
    let ghost ds = pair_distances(vals@);
    proof {
        lemma_index_pairs_len(n as nat);
    }
    let mut p: usize = 0;
    while p < pairs.len()
        invariant
            n == vals@.len(),
            n * n <= usize::MAX,
            pairs@ == index_pairs(n as nat),
            ds == pair_distances(vals@),
            p <= pairs@.len(),
            hd_cts@.len() == bucket_count(vals@),
            hds@.len() == n * n,
            min_hd == smallest(ds.take(p as int)),
            forall|d: int|
                0 <= d < hd_cts@.len() ==> hd_cts@[d] == occurrences(ds.take(p as int), d as nat),
            forall|c: int|
                0 <= c < hds@.len() ==> hds@[c] == (if filled(c, n as nat, p as int) {
                    matrix_cell(vals@, c)
                } else {
                    0
                }),
        decreases pairs@.len() - p,
    {
        let (an, bn) = pairs[p];
        proof {
            lemma_pair_entry(n as nat, p as int);
            lemma_distance_has_bucket(vals@, an as int, bn as int);
            lemma_distance_bound(vals@[an as int], vals@[bn as int]);
        }
        let chd = hd(vals[an], vals[bn]) as u8;
        proof {
            assert(an * n + bn < n * n && an * n >= 0) by (nonlinear_arith)
                requires
                    0 <= an < bn < n,
            ;
            vstd::arithmetic::div_mod::lemma_fundamental_div_mod_converse(
                an * n + bn,
                n as int,
                an as int,
                bn as int,
            );
            lemma_occurrences_bound(ds.take(p as int), chd as nat);
            assert(ds.take(p + 1).drop_last() =~= ds.take(p as int));
            assert forall|c: int| 0 <= c < hds@.len() && c != an * n + bn implies filled(
                c,
                n as nat,
                p + 1,
            ) == filled(c, n as nat, p as int) by {
                let i = c / (n as int);
                let j = c % (n as int);
                if i < j && pair_rank(i, j, n as nat) == p {
                    vstd::arithmetic::div_mod::lemma_fundamental_div_mod(c, n as int);
                    assert(0 <= i) by (nonlinear_arith)
                        requires
                            0 <= c,
                            0 < n,
                            i == c / (n as int),
                    ;
                    lemma_pair_occurs(n as nat, i, j);
                    assert(i == an && j == bn);
                    assert(n * i == an * n) by (nonlinear_arith)
                        requires
                            i == an,
                    ;
                }
            }
        }
        let cell = an * n + bn;
        hds[cell] = chd;
        hd_cts[chd as usize] += 1;
        if chd < min_hd {
            min_hd = chd;
        }
        p += 1;
    }
    proof {
        assert(ds.take(p as int) =~= ds);
        assert(as_counts(hd_cts@) =~= histogram(vals@));
        assert forall|c: int| 0 <= c < hds@.len() implies hds@[c] == matrix_cell(vals@, c) by {
            let i = c / (n as int);
            let j = c % (n as int);
            if i < j {
                vstd::arithmetic::div_mod::lemma_fundamental_div_mod(c, n as int);
                assert(0 <= i < n) by (nonlinear_arith)
                    requires
                        0 <= c < n * n,
                        0 < n,
                        i == c / (n as int),
                ;
                lemma_pair_occurs(n as nat, i, j);
            }
        }
        assert(hds@ =~= distance_matrix(vals@));
    }
    (min_hd, hd_cts, hds)
}

} // verus!
