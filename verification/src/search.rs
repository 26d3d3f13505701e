//! Search for the candidate sets of an alphabet whose minimum distance is the
//! largest.

use crate::analysis::min_distance;
use crate::candidate::{
    comes_before, is_analysis, lemma_analysis_unique, lemma_comes_before_irreflexive,
    lemma_comes_before_total, lemma_comes_before_transitive, Candidate, CandidateView,
};
use crate::enumeration::{
    enumerates, first_symbols, generate, is_candidate_set, is_ordered_list, lemma_candidate_set_exists,
};
use crate::order::{
    count_values, counts_precede, lemma_lex_asymmetric, lemma_lex_irreflexive, symbol_values,
    symbols_precede,
};
use crate::sorting::{in_order, sort_candidates, views};
use vstd::prelude::*;

verus! {

/// Why a search found nothing.
#[derive(Clone, Copy, Debug, PartialEq, Eq, Structural)]
pub enum SearchError {
    /// The alphabet has fewer symbols than a set is to hold.
    InvalidSetSize,
}

/// What a search found.
#[derive(Clone, Debug, PartialEq, Eq)]
pub struct SearchResult {
    /// The largest minimum distance of a candidate set.
    pub min_distance: u8,
    /// The candidate sets of that minimum distance, sorted by histogram.
    pub candidates: Vec<Candidate>,
}

/// What a `SearchResult` holds, as mathematical values.
pub struct SearchResultView {
    pub min_distance: u8,
    pub candidates: Seq<CandidateView>,
}

impl View for SearchResult {
    type V = SearchResultView;

    open spec fn view(&self) -> SearchResultView {
        SearchResultView { min_distance: self.min_distance, candidates: views(self.candidates@) }
    }
}

/// Whether `best` is the largest minimum distance of any candidate set of `k`
/// symbols of the alphabet `0..=sym_max`.
pub open spec fn is_best_distance(best: nat, sym_max: u8, k: nat) -> bool {
    &&& exists|c: Seq<u8>| is_candidate_set(c, sym_max, k) && #[trigger] min_distance(c) == best
    &&& forall|c: Seq<u8>| is_candidate_set(c, sym_max, k) ==> #[trigger] min_distance(c) <= best
}

/// Whether `found` is the result of the search among the candidate sets of `k`
/// symbols of the alphabet `0..=sym_max`: the largest minimum distance of such
/// a set, and every set of that minimum distance, once and with its analysis,
/// in the order of `comes_before`.
pub open spec fn is_search_result(found: SearchResultView, sym_max: u8, k: nat) -> bool {
    &&& is_best_distance(found.min_distance as nat, sym_max, k)
    &&& forall|i: int|
        0 <= i < found.candidates.len() ==> {
            &&& is_candidate_set((#[trigger] found.candidates[i]).symbols, sym_max, k)
            &&& is_analysis(found.candidates[i])
            &&& found.candidates[i].min_distance == found.min_distance
        }
    &&& forall|c: Seq<u8>|
        is_candidate_set(c, sym_max, k) && #[trigger] min_distance(c) == found.min_distance
            ==> exists|i: int|
            0 <= i < found.candidates.len() && (#[trigger] found.candidates[i]).symbols == c
    &&& forall|i: int, j: int|
        0 <= i < j < found.candidates.len() ==> comes_before(
            found.candidates[i],
            found.candidates[j],
        )
}

/// The candidates of a search result stand in ascending order of their
/// histograms, taken as sequences in lexicographic order.
pub proof fn lemma_result_sorted_by_histogram(
    found: SearchResultView,
    sym_max: u8,
    k: nat,
    i: int,
    j: int,
)
    requires
        is_search_result(found, sym_max, k),
        0 <= i < j < found.candidates.len(),
    ensures
        counts_precede(found.candidates[i].histogram, found.candidates[j].histogram)
            || found.candidates[i].histogram == found.candidates[j].histogram,
        !counts_precede(found.candidates[j].histogram, found.candidates[i].histogram),
{
    let a = found.candidates[i];
    let b = found.candidates[j];
    assert(comes_before(a, b));
    lemma_lex_irreflexive(count_values(a.histogram));
    lemma_lex_asymmetric(count_values(a.histogram), count_values(b.histogram));
}

/// No set of a search result has a minimum distance other than the one that
/// the result reports, and no candidate set of the alphabet has a larger one.
pub proof fn lemma_result_holds_the_best(found: SearchResultView, sym_max: u8, k: nat, c: Seq<u8>)
    requires
        is_search_result(found, sym_max, k),
        is_candidate_set(c, sym_max, k),
    ensures
        min_distance(c) <= found.min_distance,
        min_distance(c) == found.min_distance <==> exists|i: int|
            0 <= i < found.candidates.len() && (#[trigger] found.candidates[i]).symbols == c,
{
    if exists|i: int| 0 <= i < found.candidates.len() && (#[trigger] found.candidates[i]).symbols == c {
        let i = choose|i: int|
            0 <= i < found.candidates.len() && (#[trigger] found.candidates[i]).symbols == c;
        assert(is_analysis(found.candidates[i]));
    }
}

/// Two lists in the strict order of `comes_before` that hold the same
/// candidates agree at every position of the first.
proof fn lemma_same_at(x: Seq<CandidateView>, y: Seq<CandidateView>, i: int)
    requires
        forall|p: int, q: int| 0 <= p < q < x.len() ==> comes_before(x[p], x[q]),
        forall|p: int, q: int| 0 <= p < q < y.len() ==> comes_before(y[p], y[q]),
        forall|p: int| 0 <= p < x.len() ==> y.contains(#[trigger] x[p]),
        forall|p: int| 0 <= p < y.len() ==> x.contains(#[trigger] y[p]),
        0 <= i < x.len(),
    ensures
        i < y.len(),
        x[i] == y[i],
    decreases i,
{
    lemma_comes_before_irreflexive(x[i]);
    assert(y.contains(x[i]));
    let j = choose|j: int| 0 <= j < y.len() && y[j] == x[i];
    if j < i {
        lemma_same_at(x, y, j);
        assert(comes_before(x[j], x[i]));
    }
    assert(x.contains(y[i]));
    let m = choose|m: int| 0 <= m < x.len() && x[m] == y[i];
    if m < i {
        lemma_same_at(x, y, m);
        assert(comes_before(y[m], y[i]));
        lemma_comes_before_irreflexive(y[i]);
    }
    if j > i && m > i {
        assert(comes_before(y[i], y[j]));
        assert(comes_before(x[i], x[m]));
        lemma_comes_before_transitive(x[i], x[m], x[i]);
    }
}

/// An alphabet and a set size have one search result.
pub proof fn lemma_search_result_unique(a: SearchResultView, b: SearchResultView, sym_max: u8, k: nat)
    requires
        is_search_result(a, sym_max, k),
        is_search_result(b, sym_max, k),
    ensures
        a == b,
{
    let x = a.candidates;
    let y = b.candidates;
    let best_a = choose|c: Seq<u8>|
        is_candidate_set(c, sym_max, k) && #[trigger] min_distance(c) == a.min_distance as nat;
    let best_b = choose|c: Seq<u8>|
        is_candidate_set(c, sym_max, k) && #[trigger] min_distance(c) == b.min_distance as nat;
    assert(min_distance(best_a) <= b.min_distance);
    assert(min_distance(best_b) <= a.min_distance);
    assert forall|p: int| 0 <= p < x.len() implies y.contains(#[trigger] x[p]) by {
        lemma_result_holds_the_best(b, sym_max, k, x[p].symbols);
        let q = choose|q: int| 0 <= q < y.len() && (#[trigger] y[q]).symbols == x[p].symbols;
        lemma_analysis_unique(x[p], y[q]);
    }
    assert forall|p: int| 0 <= p < y.len() implies x.contains(#[trigger] y[p]) by {
        lemma_result_holds_the_best(a, sym_max, k, y[p].symbols);
        let q = choose|q: int| 0 <= q < x.len() && (#[trigger] x[q]).symbols == y[p].symbols;
        lemma_analysis_unique(y[p], x[q]);
    }
    if x.len() < y.len() {
        lemma_same_at(y, x, x.len() as int);
    }
    assert forall|p: int| 0 <= p < x.len() implies x[p] == y[p] by {
        lemma_same_at(x, y, p);
    }
    if x.len() > 0 {
        lemma_same_at(x, y, x.len() - 1);
    }
    assert(x =~= y);
}

/// Whether `tier` holds what the search retains after the sets `seen`, in the
/// order in which they were seen: `best` is the largest minimum distance among
/// them, zero if that is larger, and `tier` holds the sets at that distance.
spec fn is_tier(tier: Seq<CandidateView>, seen: Seq<Seq<u8>>, best: u8) -> bool {
    &&& forall|q: int| 0 <= q < seen.len() ==> min_distance(#[trigger] seen[q]) <= best
    &&& best == 0 || exists|q: int| 0 <= q < seen.len() && min_distance(#[trigger] seen[q]) == best
    &&& forall|i: int|
        0 <= i < tier.len() ==> {
            &&& is_analysis(#[trigger] tier[i])
            &&& tier[i].min_distance == best
            &&& seen.contains(tier[i].symbols)
        }
    &&& forall|q: int|
        0 <= q < seen.len() && min_distance(#[trigger] seen[q]) == best ==> exists|i: int|
            0 <= i < tier.len() && (#[trigger] tier[i]).symbols == seen[q]
    &&& forall|i: int, j: int|
        0 <= i < j < tier.len() ==> symbols_precede(
            (#[trigger] tier[i]).symbols,
            (#[trigger] tier[j]).symbols,
        )
}

/// What the search retains after one more set: a set of a larger minimum
/// distance than any before it is retained alone, one of the same minimum
/// distance as the best before it is retained with the others, and any other
/// is dropped.
proof fn lemma_tier_step(
    before: Seq<CandidateView>,
    after: Seq<CandidateView>,
    all: Seq<Seq<u8>>,
    done: int,
    best: u8,
    c: CandidateView,
    sym_max: u8,
    k: nat,
)
    requires
        is_ordered_list(all, sym_max, k),
        0 <= done < all.len(),
        is_tier(before, all.take(done), best),
        c.symbols == all[done],
        is_analysis(c),
        after == (if c.min_distance > best {
            seq![c]
        } else if c.min_distance == best {
            before.push(c)
        } else {
            before
        }),
    ensures
        is_tier(
            after,
            all.take(done + 1),
            if c.min_distance > best {
                c.min_distance
            } else {
                best
            },
        ),
{
    let seen = all.take(done);
    let seen_now = all.take(done + 1);
    let best_now = if c.min_distance > best {
        c.min_distance
    } else {
        best
    };
    assert(seen_now[done] == c.symbols);
    assert forall|q: int| 0 <= q < seen_now.len() implies min_distance(#[trigger] seen_now[q])
        <= best_now by {
        if q < done {
            assert(seen_now[q] == seen[q]);
        }
    }
    if best_now != 0 {
        if c.min_distance >= best {
            assert(min_distance(seen_now[done]) == best_now);
        } else {
            let q = choose|q: int| 0 <= q < seen.len() && min_distance(#[trigger] seen[q]) == best;
            assert(seen_now[q] == seen[q]);
        }
    }
    assert forall|i: int| 0 <= i < after.len() implies {
        &&& is_analysis(#[trigger] after[i])
        &&& after[i].min_distance == best_now
        &&& seen_now.contains(after[i].symbols)
    } by {
        if c.min_distance <= best && i < before.len() {
            assert(after[i] == before[i]);
            let q = choose|q: int| 0 <= q < seen.len() && seen[q] == before[i].symbols;
            assert(seen_now[q] == seen[q]);
        }
    }
    assert forall|q: int|
        0 <= q < seen_now.len() && min_distance(#[trigger] seen_now[q]) == best_now implies exists|
        i: int,
    |
        0 <= i < after.len() && (#[trigger] after[i]).symbols == seen_now[q] by {
        if q < done {
            assert(seen_now[q] == seen[q]);
            let i = choose|i: int| 0 <= i < before.len() && (#[trigger] before[i]).symbols == seen[q];
            assert(after[i].symbols == seen_now[q]);
        } else {
            assert(after[after.len() - 1].symbols == seen_now[q]);
        }
    }
    assert forall|i: int, j: int| 0 <= i < j < after.len() implies symbols_precede(
        (#[trigger] after[i]).symbols,
        (#[trigger] after[j]).symbols,
    ) by {
        if c.min_distance == best && j == before.len() {
            assert(after[i] == before[i]);
            let q = choose|q: int| 0 <= q < seen.len() && seen[q] == before[i].symbols;
            assert(symbols_precede(all[q], all[done]));
        } else {
            assert(after[i] == before[i]);
            assert(after[j] == before[j]);
        }
    }
}

/// Sorting what the search has retained after all candidate sets gives the
/// result of the search.
proof fn lemma_sorted_tier(
    tier: Seq<CandidateView>,
    found: SearchResultView,
    all: Seq<Seq<u8>>,
    sym_max: u8,
    k: nat,
)
    requires
        k <= sym_max + 1,
        enumerates(all, sym_max, k),
        is_tier(tier, all, found.min_distance),
        in_order(found.candidates),
        found.candidates.to_multiset() == tier.to_multiset(),
    ensures
        is_search_result(found, sym_max, k),
{
    let best = found.min_distance;
    let sorted = found.candidates;
    // The largest minimum distance.
    lemma_candidate_set_exists(sym_max, k);
    assert(all.contains(first_symbols(k)));
    if best == 0 {
        assert(min_distance(all[0]) <= best);
        assert(is_candidate_set(all[0], sym_max, k));
    } else {
        let q = choose|q: int| 0 <= q < all.len() && min_distance(#[trigger] all[q]) == best;
        assert(is_candidate_set(all[q], sym_max, k));
    }
    assert forall|c: Seq<u8>| is_candidate_set(c, sym_max, k) implies #[trigger] min_distance(c)
        <= best by {
        assert(all.contains(c));
        let q = choose|q: int| 0 <= q < all.len() && all[q] == c;
        assert(min_distance(all[q]) <= best);
    }
    // The sorted list holds what was retained.
    assert forall|i: int| 0 <= i < sorted.len() implies {
        &&& is_candidate_set((#[trigger] sorted[i]).symbols, sym_max, k)
        &&& is_analysis(sorted[i])
        &&& sorted[i].min_distance == best
    } by {
        assert(sorted.contains(sorted[i]));
        vstd::seq_lib::to_multiset_contains(sorted, sorted[i]);
        vstd::seq_lib::to_multiset_contains(tier, sorted[i]);
        let j = choose|j: int| 0 <= j < tier.len() && tier[j] == sorted[i];
        assert(all.contains(tier[j].symbols));
        let q = choose|q: int| 0 <= q < all.len() && all[q] == tier[j].symbols;
        assert(is_candidate_set(all[q], sym_max, k));
    }
    assert forall|c: Seq<u8>|
        is_candidate_set(c, sym_max, k) && #[trigger] min_distance(c) == best implies exists|i: int|
        0 <= i < sorted.len() && (#[trigger] sorted[i]).symbols == c by {
        assert(all.contains(c));
        let q = choose|q: int| 0 <= q < all.len() && all[q] == c;
        assert(min_distance(all[q]) == best);
        let j = choose|j: int| 0 <= j < tier.len() && (#[trigger] tier[j]).symbols == all[q];
        assert(tier.contains(tier[j]));
        vstd::seq_lib::to_multiset_contains(tier, tier[j]);
        vstd::seq_lib::to_multiset_contains(sorted, tier[j]);
        let i = choose|i: int| 0 <= i < sorted.len() && sorted[i] == tier[j];
        assert(sorted[i].symbols == c);
    }
    // No candidate stands twice in it.
    assert forall|i: int, j: int| 0 <= i < tier.len() && 0 <= j < tier.len() && i != j implies tier[i]
        != tier[j] by {
        lemma_lex_irreflexive(symbol_values(tier[i].symbols));
        if i < j {
            assert(symbols_precede(tier[i].symbols, tier[j].symbols));
        } else {
            assert(symbols_precede(tier[j].symbols, tier[i].symbols));
        }
    }
    tier.lemma_multiset_has_no_duplicates();
    sorted.lemma_multiset_has_no_duplicates_conv();
    assert forall|i: int, j: int| 0 <= i < j < sorted.len() implies comes_before(
        sorted[i],
        sorted[j],
    ) by {
        lemma_comes_before_total(sorted[i], sorted[j]);
        if sorted[i].symbols == sorted[j].symbols {
            lemma_analysis_unique(sorted[i], sorted[j]);
        }
    }
}

/// Searches the candidate sets of `needed_codes` symbols of the alphabet
/// `0..=sym_max` for those whose minimum distance is the largest.
pub fn search(sym_max: u8, needed_codes: usize) -> (r: Result<SearchResult, SearchError>)
    ensures
        match r {
            Ok(found) => needed_codes <= sym_max + 1 && is_search_result(
                found@,
                sym_max,
                needed_codes as nat,
            ),
            Err(e) => needed_codes > sym_max + 1 && e == SearchError::InvalidSetSize,
        },
{
    if needed_codes > sym_max as usize + 1 {
        return Err(SearchError::InvalidSetSize);
    }
    let mut sets = generate(sym_max, needed_codes);
    let ghost all = sets.pending();
    let ghost mut done: int = 0;

    let mut best: Vec<Candidate> = Vec::new();
    let mut curr_min_hd: u8 = 0;

    proof {
        assert(all.skip(0) =~= all);
    }
    loop
        invariant
            sets.wf(),
            sets.alphabet_max() == sym_max,
            sets.set_size() == needed_codes,
            enumerates(all, sym_max, needed_codes as nat),
            0 <= done <= all.len(),
            sets.pending() == all.skip(done),
            is_tier(views(best@), all.take(done), curr_min_hd),
        ensures
            done == all.len(),
        decreases all.len() - done,
    {
        let ghost tier_before = best@;
        let ghost best_before = curr_min_hd;
        match sets.next() {
            None => {
                break;
            },
            Some(candidate) => {
                proof {
                    assert(all.skip(done).skip(1) =~= all.skip(done + 1));
                    assert(candidate@.symbols == all[done]);
                }
                if candidate.min_distance > curr_min_hd {
                    curr_min_hd = candidate.min_distance;
                    best.clear();
                    best.push(candidate);
                    assert(views(best@) =~= seq![candidate@]);
                } else if candidate.min_distance == curr_min_hd {
                    best.push(candidate);
                    assert(views(best@) =~= views(tier_before).push(candidate@));
                }
                proof {
                    lemma_tier_step(
                        views(tier_before),
                        views(best@),
                        all,
                        done,
                        best_before,
                        candidate@,
                        sym_max,
                        needed_codes as nat,
                    );
                    done = done + 1;
                }
            },
        }
    }
    let ghost tier = best@;
    let candidates = sort_candidates(best);
    let found = SearchResult { min_distance: curr_min_hd, candidates };
    proof {
        assert(all.take(done) =~= all);
        lemma_sorted_tier(views(tier), found@, all, sym_max, needed_codes as nat);
    }
    Ok(found)
}

} // verus!
