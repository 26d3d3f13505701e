//! A set of symbols together with what the distance engine found of it.

use crate::analysis::{as_counts, distance_matrix, hd_for_set, histogram, min_distance};
use crate::order::{
    compare_counts, compare_symbols, count_values, counts_precede, lemma_lex_irreflexive, lemma_lex_total,
    lemma_lex_transitive, symbol_values, symbols_precede, Relation,
};
use vstd::prelude::*;

verus! {

/// A set of symbols with its minimum distance, the histogram of its distances
/// and its distance matrix.
#[derive(Clone, Debug, PartialEq, Eq)]
pub struct Candidate {
    /// The symbols of the set, in the order in which they were given.
    pub symbols: Vec<u8>,
    /// The smallest distance between two of the symbols.
    pub min_distance: u8,
    /// For each distance, the number of pairs of symbols at that distance.
    pub histogram: Vec<usize>,
    /// The distance matrix, row after row.
    pub matrix: Vec<u8>,
}

/// What a `Candidate` holds, as mathematical values.
pub struct CandidateView {
    pub symbols: Seq<u8>,
    pub min_distance: u8,
    pub histogram: Seq<usize>,
    pub matrix: Seq<u8>,
}

impl View for Candidate {
    type V = CandidateView;

    open spec fn view(&self) -> CandidateView {
        CandidateView {
            symbols: self.symbols@,
            min_distance: self.min_distance,
            histogram: self.histogram@,
            matrix: self.matrix@,
        }
    }
}

/// Whether `c` holds, beside its symbols, their minimum distance, their
/// histogram and their distance matrix.
pub open spec fn is_analysis(c: CandidateView) -> bool {
    &&& c.min_distance == min_distance(c.symbols)
    &&& as_counts(c.histogram) == histogram(c.symbols)
    &&& c.matrix == distance_matrix(c.symbols)
}

/// Whether `a` comes before `b` in the order of a search result: by the
/// histogram, and among candidates of one histogram by the symbols, both in
/// lexicographic order.
pub open spec fn comes_before(a: CandidateView, b: CandidateView) -> bool {
    ||| counts_precede(a.histogram, b.histogram)
    ||| a.histogram == b.histogram && symbols_precede(a.symbols, b.symbols)
}

/// The symbols of a set determine what its analysis holds.
pub proof fn lemma_analysis_unique(a: CandidateView, b: CandidateView)
    requires
        is_analysis(a),
        is_analysis(b),
        a.symbols == b.symbols,
    ensures
        a == b,
{
    assert(as_counts(a.histogram).len() == as_counts(b.histogram).len());
    assert forall|d: int| 0 <= d < a.histogram.len() implies a.histogram[d] == b.histogram[d] by {
        assert(as_counts(a.histogram)[d] == a.histogram[d] as nat);
        assert(as_counts(b.histogram)[d] == b.histogram[d] as nat);
    }
    assert(a.histogram =~= b.histogram);
}

/// The order of a search result is transitive.
pub proof fn lemma_comes_before_transitive(a: CandidateView, b: CandidateView, c: CandidateView)
    requires
        comes_before(a, b),
        comes_before(b, c),
    ensures
        comes_before(a, c),
{
    if counts_precede(a.histogram, b.histogram) && counts_precede(b.histogram, c.histogram) {
        lemma_lex_transitive(
            count_values(a.histogram),
            count_values(b.histogram),
            count_values(c.histogram),
        );
    }
    if symbols_precede(a.symbols, b.symbols) && symbols_precede(b.symbols, c.symbols) {
        lemma_lex_transitive(
            symbol_values(a.symbols),
            symbol_values(b.symbols),
            symbol_values(c.symbols),
        );
    }
}

/// No candidate comes before itself.
pub proof fn lemma_comes_before_irreflexive(a: CandidateView)
    ensures
        !comes_before(a, a),
{
    lemma_lex_irreflexive(count_values(a.histogram));
    lemma_lex_irreflexive(symbol_values(a.symbols));
}

/// Of two candidates that differ in their histogram or in their symbols, one
/// comes before the other.
pub proof fn lemma_comes_before_total(a: CandidateView, b: CandidateView)
    ensures
        comes_before(a, b) || comes_before(b, a) || (a.histogram == b.histogram && a.symbols
            == b.symbols),
{
    lemma_lex_total(count_values(a.histogram), count_values(b.histogram));
    lemma_lex_total(symbol_values(a.symbols), symbol_values(b.symbols));
    if count_values(a.histogram) == count_values(b.histogram) {
        assert(count_values(a.histogram).len() == count_values(b.histogram).len());
        assert forall|d: int| 0 <= d < a.histogram.len() implies a.histogram[d] == b.histogram[d] by {
            assert(count_values(a.histogram)[d] == a.histogram[d] as int);
            assert(count_values(b.histogram)[d] == b.histogram[d] as int);
        }
        assert(a.histogram =~= b.histogram);
    }
    if symbol_values(a.symbols) == symbol_values(b.symbols) {
        assert(symbol_values(a.symbols).len() == symbol_values(b.symbols).len());
        assert forall|i: int| 0 <= i < a.symbols.len() implies a.symbols[i] == b.symbols[i] by {
            assert(symbol_values(a.symbols)[i] == a.symbols[i] as int);
            assert(symbol_values(b.symbols)[i] == b.symbols[i] as int);
        }
        assert(a.symbols =~= b.symbols);
    }
}

/// Where `b` does not come before `a` and `c` does not come before `b`, `c`
/// does not come before `a`.
pub proof fn lemma_not_before_transitive(a: CandidateView, b: CandidateView, c: CandidateView)
    requires
        !comes_before(b, a),
        !comes_before(c, b),
    ensures
        !comes_before(c, a),
{
    lemma_comes_before_total(a, b);
    lemma_comes_before_total(b, c);
    if comes_before(c, a) {
        if comes_before(a, b) {
            lemma_comes_before_transitive(c, a, b);
        }
    }
}

impl Candidate {
    /// The set `symbols` with the distances within it.
    pub fn analyze(symbols: Vec<u8>) -> (c: Candidate)
        requires
            symbols@.len() * symbols@.len() <= usize::MAX,
        ensures
            c@.symbols == symbols@,
            is_analysis(c@),
    {
        let (min_distance, histogram, matrix) = hd_for_set(symbols.as_slice());
        Candidate { symbols, min_distance, histogram, matrix }
    }

    /// Whether `self` comes before `other` in the order of a search result.
    pub fn precedes(&self, other: &Candidate) -> (r: bool)
        ensures
            r == comes_before(self@, other@),
    {
        match compare_counts(&self.histogram, &other.histogram) {
            Relation::Before => true,
            Relation::Same => {
                match compare_symbols(&self.symbols, &other.symbols) {
                    Relation::Before => true,
                    _ => false,
                }
            },
            Relation::After => false,
        }
    }
}

} // verus!
