//! The candidate sets of an alphabet, one after the other.

use crate::candidate::{is_analysis, Candidate};
use crate::order::{lemma_lex_irreflexive, lemma_lex_transitive, symbol_values, symbols_precede};
use itertools::Combinations;
use itertools::Itertools;
use std::ops::RangeInclusive;
use vstd::prelude::*;

verus! {

/// Whether the symbols of `c` are distinct and in ascending order.
pub open spec fn is_ascending(c: Seq<u8>) -> bool {
    forall|i: int, j: int| 0 <= i < j < c.len() ==> c[i] < c[j]
}

/// Whether `c` is a candidate set of `k` symbols of the alphabet `0..=sym_max`:
/// `k` distinct symbols of the alphabet, in ascending order.
pub open spec fn is_candidate_set(c: Seq<u8>, sym_max: u8, k: nat) -> bool {
    &&& c.len() == k
    &&& forall|i: int| 0 <= i < c.len() ==> c[i] <= sym_max
    &&& is_ascending(c)
}

/// Whether `sets` holds candidate sets of `k` symbols of the alphabet
/// `0..=sym_max` only, in ascending lexicographic order.
pub open spec fn is_ordered_list(sets: Seq<Seq<u8>>, sym_max: u8, k: nat) -> bool {
    &&& forall|p: int| 0 <= p < sets.len() ==> is_candidate_set(#[trigger] sets[p], sym_max, k)
    &&& forall|p: int, q: int| 0 <= p < q < sets.len() ==> symbols_precede(sets[p], sets[q])
}

/// Whether `sets` holds every candidate set of `k` symbols of the alphabet
/// `0..=sym_max`, and nothing else, in ascending lexicographic order.
pub open spec fn enumerates(sets: Seq<Seq<u8>>, sym_max: u8, k: nat) -> bool {
    &&& is_ordered_list(sets, sym_max, k)
    &&& forall|c: Seq<u8>| is_candidate_set(c, sym_max, k) ==> sets.contains(c)
}

/// The first `k` symbols `0, 1, .., k - 1`.
pub open spec fn first_symbols(k: nat) -> Seq<u8> {
    Seq::new(k, |i: int| i as u8)
}

/// The symbol at position `i` of an ascending sequence is at least `i`.
proof fn lemma_ascending_grows(c: Seq<u8>, i: int)
    requires
        is_ascending(c),
        0 <= i < c.len(),
    ensures
        c[i] >= i,
    decreases i,
{
    if i > 0 {
        lemma_ascending_grows(c, i - 1);
    }
}

/// An alphabet has no candidate set with more symbols than it has itself.
pub proof fn lemma_candidate_set_size(c: Seq<u8>, sym_max: u8, k: nat)
    requires
        is_candidate_set(c, sym_max, k),
    ensures
        k <= sym_max + 1,
{
    if k > 0 {
        lemma_ascending_grows(c, k - 1);
    }
}

/// An alphabet of at least `k` symbols has a candidate set of `k` symbols.
pub proof fn lemma_candidate_set_exists(sym_max: u8, k: nat)
    requires
        k <= sym_max + 1,
    ensures
        is_candidate_set(first_symbols(k), sym_max, k),
{
}

/// What is left of an ordered list after its first set is an ordered list.
pub proof fn lemma_ordered_list_rest(sets: Seq<Seq<u8>>, sym_max: u8, k: nat)
    requires
        is_ordered_list(sets, sym_max, k),
        sets.len() > 0,
    ensures
        is_ordered_list(sets.skip(1), sym_max, k),
{
    let rest = sets.skip(1);
    assert forall|p: int| 0 <= p < rest.len() implies is_candidate_set(
        #[trigger] rest[p],
        sym_max,
        k,
    ) by {
        assert(rest[p] == sets[p + 1]);
    }
    assert forall|p: int, q: int| 0 <= p < q < rest.len() implies symbols_precede(
        rest[p],
        rest[q],
    ) by {
        assert(rest[p] == sets[p + 1]);
        assert(rest[q] == sets[q + 1]);
    }
}

/// Two lists that enumerate the candidate sets of one alphabet agree at every
/// position of the first.
proof fn lemma_same_set_at(a: Seq<Seq<u8>>, b: Seq<Seq<u8>>, sym_max: u8, k: nat, i: int)
    requires
        enumerates(a, sym_max, k),
        enumerates(b, sym_max, k),
        0 <= i < a.len(),
    ensures
        i < b.len(),
        a[i] == b[i],
    decreases i,
{
    lemma_lex_irreflexive(symbol_values(a[i]));
    assert(is_candidate_set(a[i], sym_max, k));
    assert(b.contains(a[i]));
    let j = choose|j: int| 0 <= j < b.len() && b[j] == a[i];
    if j < i {
        lemma_same_set_at(a, b, sym_max, k, j);
        assert(symbols_precede(a[j], a[i]));
    }
    assert(is_candidate_set(b[i], sym_max, k));
    assert(a.contains(b[i]));
    let m = choose|m: int| 0 <= m < a.len() && a[m] == b[i];
    lemma_lex_irreflexive(symbol_values(b[i]));
    if m < i {
        lemma_same_set_at(a, b, sym_max, k, m);
        assert(symbols_precede(b[m], b[i]));
    }
    if j > i && m > i {
        assert(symbols_precede(b[i], b[j]));
        assert(symbols_precede(a[i], a[m]));
        lemma_lex_transitive(symbol_values(a[i]), symbol_values(a[m]), symbol_values(a[i]));
    }
}

/// An alphabet and a set size have one list of candidate sets.
pub proof fn lemma_enumeration_unique(a: Seq<Seq<u8>>, b: Seq<Seq<u8>>, sym_max: u8, k: nat)
    requires
        enumerates(a, sym_max, k),
        enumerates(b, sym_max, k),
    ensures
        a == b,
{
    if a.len() < b.len() {
        lemma_same_set_at(b, a, sym_max, k, a.len() as int);
    }
    if a.len() > 0 {
        lemma_same_set_at(a, b, sym_max, k, a.len() - 1);
    }
    assert forall|p: int| 0 <= p < a.len() implies a[p] == b[p] by {
        lemma_same_set_at(a, b, sym_max, k, p);
    }
    assert(a =~= b);
}

/// `Combinations` of itertools: the iterator over the choices of a fixed number
/// of the items of another iterator. Of a value of it nothing is known but
/// through `pending_sets`.
#[verifier::external_type_specification]
#[verifier::external_body]
#[verifier::reject_recursive_types(I)]
pub struct ExCombinations<I: Iterator>(Combinations<I>);

/// The sets that an iterator over the combinations of a range of symbols has
/// yet to yield, in the order in which it yields them.
pub uninterp spec fn pending_sets(sets: Combinations<RangeInclusive<u8>>) -> Seq<Seq<u8>>;

/// `Itertools::combinations` of itertools, on the range `0..=sym_max`: the
/// iterator that it makes yields each choice of `k` of the symbols
/// `0..=sym_max` once, every choice with its symbols in ascending order, and
/// the choices in ascending lexicographic order. It sets aside room for `k`
/// positions at once, so `k` is held within the size of the alphabet.
#[verifier::external_body]
fn combinations_of(sym_max: u8, k: usize) -> (sets: Combinations<RangeInclusive<u8>>)
    requires
        k <= sym_max + 1,
    ensures
        enumerates(pending_sets(sets), sym_max, k as nat),
{
    (0..=sym_max).combinations(k)
}

/// `Iterator::next` of the combinations of itertools: it yields the first of
/// the pending sets and leaves the others pending; once none is pending it
/// yields `None`, and none is pending thereafter.
#[verifier::external_body]
fn next_combination(sets: &mut Combinations<RangeInclusive<u8>>) -> (set: Option<Vec<u8>>)
    ensures
        match set {
            Some(symbols) => {
                &&& pending_sets(*old(sets)).len() > 0
                &&& symbols@ == pending_sets(*old(sets))[0]
                &&& pending_sets(*final(sets)) == pending_sets(*old(sets)).skip(1)
            },
            None => pending_sets(*old(sets)).len() == 0 && pending_sets(*final(sets)).len() == 0,
        },
{
    sets.next()
}

/// The candidate sets of an alphabet, handed out one at a time, each with the
/// distances within it.
pub struct Candidates {
    /// The combinations that are left, unless the alphabet has too few symbols
    /// for a single set.
    sets: Option<Combinations<RangeInclusive<u8>>>,
    /// The largest symbol of the alphabet.
    sym_max: Ghost<u8>,
    /// The number of symbols of a set.
    size: Ghost<nat>,
}

impl Candidates {
    /// The sets that are yet to be handed out, in their order.
    pub closed spec fn pending(&self) -> Seq<Seq<u8>> {
        match self.sets {
            Some(sets) => pending_sets(sets),
            None => Seq::empty(),
        }
    }

    /// The largest symbol of the alphabet.
    pub closed spec fn alphabet_max(&self) -> u8 {
        self.sym_max@
    }

    /// The number of symbols of each set.
    pub closed spec fn set_size(&self) -> nat {
        self.size@
    }

    /// The pending sets are candidate sets of the alphabet, in ascending
    /// lexicographic order.
    pub open spec fn wf(&self) -> bool {
        is_ordered_list(self.pending(), self.alphabet_max(), self.set_size())
    }

    /// Hands out the next set with the distances within it, if a set is left.
    pub fn next(&mut self) -> (candidate: Option<Candidate>)
        requires
            old(self).wf(),
        ensures
            final(self).wf(),
            final(self).alphabet_max() == old(self).alphabet_max(),
            final(self).set_size() == old(self).set_size(),
            match candidate {
                Some(c) => {
                    &&& old(self).pending().len() > 0
                    &&& c@.symbols == old(self).pending()[0]
                    &&& is_analysis(c@)
                    &&& final(self).pending() == old(self).pending().skip(1)
                },
                None => old(self).pending().len() == 0 && final(self).pending().len() == 0,
            },
    {
        let set = match &mut self.sets {
            Some(sets) => next_combination(sets),
            None => None,
        };
        match set {
            Some(symbols) => {
                proof {
                    let first = old(self).pending()[0];
                    lemma_ordered_list_rest(
                        old(self).pending(),
                        old(self).alphabet_max(),
                        old(self).set_size(),
                    );
                    lemma_candidate_set_size(first, old(self).alphabet_max(), old(self).set_size());
                    assert(first.len() * first.len() <= 256 * 256) by (nonlinear_arith)
                        requires
                            first.len() <= 256,
                    ;
                }
                Some(Candidate::analyze(symbols))
            },
            None => None,
        }
    }
}

/// The candidate sets of `needed_codes` symbols of the alphabet `0..=sym_max`,
/// from the first one on: an alphabet with fewer than `needed_codes` symbols
/// has none.
pub fn generate(sym_max: u8, needed_codes: usize) -> (all: Candidates)
    ensures
        all.wf(),
        all.alphabet_max() == sym_max,
        all.set_size() == needed_codes,
        enumerates(all.pending(), sym_max, needed_codes as nat),
{
    if needed_codes <= sym_max as usize + 1 {
        Candidates {
            sets: Some(combinations_of(sym_max, needed_codes)),
            sym_max: Ghost(sym_max),
            size: Ghost(needed_codes as nat),
        }
    } else {
        proof {
            assert forall|c: Seq<u8>| is_candidate_set(c, sym_max, needed_codes as nat) implies false by {
                lemma_candidate_set_size(c, sym_max, needed_codes as nat);
            }
        }
        Candidates { sets: None, sym_max: Ghost(sym_max), size: Ghost(needed_codes as nat) }
    }
}

} // verus!
