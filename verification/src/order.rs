//! Lexicographic order of sequences of numbers.

use vstd::prelude::*;

verus! {

/// Outcome of comparing a first value with a second one.
#[derive(Clone, Copy, Debug, PartialEq, Eq, Structural)]
pub enum Relation {
    /// The first value comes before the second.
    Before,
    /// The two values are equal.
    Same,
    /// The first value comes after the second.
    After,
}

/// Whether `a` and `b` agree on their first `p` entries and `a` comes first by
/// what follows: either `a` ends there and `b` goes on, or `a` has the smaller
/// entry at position `p`.
pub open spec fn precedes_at(a: Seq<int>, b: Seq<int>, p: int) -> bool {
    &&& 0 <= p <= a.len()
    &&& p < b.len()
    &&& forall|q: int| 0 <= q < p ==> a[q] == b[q]
    &&& p < a.len() ==> a[p] < b[p]
}

/// Whether `a` comes before `b` in lexicographic order: at the first position
/// where the two differ `a` has the smaller entry, or `a` is a proper prefix of
/// `b`.
pub open spec fn lex_less(a: Seq<int>, b: Seq<int>) -> bool {
    exists|p: int| precedes_at(a, b, p)
}

/// The symbols of `s` as numbers.
pub open spec fn symbol_values(s: Seq<u8>) -> Seq<int> {
    Seq::new(s.len(), |i: int| s[i] as int)
}

/// The counts of `h` as numbers.
pub open spec fn count_values(h: Seq<usize>) -> Seq<int> {
    Seq::new(h.len(), |i: int| h[i] as int)
}

/// Whether the symbols `a` come before the symbols `b` in lexicographic order.
pub open spec fn symbols_precede(a: Seq<u8>, b: Seq<u8>) -> bool {
    lex_less(symbol_values(a), symbol_values(b))
}

/// Whether the counts `a` come before the counts `b` in lexicographic order.
pub open spec fn counts_precede(a: Seq<usize>, b: Seq<usize>) -> bool {
    lex_less(count_values(a), count_values(b))
}

/// No sequence comes before itself.
pub proof fn lemma_lex_irreflexive(a: Seq<int>)
    ensures
        !lex_less(a, a),
{
}

/// Of two sequences at most one comes before the other.
pub proof fn lemma_lex_asymmetric(a: Seq<int>, b: Seq<int>)
    ensures
        !(lex_less(a, b) && lex_less(b, a)),
{
    if lex_less(a, b) && lex_less(b, a) {
        let p = choose|p: int| precedes_at(a, b, p);
        let q = choose|q: int| precedes_at(b, a, q);
        if p < q {
            assert(b[p] == a[p]);
        } else if q < p {
            assert(a[q] == b[q]);
        }
    }
}

/// What comes before a sequence comes before all that this sequence comes
/// before.
pub proof fn lemma_lex_transitive(a: Seq<int>, b: Seq<int>, c: Seq<int>)
    requires
        lex_less(a, b),
        lex_less(b, c),
    ensures
        lex_less(a, c),
{
    let p = choose|p: int| precedes_at(a, b, p);
    let q = choose|q: int| precedes_at(b, c, q);
    if p <= q {
        assert(precedes_at(a, c, p));
    } else {
        assert(precedes_at(a, c, q));
    }
}

/// The first position from `i` on at which `a` and `b` differ or one of them
/// ends.
spec fn first_difference(a: Seq<int>, b: Seq<int>, i: int) -> int
    decreases a.len() - i,
{
    if 0 <= i < a.len() && i < b.len() && a[i] == b[i] {
        first_difference(a, b, i + 1)
    } else {
        i
    }
}

/// Two sequences agree up to their first difference.
proof fn lemma_first_difference(a: Seq<int>, b: Seq<int>, i: int)
    requires
        0 <= i <= a.len(),
        i <= b.len(),
        forall|q: int| 0 <= q < i ==> a[q] == b[q],
    ensures
        i <= first_difference(a, b, i) <= a.len(),
        first_difference(a, b, i) <= b.len(),
        forall|q: int| 0 <= q < first_difference(a, b, i) ==> a[q] == b[q],
        first_difference(a, b, i) < a.len() && first_difference(a, b, i) < b.len() ==> a[first_difference(
            a,
            b,
            i,
        )] != b[first_difference(a, b, i)],
    decreases a.len() - i,
{
    if i < a.len() && i < b.len() && a[i] == b[i] {
        lemma_first_difference(a, b, i + 1);
    }
}

/// Of two different sequences one comes before the other.
pub proof fn lemma_lex_total(a: Seq<int>, b: Seq<int>)
    ensures
        lex_less(a, b) || a == b || lex_less(b, a),
{
    lemma_first_difference(a, b, 0);
    let p = first_difference(a, b, 0);
    if p < a.len() && p < b.len() {
        if a[p] < b[p] {
            assert(precedes_at(a, b, p));
        } else {
            assert(precedes_at(b, a, p));
        }
    } else if p < b.len() {
        assert(precedes_at(a, b, p));
    } else if p < a.len() {
        assert(precedes_at(b, a, p));
    } else {
        assert(a =~= b);
    }
}

/// Compares the counts `a` with the counts `b` in lexicographic order.
pub fn compare_counts(a: &Vec<usize>, b: &Vec<usize>) -> (r: Relation)
    ensures
        r == Relation::Before <==> counts_precede(a@, b@),
        r == Relation::Same <==> a@ == b@,
        r == Relation::After <==> counts_precede(b@, a@),
{
    let ghost x = count_values(a@);
    let ghost y = count_values(b@);
    proof {
        lemma_lex_asymmetric(x, y);
        lemma_lex_irreflexive(x);
    }
    let mut i: usize = 0;
    while i < a.len() && i < b.len()
        invariant
            i <= a@.len(),
            i <= b@.len(),
            x == count_values(a@),
            y == count_values(b@),
            forall|q: int| 0 <= q < i ==> a@[q] == b@[q],
        decreases a@.len() - i,
    {
        if a[i] < b[i] {
            assert(precedes_at(x, y, i as int));
            return Relation::Before;
        }
        if a[i] > b[i] {
            assert(precedes_at(y, x, i as int));
            assert(a@[i as int] != b@[i as int]);
            return Relation::After;
        }
        i += 1;
    }
    if i < b.len() {
        assert(precedes_at(x, y, i as int));
        Relation::Before
    } else if i < a.len() {
        assert(precedes_at(y, x, i as int));
        Relation::After
    } else {
        assert(a@ =~= b@);
        Relation::Same
    }
}

/// Compares the symbols `a` with the symbols `b` in lexicographic order.
pub fn compare_symbols(a: &Vec<u8>, b: &Vec<u8>) -> (r: Relation)
    ensures
        r == Relation::Before <==> symbols_precede(a@, b@),
        r == Relation::Same <==> a@ == b@,
        r == Relation::After <==> symbols_precede(b@, a@),
{
    let ghost x = symbol_values(a@);
    let ghost y = symbol_values(b@);
    proof {
        lemma_lex_asymmetric(x, y);
        lemma_lex_irreflexive(x);
    }
    let mut i: usize = 0;
    while i < a.len() && i < b.len()
        invariant
            i <= a@.len(),
            i <= b@.len(),
            x == symbol_values(a@),
            y == symbol_values(b@),
            forall|q: int| 0 <= q < i ==> a@[q] == b@[q],
        decreases a@.len() - i,
    {
        if a[i] < b[i] {
            assert(precedes_at(x, y, i as int));
            return Relation::Before;
        }
        if a[i] > b[i] {
            assert(precedes_at(y, x, i as int));
            assert(a@[i as int] != b@[i as int]);
            return Relation::After;
        }
        i += 1;
    }
    if i < b.len() {
        assert(precedes_at(x, y, i as int));
        Relation::Before
    } else if i < a.len() {
        assert(precedes_at(y, x, i as int));
        Relation::After
    } else {
        assert(a@ =~= b@);
        Relation::Same
    }
}

} // verus!
