//! Sorting of candidates into the order of a search result.

use crate::candidate::{
    comes_before, lemma_comes_before_irreflexive, lemma_comes_before_transitive,
    lemma_not_before_transitive, Candidate, CandidateView,
};
use vstd::multiset::Multiset;
use vstd::prelude::*;
use vstd::seq_lib::{lemma_multiset_commutative, to_multiset_build, to_multiset_len};

verus! {

/// What the candidates of `list` hold, one after the other.
pub open spec fn views(list: Seq<Candidate>) -> Seq<CandidateView> {
    Seq::new(list.len(), |i: int| list[i]@)
}

/// Whether `list` is sorted: no candidate comes before one that stands earlier
/// in the list.
pub open spec fn in_order(list: Seq<CandidateView>) -> bool {
    forall|i: int, j: int| 0 <= i < j < list.len() ==> !comes_before(list[j], list[i])
}

/// Whether `list` is sorted backwards: no candidate comes before one that
/// stands later in the list.
spec fn in_reverse_order(list: Seq<CandidateView>) -> bool {
    forall|i: int, j: int| 0 <= i < j < list.len() ==> !comes_before(list[i], list[j])
}

/// Whether no candidate of `upper` comes before one of `lower`.
spec fn all_below(lower: Seq<CandidateView>, upper: Seq<CandidateView>) -> bool {
    forall|i: int, j: int|
        0 <= i < lower.len() && 0 <= j < upper.len() ==> !comes_before(upper[j], lower[i])
}

/// A list without candidates holds nothing.
proof fn lemma_views_empty(list: Seq<Candidate>)
    requires
        list.len() == 0,
    ensures
        views(list).to_multiset() == Multiset::<CandidateView>::empty(),
{
    to_multiset_len(views(list));
    assert(views(list).to_multiset() =~= Multiset::<CandidateView>::empty());
}

/// Taking the last candidate off a list takes it out of what the list holds.
proof fn lemma_views_drop_last(list: Seq<Candidate>)
    requires
        list.len() > 0,
    ensures
        views(list.drop_last()) == views(list).drop_last(),
        views(list).to_multiset() == views(list.drop_last()).to_multiset().insert(list.last()@),
{
    assert(views(list.drop_last()) =~= views(list).drop_last());
    assert(views(list) =~= views(list).drop_last().push(list.last()@));
    to_multiset_build(views(list).drop_last(), list.last()@);
}

/// Adding a candidate at the end of a list adds it to what the list holds.
proof fn lemma_views_push(list: Seq<Candidate>, c: Candidate)
    ensures
        views(list.push(c)) == views(list).push(c@),
        views(list.push(c)).to_multiset() == views(list).to_multiset().insert(c@),
{
    assert(views(list.push(c)) =~= views(list).push(c@));
    to_multiset_build(views(list), c@);
}

/// Turns a list that is sorted backwards into a sorted list of the same
/// candidates.
fn reversed(list: Vec<Candidate>) -> (turned: Vec<Candidate>)
    requires
        in_reverse_order(views(list@)),
    ensures
        in_order(views(turned@)),
        views(turned@).to_multiset() == views(list@).to_multiset(),
{
    let ghost given = views(list@).to_multiset();
    let mut list = list;
    let mut turned: Vec<Candidate> = Vec::new();
    proof {
        lemma_views_empty(turned@);
        assert(views(turned@).to_multiset().add(views(list@).to_multiset()) =~= given);
    }
    while list.len() > 0
        invariant
            in_reverse_order(views(list@)),
            in_order(views(turned@)),
            all_below(views(turned@), views(list@)),
            views(turned@).to_multiset().add(views(list@).to_multiset()) == given,
        decreases list@.len(),
    {
        let ghost before = list@;
        let ghost turned_before = turned@;
        let c = list.pop().unwrap();
        turned.push(c);
        proof {
            assert(list@ == before.drop_last());
            lemma_views_drop_last(before);
            lemma_views_push(turned_before, c);
            assert(views(turned@).to_multiset().add(views(list@).to_multiset()) =~= given);
            assert forall|i: int, j: int| 0 <= i < j < views(turned@).len() implies !comes_before(
                views(turned@)[j],
                views(turned@)[i],
            ) by {
                if j == turned_before.len() {
                    assert(views(turned@)[i] == views(turned_before)[i]);
                    assert(views(turned@)[j] == views(before)[before.len() - 1]);
                } else {
                    assert(views(turned@)[i] == views(turned_before)[i]);
                    assert(views(turned@)[j] == views(turned_before)[j]);
                }
            }
            assert forall|i: int, j: int|
                0 <= i < views(turned@).len() && 0 <= j < views(list@).len() implies !comes_before(
                views(list@)[j],
                views(turned@)[i],
            ) by {
                assert(views(list@)[j] == views(before)[j]);
                if i == turned_before.len() {
                    assert(views(turned@)[i] == views(before)[before.len() - 1]);
                } else {
                    assert(views(turned@)[i] == views(turned_before)[i]);
                }
            }
            assert forall|i: int, j: int| 0 <= i < j < views(list@).len() implies !comes_before(
                views(list@)[i],
                views(list@)[j],
            ) by {
                assert(views(list@)[i] == views(before)[i]);
                assert(views(list@)[j] == views(before)[j]);
            }
        }
    }
    proof {
        lemma_views_empty(list@);
        assert(views(turned@).to_multiset() =~= given);
    }
    turned
}

/// Merges two sorted lists into one sorted list of the candidates of both.
fn merge(left: Vec<Candidate>, right: Vec<Candidate>) -> (merged: Vec<Candidate>)
    requires
        in_order(views(left@)),
        in_order(views(right@)),
    ensures
        in_order(views(merged@)),
        views(merged@).to_multiset() == views(left@).to_multiset().add(views(right@).to_multiset()),
{
    let ghost given = views(left@).to_multiset().add(views(right@).to_multiset());
    let mut left = left;
    let mut right = right;
    // The candidates from the last one down: the lists give up their last
    // candidate without moving the others.
    let mut taken: Vec<Candidate> = Vec::new();
    proof {
        lemma_views_empty(taken@);
        assert(views(taken@).to_multiset().add(views(left@).to_multiset()).add(
            views(right@).to_multiset(),
        ) =~= given);
    }
    while left.len() > 0 || right.len() > 0
        invariant
            in_order(views(left@)),
            in_order(views(right@)),
            in_reverse_order(views(taken@)),
            all_below(views(left@), views(taken@)),
            all_below(views(right@), views(taken@)),
            views(taken@).to_multiset().add(views(left@).to_multiset()).add(
                views(right@).to_multiset(),
            ) == given,
        decreases left@.len() + right@.len(),
    {
        let ghost left_before = left@;
        let ghost right_before = right@;
        let ghost taken_before = taken@;
        let from_left = if right.len() == 0 {
            true
        } else if left.len() == 0 {
            false
        } else {
            right[right.len() - 1].precedes(&left[left.len() - 1])
        };
        if from_left {
            let c = left.pop().unwrap();
            taken.push(c);
            proof {
                lemma_views_drop_last(left_before);
                lemma_views_push(taken_before, c);
                assert(views(taken@).to_multiset().add(views(left@).to_multiset()).add(
                    views(right@).to_multiset(),
                ) =~= given);
                assert forall|j: int| 0 <= j < right@.len() implies !comes_before(
                    c@,
                    #[trigger] views(right@)[j],
                ) by {
                    let last = views(right@)[right@.len() - 1];
                    lemma_comes_before_irreflexive(last);
                    if comes_before(last, c@) && comes_before(c@, last) {
                        lemma_comes_before_transitive(last, c@, last);
                    }
                    if j < right@.len() - 1 {
                        lemma_not_before_transitive(views(right@)[j], last, c@);
                    }
                }
                lemma_taken(left_before, right@, taken_before, taken@);
            }
        } else {
            let c = right.pop().unwrap();
            taken.push(c);
            proof {
                lemma_views_drop_last(right_before);
                lemma_views_push(taken_before, c);
                assert(views(taken@).to_multiset().add(views(left@).to_multiset()).add(
                    views(right@).to_multiset(),
                ) =~= given);
                assert forall|j: int| 0 <= j < left@.len() implies !comes_before(
                    c@,
                    #[trigger] views(left@)[j],
                ) by {
                    let last = views(left@)[left@.len() - 1];
                    if j < left@.len() - 1 {
                        lemma_not_before_transitive(views(left@)[j], last, c@);
                    }
                }
                lemma_taken(right_before, left@, taken_before, taken@);
            }
        }
    }
    proof {
        lemma_views_empty(left@);
        lemma_views_empty(right@);
        assert(views(taken@).to_multiset() =~= given);
    }
    reversed(taken)
}

/// Moving the last candidate of a sorted list `source` to the end of `taken`
/// keeps `taken` sorted backwards and above both lists, where that candidate
/// comes before no candidate of the other list.
proof fn lemma_taken(
    source: Seq<Candidate>,
    other: Seq<Candidate>,
    taken: Seq<Candidate>,
    extended: Seq<Candidate>,
)
    requires
        source.len() > 0,
        extended == taken.push(source.last()),
        in_order(views(source)),
        in_order(views(other)),
        in_reverse_order(views(taken)),
        all_below(views(source), views(taken)),
        all_below(views(other), views(taken)),
        forall|j: int| 0 <= j < other.len() ==> !comes_before(source.last()@, #[trigger] views(other)[j]),
    ensures
        in_order(views(source.drop_last())),
        in_reverse_order(views(extended)),
        all_below(views(source.drop_last()), views(extended)),
        all_below(views(other), views(extended)),
{
    let rest = source.drop_last();
    let c = source.last()@;
    assert(c == views(source)[source.len() - 1]);
    assert forall|i: int, j: int| 0 <= i < j < views(rest).len() implies !comes_before(
        views(rest)[j],
        views(rest)[i],
    ) by {
        assert(views(rest)[i] == views(source)[i]);
        assert(views(rest)[j] == views(source)[j]);
    }
    assert forall|i: int, j: int| 0 <= i < j < views(extended).len() implies !comes_before(
        views(extended)[i],
        views(extended)[j],
    ) by {
        assert(views(extended)[i] == views(taken)[i]);
        if j < taken.len() {
            assert(views(extended)[j] == views(taken)[j]);
        }
    }
    assert forall|i: int, j: int|
        0 <= i < views(rest).len() && 0 <= j < views(extended).len() implies !comes_before(
        views(extended)[j],
        views(rest)[i],
    ) by {
        assert(views(rest)[i] == views(source)[i]);
        if j < taken.len() {
            assert(views(extended)[j] == views(taken)[j]);
        }
    }
    assert forall|i: int, j: int|
        0 <= i < views(other).len() && 0 <= j < views(extended).len() implies !comes_before(
        views(extended)[j],
        views(other)[i],
    ) by {
        if j < taken.len() {
            assert(views(extended)[j] == views(taken)[j]);
        }
    }
}

/// Sorts `list`: the result holds the candidates of `list`, each as often as
/// `list` holds it, and none of them comes before one that stands earlier.
pub fn sort_candidates(list: Vec<Candidate>) -> (sorted: Vec<Candidate>)
    ensures
        in_order(views(sorted@)),
        views(sorted@).to_multiset() == views(list@).to_multiset(),
    decreases list@.len(),
{
    if list.len() <= 1 {
        return list;
    }
    let mut left = list;
    let right = left.split_off(left.len() / 2);
    proof {
        assert(views(list@) =~= views(left@) + views(right@));
        lemma_multiset_commutative(views(left@), views(right@));
    }
    merge(sort_candidates(left), sort_candidates(right))
}

} // verus!
