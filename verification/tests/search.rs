use hamming_sets::order::{compare_counts, compare_symbols, Relation};
use hamming_sets::sorting::sort_candidates;
use hamming_sets::{generate, hd_for_set, search, Candidate, SearchError, SearchResult, NO_PAIRS};

fn candidate(symbols: &[u8]) -> Candidate {
    Candidate::analyze(symbols.to_vec())
}

fn symbols_of(candidates: &[Candidate]) -> Vec<Vec<u8>> {
    candidates.iter().map(|c| c.symbols.clone()).collect()
}

/// Every ascending choice of `k` symbols out of `0..=sym_max`, from the given
/// prefix on.
fn subsets(sym_max: u8, k: usize, chosen: &mut Vec<u8>, out: &mut Vec<Vec<u8>>) {
    if chosen.len() == k {
        out.push(chosen.clone());
        return;
    }
    let from = match chosen.last() {
        Some(&last) => u16::from(last) + 1,
        None => 0,
    };
    for symbol in from..=u16::from(sym_max) {
        chosen.push(symbol as u8);
        subsets(sym_max, k, chosen, out);
        chosen.pop();
    }
}

fn all_subsets(sym_max: u8, k: usize) -> Vec<Vec<u8>> {
    let mut out = Vec::new();
    subsets(sym_max, k, &mut Vec::new(), &mut out);
    out
}

#[test]
fn search_of_the_first_three_symbols() {
    let found = search(2, 3).unwrap();
    assert_eq!(found.min_distance, 1);
    assert_eq!(found.candidates.len(), 1);
    let only = &found.candidates[0];
    assert_eq!(only.symbols, vec![0, 1, 2]);
    assert_eq!(only.min_distance, 1);
    assert_eq!(only.histogram, vec![0, 2, 1, 0, 0, 0, 0, 0]);
    assert_eq!(only.histogram[1], 2);
    assert_eq!(only.histogram[2], 1);
    assert_eq!(only.matrix, vec![0, 1, 1, 0, 0, 2, 0, 0, 0]);
}

#[test]
fn search_rejects_a_set_larger_than_the_alphabet() {
    assert_eq!(search(1, 5), Err(SearchError::InvalidSetSize));
    assert_eq!(search(0, 2), Err(SearchError::InvalidSetSize));
    assert_eq!(search(255, 257), Err(SearchError::InvalidSetSize));
    assert_eq!(search(7, usize::MAX), Err(SearchError::InvalidSetSize));
}

#[test]
fn search_accepts_the_whole_alphabet() {
    let found = search(1, 2).unwrap();
    assert_eq!(found.min_distance, 1);
    assert_eq!(symbols_of(&found.candidates), vec![vec![0, 1]]);
    let found = search(7, 8).unwrap();
    assert_eq!(found.min_distance, 1);
    assert_eq!(symbols_of(&found.candidates), vec![(0..=7).collect::<Vec<u8>>()]);
    assert_eq!(found.candidates[0].histogram, vec![0, 12, 12, 4, 0, 0, 0, 0]);
}

#[test]
fn search_for_codes_of_three_bits() {
    let found = search(7, 4).unwrap();
    assert_eq!(found.min_distance, 2);
    assert_eq!(symbols_of(&found.candidates), vec![vec![0, 3, 5, 6], vec![1, 2, 4, 7]]);
    for c in &found.candidates {
        assert_eq!(c.min_distance, 2);
        assert_eq!(c.histogram, vec![0, 0, 6, 0, 0, 0, 0, 0]);
    }
}

#[test]
fn search_for_pairs_of_complements() {
    let found = search(255, 2).unwrap();
    assert_eq!(found.min_distance, 8);
    assert_eq!(found.candidates.len(), 128);
    for (x, c) in found.candidates.iter().enumerate() {
        assert_eq!(c.symbols, vec![x as u8, 255 - x as u8]);
        assert_eq!(c.min_distance, 8);
        assert_eq!(c.histogram, vec![0, 0, 0, 0, 0, 0, 0, 0, 1]);
        assert_eq!(c.matrix, vec![0, 8, 0, 0]);
    }
}

#[test]
fn search_for_sets_without_pairs() {
    let found = search(3, 0).unwrap();
    assert_eq!(found.min_distance, NO_PAIRS);
    assert_eq!(found.candidates.len(), 1);
    assert_eq!(found.candidates[0].symbols, Vec::<u8>::new());
    assert_eq!(found.candidates[0].histogram, vec![0; 8]);
    assert_eq!(found.candidates[0].matrix, Vec::<u8>::new());

    let found = search(2, 1).unwrap();
    assert_eq!(found.min_distance, NO_PAIRS);
    assert_eq!(symbols_of(&found.candidates), vec![vec![0], vec![1], vec![2]]);
    for c in &found.candidates {
        assert_eq!(c.min_distance, NO_PAIRS);
        assert_eq!(c.histogram, vec![0; 8]);
        assert_eq!(c.matrix, vec![0]);
    }

    let found = search(0, 0).unwrap();
    assert_eq!(found.min_distance, NO_PAIRS);
    assert_eq!(found.candidates.len(), 1);
}

#[test]
fn search_sorts_by_histogram() {
    // Pairs out of 0..=3: the two pairs at distance 2 are retained.
    let found = search(3, 2).unwrap();
    assert_eq!(found.min_distance, 2);
    assert_eq!(symbols_of(&found.candidates), vec![vec![0, 3], vec![1, 2]]);

    // Triples out of 0..=7 at minimum distance 2: those with all pairs at
    // distance 2 come before those with more such pairs.
    let found = search(7, 3).unwrap();
    assert_eq!(found.min_distance, 2);
    for pair in found.candidates.windows(2) {
        assert!(pair[0].histogram <= pair[1].histogram);
        if pair[0].histogram == pair[1].histogram {
            assert!(pair[0].symbols < pair[1].symbols);
        }
    }
    assert_eq!(found.candidates[0].histogram, vec![0, 0, 3, 0, 0, 0, 0, 0]);
    assert_eq!(found.candidates[0].symbols, vec![0, 3, 5]);
}

#[test]
fn search_agrees_with_a_plain_enumeration() {
    for sym_max in 0..=9u8 {
        for k in 0..=(usize::from(sym_max) + 1).min(5) {
            let found = search(sym_max, k).unwrap();
            let all = all_subsets(sym_max, k);
            assert!(!all.is_empty());
            let best = all.iter().map(|s| hd_for_set(s).0).max().unwrap();
            assert_eq!(found.min_distance, best);

            let mut expected: Vec<Candidate> =
                all.iter().filter(|s| hd_for_set(s).0 == best).map(|s| candidate(s)).collect();
            // no set below the best, none missing
            for c in &found.candidates {
                assert!(c.min_distance >= found.min_distance);
                assert_eq!(c.min_distance, best);
                assert_eq!(*c, candidate(&c.symbols));
                assert!(expected.contains(c));
            }
            for c in &expected {
                assert!(found.candidates.contains(c));
            }
            assert_eq!(found.candidates.len(), expected.len());
            // sorted by histogram, sets of one histogram in the order of their symbols
            expected.sort_by_key(|c| c.histogram.clone());
            assert_eq!(found.candidates, expected);
        }
    }
}

#[test]
fn search_result_for_pairs_of_two_bits() {
    assert_eq!(
        search(3, 2),
        Ok(SearchResult { min_distance: 2, candidates: vec![candidate(&[0, 3]), candidate(&[1, 2])] })
    );
}

#[test]
fn search_gives_the_same_result_each_time() {
    assert_eq!(search(15, 3), search(15, 3));
    assert_eq!(search(6, 4), search(6, 4));
}

#[test]
fn search_for_codes_of_four_bits() {
    // Eight symbols of four bits can be pairwise two bits apart, and only
    // the symbols of even weight and those of odd weight are.
    let found = search(15, 8).unwrap();
    assert_eq!(found.min_distance, 2);
    assert_eq!(
        symbols_of(&found.candidates),
        vec![vec![0, 3, 5, 6, 9, 10, 12, 15], vec![1, 2, 4, 7, 8, 11, 13, 14]]
    );
    for c in &found.candidates {
        assert_eq!(c.histogram, vec![0, 0, 24, 0, 4, 0, 0, 0]);
    }
}

#[test]
fn generate_hands_out_the_sets_in_order() {
    let mut all = generate(3, 2);
    let mut seen = Vec::new();
    while let Some(c) = all.next() {
        assert_eq!(c, candidate(&c.symbols));
        seen.push(c.symbols);
    }
    assert_eq!(
        seen,
        vec![vec![0, 1], vec![0, 2], vec![0, 3], vec![1, 2], vec![1, 3], vec![2, 3]]
    );
    assert_eq!(all.next(), None);
    assert_eq!(all.next(), None);
}

#[test]
fn generate_analyzes_each_set() {
    let mut all = generate(7, 3);
    let first = all.next().unwrap();
    assert_eq!(first.symbols, vec![0, 1, 2]);
    assert_eq!(first.min_distance, 1);
    assert_eq!(first.histogram, vec![0, 2, 1, 0, 0, 0, 0, 0]);
    assert_eq!(first.matrix, vec![0, 1, 1, 0, 0, 2, 0, 0, 0]);
    let second = all.next().unwrap();
    assert_eq!(second.symbols, vec![0, 1, 3]);
    assert_eq!(second.histogram, vec![0, 2, 1, 0, 0, 0, 0, 0]);
}

#[test]
fn generate_agrees_with_a_plain_enumeration() {
    for sym_max in 0..=7u8 {
        for k in 0..=10usize {
            let mut all = generate(sym_max, k);
            let mut seen = Vec::new();
            while let Some(c) = all.next() {
                seen.push(c.symbols);
            }
            if k <= usize::from(sym_max) + 1 {
                assert_eq!(seen, all_subsets(sym_max, k));
            } else {
                assert!(seen.is_empty());
            }
        }
    }
}

#[test]
fn generate_of_the_empty_set() {
    let mut all = generate(5, 0);
    assert_eq!(all.next(), Some(candidate(&[])));
    assert_eq!(all.next(), None);
}

#[test]
fn generate_for_a_small_alphabet() {
    assert_eq!(generate(1, 5).next(), None);
    assert_eq!(generate(0, 2).next(), None);
    assert_eq!(generate(255, 257).next(), None);
    assert_eq!(generate(3, usize::MAX).next(), None);
    let mut all = generate(255, 256);
    assert_eq!(all.next().unwrap().symbols, (0..=255).collect::<Vec<u8>>());
    assert_eq!(all.next(), None);
}

#[test]
fn analyze_holds_the_result_of_hd_for_set() {
    let c = candidate(&[0b101, 0b111, 0b000]);
    assert_eq!(c.symbols, vec![5, 7, 0]);
    assert_eq!(c.min_distance, 1);
    assert_eq!(c.histogram, vec![0, 1, 1, 1, 0, 0, 0, 0]);
    assert_eq!(c.matrix, vec![0, 1, 2, 0, 0, 3, 0, 0, 0]);
}

#[test]
fn precedes_goes_by_histogram_then_symbols() {
    let a = candidate(&[0, 3, 5, 6]); // [0, 0, 6, ..]
    let b = candidate(&[1, 2, 4, 7]); // [0, 0, 6, ..]
    let c = candidate(&[0, 1, 2, 3]); // [0, 4, 2, ..]
    assert!(a.precedes(&b));
    assert!(!b.precedes(&a));
    assert!(!a.precedes(&a));
    assert!(a.precedes(&c));
    assert!(b.precedes(&c));
    assert!(!c.precedes(&a));
    // a shorter histogram comes before its extensions
    let short = candidate(&[0, 127]);
    let long = Candidate { histogram: vec![0, 0, 0, 0, 0, 0, 0, 1, 0], ..short.clone() };
    assert!(short.precedes(&long));
    assert!(!long.precedes(&short));
}

#[test]
fn sort_candidates_orders_and_keeps_all() {
    let sets: Vec<Vec<u8>> = vec![
        vec![0, 1, 2, 3],
        vec![1, 2, 4, 7],
        vec![0, 1, 2, 4],
        vec![0, 3, 5, 6],
        vec![0, 255, 15, 240],
        vec![1, 2, 4, 7],
        vec![4, 5, 6, 7],
    ];
    let list: Vec<Candidate> = sets.iter().map(|s| candidate(s)).collect();
    let sorted = sort_candidates(list.clone());
    assert_eq!(sorted.len(), list.len());
    for pair in sorted.windows(2) {
        assert!(!pair[1].precedes(&pair[0]));
    }
    let mut expected = list;
    expected.sort_by(|a, b| (&a.histogram, &a.symbols).cmp(&(&b.histogram, &b.symbols)));
    assert_eq!(sorted, expected);
    assert_eq!(sorted[0].symbols, vec![0, 255, 15, 240]);
    assert_eq!(sorted[1].symbols, vec![0, 3, 5, 6]);
}

#[test]
fn sort_candidates_of_short_lists() {
    assert_eq!(sort_candidates(vec![]), vec![]);
    assert_eq!(sort_candidates(vec![candidate(&[1, 2])]), vec![candidate(&[1, 2])]);
    assert_eq!(
        sort_candidates(vec![candidate(&[0, 1]), candidate(&[0, 3])]),
        vec![candidate(&[0, 3]), candidate(&[0, 1])]
    );
}

#[test]
fn compare_is_lexicographic() {
    assert_eq!(compare_counts(&vec![0, 1, 2], &vec![0, 1, 2]), Relation::Same);
    assert_eq!(compare_counts(&vec![0, 1, 2], &vec![0, 2, 0]), Relation::Before);
    assert_eq!(compare_counts(&vec![0, 2, 0], &vec![0, 1, 2]), Relation::After);
    assert_eq!(compare_counts(&vec![0, 1], &vec![0, 1, 0]), Relation::Before);
    assert_eq!(compare_counts(&vec![0, 1, 0], &vec![0, 1]), Relation::After);
    assert_eq!(compare_counts(&vec![], &vec![]), Relation::Same);
    assert_eq!(compare_counts(&vec![], &vec![0]), Relation::Before);
    assert_eq!(compare_symbols(&vec![1, 2, 4, 7], &vec![0, 3, 5, 6]), Relation::After);
    assert_eq!(compare_symbols(&vec![0, 3, 5, 6], &vec![1, 2, 4, 7]), Relation::Before);
    assert_eq!(compare_symbols(&vec![9], &vec![9]), Relation::Same);
    assert_eq!(compare_symbols(&vec![9], &vec![9, 0]), Relation::Before);
}
