use hamming_sets::{hd, hd_for_set, NO_PAIRS};

#[test]
fn test_hd_for_set() {
    assert_eq!(hd_for_set(&[0b101, 0b111, 0b000]),
        (1, vec![0,1,1,1,0,0,0,0],
         vec![
        //          0b101,0b111,0b000
        /* 0b101 */    0, 1, 2,
        /* 0b111 */    0, 0, 3,
        /* 0b000 */    0, 0, 0,
         ]));
}

#[test]
fn hd_for_set_of_the_first_three_symbols() {
    let (min, histogram, matrix) = hd_for_set(&[0, 1, 2]);
    assert_eq!(min, 1);
    assert_eq!(histogram, vec![0, 2, 1, 0, 0, 0, 0, 0]);
    assert_eq!(matrix, vec![0, 1, 1, 0, 0, 2, 0, 0, 0]);
}

#[test]
fn hd_for_set_has_a_bucket_for_distance_eight() {
    let (min, histogram, matrix) = hd_for_set(&[0, 255]);
    assert_eq!(min, 8);
    assert_eq!(histogram, vec![0, 0, 0, 0, 0, 0, 0, 0, 1]);
    assert_eq!(histogram[8], 1);
    assert_eq!(matrix, vec![0, 8, 0, 0]);
}

#[test]
fn hd_for_set_sizes_the_histogram_by_the_widest_symbol() {
    assert_eq!(hd_for_set(&[0, 127]).1, vec![0, 0, 0, 0, 0, 0, 0, 1]);
    assert_eq!(hd_for_set(&[128, 129]).1, vec![0, 1, 0, 0, 0, 0, 0, 0, 0]);
    assert_eq!(hd_for_set(&[3]).1.len(), 8);
    assert_eq!(hd_for_set(&[200]).1.len(), 9);
    assert_eq!(hd_for_set(&[]).1.len(), 8);
}

#[test]
fn hd_for_set_without_pairs() {
    assert_eq!(hd_for_set(&[]), (NO_PAIRS, vec![0; 8], vec![]));
    assert_eq!(hd_for_set(&[5]), (NO_PAIRS, vec![0; 8], vec![0]));
    assert_eq!(NO_PAIRS, 0xf);
}

#[test]
fn hd_for_set_keeps_the_order_of_the_symbols() {
    let (min, histogram, matrix) = hd_for_set(&[7, 0, 5, 6]);
    assert_eq!(min, 1);
    assert_eq!(histogram, vec![0, 2, 3, 1, 0, 0, 0, 0]);
    assert_eq!(
        matrix,
        vec![
            0, 3, 1, 1, //
            0, 0, 2, 2, //
            0, 0, 0, 2, //
            0, 0, 0, 0, //
        ]
    );
}

#[test]
fn hd_for_set_counts_equal_symbols_at_distance_zero() {
    let (min, histogram, matrix) = hd_for_set(&[9, 9, 9]);
    assert_eq!(min, 0);
    assert_eq!(histogram, vec![3, 0, 0, 0, 0, 0, 0, 0]);
    assert_eq!(matrix, vec![0; 9]);
}

#[test]
fn histogram_counts_every_pair_once() {
    let sets: Vec<Vec<u8>> = vec![
        vec![],
        vec![1],
        vec![1, 2],
        vec![0, 3, 5, 6],
        vec![0, 255, 15, 240, 170],
        (0..=40).collect(),
        (0..=255).collect(),
    ];
    for set in sets {
        let k = set.len();
        let (_, histogram, _) = hd_for_set(&set);
        assert_eq!(histogram.iter().sum::<usize>(), k * k.saturating_sub(1) / 2);
    }
}

#[test]
fn histogram_of_the_whole_alphabet() {
    let all: Vec<u8> = (0..=255).collect();
    let (min, histogram, matrix) = hd_for_set(&all);
    assert_eq!(min, 1);
    // 256 * C(8, d) / 2 pairs at distance d
    assert_eq!(histogram, vec![0, 1024, 3584, 7168, 8960, 7168, 3584, 1024, 128]);
    assert_eq!(matrix.len(), 256 * 256);
}

#[test]
fn min_distance_is_the_first_bucket_in_use() {
    let sets: Vec<Vec<u8>> = vec![
        vec![1, 2],
        vec![0, 3, 5, 6],
        vec![0, 255],
        vec![0, 255, 15, 240, 170],
        vec![0, 7, 56, 63],
        (10..=20).collect(),
    ];
    for set in sets {
        let (min, histogram, _) = hd_for_set(&set);
        let first = histogram.iter().position(|&count| count != 0).unwrap();
        assert_eq!(usize::from(min), first);
    }
}

#[test]
fn matrix_is_strictly_upper_triangular() {
    let set: Vec<u8> = vec![0, 255, 15, 240, 170, 3];
    let n = set.len();
    let (min, _, matrix) = hd_for_set(&set);
    assert_eq!(matrix.len(), n * n);
    let mut smallest = u32::from(NO_PAIRS);
    for i in 0..n {
        for j in 0..n {
            if i < j {
                assert_eq!(u32::from(matrix[i * n + j]), hd(set[i], set[j]));
                smallest = smallest.min(hd(set[i], set[j]));
            } else {
                assert_eq!(matrix[i * n + j], 0);
            }
        }
    }
    assert_eq!(u32::from(min), smallest);
}
