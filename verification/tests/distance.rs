use hamming_sets::{bit_width, hd};

#[test]
fn test_hd() {
    assert_eq!(hd(0b111, 0b000), 3);
    assert_eq!(hd(0b111, 0b001), 2);
    assert_eq!(hd(0b110, 0b001), 3);
    assert_eq!(hd(0b1110, 0b1001), 3);
}

#[test]
fn hd_of_a_symbol_with_itself_is_zero() {
    for a in 0..=255u8 {
        assert_eq!(hd(a, a), 0);
    }
}

#[test]
fn hd_is_symmetric() {
    for a in 0..=255u8 {
        for b in 0..=255u8 {
            assert_eq!(hd(a, b), hd(b, a));
        }
    }
}

#[test]
fn hd_is_zero_only_for_equal_symbols() {
    for a in 0..=255u8 {
        for b in 0..=255u8 {
            assert_eq!(hd(a, b) == 0, a == b);
        }
    }
}

#[test]
fn hd_counts_the_differing_bits() {
    for a in 0..=255u8 {
        for b in 0..=255u8 {
            let mut differing = 0;
            for bit in 0..8 {
                if (a >> bit) & 1 != (b >> bit) & 1 {
                    differing += 1;
                }
            }
            assert_eq!(hd(a, b), differing);
        }
    }
}

#[test]
fn hd_of_all_bits_is_eight() {
    assert_eq!(hd(0, 255), 8);
    assert_eq!(hd(0b1010_1010, 0b0101_0101), 8);
}

#[test]
fn hd_of_small_symbols() {
    assert_eq!(hd(0, 1), 1);
    assert_eq!(hd(0, 2), 1);
    assert_eq!(hd(1, 2), 2);
    assert_eq!(hd(5, 7), 1);
    assert_eq!(hd(5, 0), 2);
    assert_eq!(hd(7, 0), 3);
}

#[test]
fn bit_width_of_symbols() {
    assert_eq!(bit_width(0), 0);
    assert_eq!(bit_width(1), 1);
    assert_eq!(bit_width(2), 2);
    assert_eq!(bit_width(3), 2);
    assert_eq!(bit_width(4), 3);
    assert_eq!(bit_width(7), 3);
    assert_eq!(bit_width(8), 4);
    assert_eq!(bit_width(0xf), 4);
    assert_eq!(bit_width(0x7f), 7);
    assert_eq!(bit_width(0x80), 8);
    assert_eq!(bit_width(0xff), 8);
}

#[test]
fn bit_width_is_the_least_that_holds_the_symbol() {
    for x in 0..=255u8 {
        let w = u32::from(bit_width(x));
        assert!(u32::from(x) < (1u32 << w));
        if w > 0 {
            assert!(u32::from(x) >= (1u32 << (w - 1)));
        }
    }
}
