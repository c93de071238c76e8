//! The combinatorial codec: rank, unrank, next_rank and the binomials.

use bfield::{binomial, checked_binomial, next_rank, rank, unrank};

#[test]
fn test_rank() {
    assert_eq!(rank(0, 3), 7);
    assert_eq!(rank(2, 3), 13);
    assert_eq!(rank(0, 3).count_ones(), 3);
    assert_eq!(rank(2, 3).count_ones(), 3);
    assert_eq!(rank(35001, 4).count_ones(), 4);

    // Maximum value of 64 choose 3
    assert_eq!(rank(41663, 3).count_ones(), 3);
}

#[test]
fn test_unrank() {
    // 3 bit markers
    assert_eq!(unrank(7), 0);
    assert_eq!(unrank(13), 2);
}

#[test]
fn test_rank_and_unrank() {
    for k in 1..4u8 {
        for value in [1usize, 23, 45].iter() {
            assert_eq!(unrank(rank(*value, k)), *value as u64);
        }
    }
}

#[test]
fn combinatorial_test_choose() {
    assert_eq!(binomial(1, 1), 1);
    assert_eq!(binomial(10, 1), 10);

    assert_eq!(binomial(5, 2), 10);

    assert_eq!(binomial(5, 3), 10);

    assert_eq!(binomial(5, 4), 5);

    assert_eq!(binomial(5, 5), 1);
    assert_eq!(binomial(20, 5), 15504);

    assert_eq!(binomial(20, 6), 38760);

    assert_eq!(binomial(20, 7), 77520);
    assert_eq!(binomial(23, 7), 245157);

    // test larger weights
    assert_eq!(binomial(8, 8), 1);
    assert_eq!(binomial(9, 8), 9);

    // every value of 64 choose n should work
    assert_eq!(binomial(64, 0), 1);
    assert_eq!(binomial(64, 1), 64);
    assert_eq!(binomial(64, 16), 488526937079580);
    assert_eq!(binomial(64, 32), 1832624140942590534);
    assert_eq!(binomial(64, 48), 488526937079580);
    assert_eq!(binomial(64, 63), 64);
    assert_eq!(binomial(64, 64), 1);

    // super high values can overflow; these are approaching the limit
    assert_eq!(binomial(128, 11), 2433440563030400);
    assert_eq!(binomial(128, 13), 211709328983644800);
    assert_eq!(binomial(256, 9), 11288510714272000);
}

#[test]
fn marker_test_choose() {
    assert_eq!(binomial(1, 1), 1);
    assert_eq!(binomial(10, 1), 10);

    assert_eq!(binomial(5, 2), 10);

    assert_eq!(binomial(5, 3), 10);

    assert_eq!(binomial(5, 4), 5);

    assert_eq!(binomial(5, 5), 1);
    assert_eq!(binomial(20, 5), 15504);

    assert_eq!(binomial(20, 6), 38760);

    assert_eq!(binomial(20, 7), 77520);
    assert_eq!(binomial(23, 7), 245157);
}

#[test]
fn test_choose_overflow_checked() {
    // 256 choose 20 is greater than 2**64
    assert_eq!(checked_binomial(256, 20), None);
    // while nearby values still fit exactly
    assert_eq!(checked_binomial(256, 9), Some(11288510714272000));
}

#[test]
fn test_next_rank() {
    assert_eq!(next_rank(0b1), 0b10);
    assert_eq!(next_rank(0b100), 0b1000);

    assert_eq!(next_rank(0b111), 0b1011);
    assert_eq!(next_rank(0b1000101), 0b1000110);
}

#[test]
fn test_next_rank_keeps_weight() {
    // weight is preserved along the enumeration, up to the top pattern
    for k in 1..10u8 {
        let steps = (checked_binomial(128, k).unwrap_or(u64::MAX) - 1).min(500);
        let mut marker = rank(0, k);
        for _ in 0..steps {
            marker = next_rank(marker);
            assert_eq!(marker.count_ones(), k as u32);
        }
    }
}

#[test]
fn test_codec_bijection_samples() {
    // unrank inverts rank across the supported weights
    for k in 1..10u8 {
        let limit = checked_binomial(64, k).unwrap().min(200_000) as usize;
        for v in [0, 1, limit / 2, limit - 1].iter() {
            let marker = rank(*v, k);
            assert_eq!(marker.count_ones(), k as u32);
            assert_eq!(unrank(marker), *v as u64);
        }
    }
}

#[test]
fn test_rank_out_of_range_sentinel() {
    // one past the last 128-bit pattern of weight 1 yields the 0 sentinel
    assert_eq!(rank(127, 1), 1u128 << 127);
    assert_eq!(rank(128, 1), 0);
    // and weight 2 runs out at 128 choose 2
    assert_eq!(rank(8127, 2).count_ones(), 2);
    assert_eq!(rank(8128, 2), 0);
}
