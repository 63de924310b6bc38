use sdfgen::functions::bit_compressor;
use sdfgen::functions::bw_to_bits;
use sdfgen::functions::clamp;
use sdfgen::functions::get_needed;
use sdfgen::functions::has_black;
use sdfgen::functions::has_black_and_white;
use sdfgen::functions::has_white;
use sdfgen::functions::is_black;
use sdfgen::functions::is_white;
use sdfgen::functions::log2;
use sdfgen::functions::optimistic_min;
use sdfgen::functions::HAS_BLACK_BIT;
use sdfgen::functions::HAS_WHITE_BIT;

#[test]
fn classify_splits_at_the_middle() {
    assert_eq!(bw_to_bits(0), HAS_BLACK_BIT);
    assert_eq!(bw_to_bits(127), HAS_BLACK_BIT);
    assert_eq!(bw_to_bits(128), HAS_WHITE_BIT);
    assert_eq!(bw_to_bits(255), HAS_WHITE_BIT);
    assert_eq!(HAS_WHITE_BIT, 128);
    assert_eq!(HAS_BLACK_BIT, 64);
}

#[test]
fn merge_is_bitwise_or() {
    assert_eq!(bit_compressor(64, 64, 64, 64), 64);
    assert_eq!(bit_compressor(128, 128, 128, 128), 128);
    assert_eq!(bit_compressor(64, 64, 64, 128), 192);
    assert_eq!(bit_compressor(128, 64, 0, 0), 192);
    assert_eq!(bit_compressor(0, 0, 0, 0), 0);
    assert_eq!(bit_compressor(1, 2, 4, 8), 15);
}

#[test]
fn tag_queries() {
    assert!(has_black_and_white(192));
    assert!(!has_black_and_white(128));
    assert!(!has_black_and_white(64));
    assert!(!has_black_and_white(0));
    assert!(has_white(128));
    assert!(has_white(192));
    assert!(!has_white(64));
    assert!(has_black(64));
    assert!(has_black(192));
    assert!(!has_black(128));
    assert!(is_white(128));
    assert!(!is_white(64));
    assert!(is_black(64));
    assert!(!is_black(128));
}

#[test]
fn needed_is_the_other_class() {
    assert_eq!(get_needed(HAS_WHITE_BIT), HAS_BLACK_BIT);
    assert_eq!(get_needed(HAS_BLACK_BIT), HAS_WHITE_BIT);
}

#[test]
fn log2_of_powers_of_two() {
    assert_eq!(log2(1), Some(0));
    assert_eq!(log2(2), Some(1));
    assert_eq!(log2(4), Some(2));
    assert_eq!(log2(1024), Some(10));
    assert_eq!(log2(1u64 << 63), Some(63));
    let mut i: u8 = 0;
    while i < 64 {
        assert_eq!(log2(1u64 << i), Some(i));
        i += 1;
    }
}

#[test]
fn log2_of_other_numbers() {
    assert_eq!(log2(0), Some(0));
    assert_eq!(log2(3), None);
    assert_eq!(log2(6), None);
    assert_eq!(log2(1023), None);
    assert_eq!(log2(u64::MAX), None);
    assert_eq!(log2((1u64 << 63) + 1), None);
}

#[test]
fn clamp_keeps_values_in_range() {
    assert_eq!(clamp(5, 0, 3), 3);
    assert_eq!(clamp(-1, 0, 3), 0);
    assert_eq!(clamp(2, 0, 3), 2);
    assert_eq!(clamp(0, 0, 3), 0);
    assert_eq!(clamp(3, 0, 3), 3);
    assert_eq!(clamp(7u32, 5u32, 5u32), 5u32);
}

#[test]
fn clamp_with_empty_range_gives_the_lower_end() {
    assert_eq!(clamp(5, 10, 3), 10);
    assert_eq!(clamp(1, 10, 3), 10);
}

#[test]
fn optimistic_min_picks_the_smaller() {
    assert_eq!(optimistic_min(1, 2), 1);
    assert_eq!(optimistic_min(2, 1), 1);
    assert_eq!(optimistic_min(7, 7), 7);
    assert_eq!(optimistic_min(1.5f64, 0.5f64), 0.5f64);
    assert_eq!(optimistic_min(-1.0f64, 0.5f64), -1.0f64);
}
