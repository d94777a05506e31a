use nice_rust::base_range::get_base_range;
use nice_rust::bignat::BigNat;
use nice_rust::field::{
    get_field_benchmark, process_detailed, process_niceonly, validate_detailed_claim,
    validate_niceonly_claim, FieldClaim, ScanError, MAX_SUPPORTED_BASE,
};
use nice_rust::merge::{merge_detailed, merge_niceonly};
use nice_rust::niceness::{get_is_nice, get_num_uniques, number_to_base};
use nice_rust::residue_filter::get_residue_filter;
use nice_rust::scan::{get_near_miss_cutoff, process_range_detailed, process_range_niceonly};
use std::collections::HashMap;

fn big(x: u128) -> BigNat {
    BigNat::from_u128(x)
}

fn claim(base: u32, start: u128, end: u128) -> FieldClaim {
    FieldClaim {
        id: 7,
        username: "someone".to_owned(),
        base,
        search_start: big(start),
        search_end: big(end),
        search_range: big(end.saturating_sub(start)),
    }
}

#[test]
fn unique_count_lies_between_one_and_base() {
    for base in [4u32, 5, 10, 12, 40] {
        for n in 1u128..300 {
            let u = get_num_uniques(&big(n), base);
            assert!(1 <= u && u <= base, "n = {n}, base = {base}: {u}");
        }
    }
}

#[test]
fn unique_count_of_zero_is_zero() {
    assert_eq!(get_num_uniques(&BigNat::zero(), 10), 0);
}

#[test]
fn nice_iff_all_digits_inside_search_range() {
    for base in [7u32, 8, 9, 10, 12, 13, 14] {
        let (start, end) = get_base_range(base);
        for n in to_u128(&start)..to_u128(&end) {
            let n = big(n);
            assert_eq!(get_is_nice(&n, base), get_num_uniques(&n, base) == base);
        }
    }
}

#[test]
fn base_one_mod_five_has_empty_range() {
    for base in [1u32, 6, 11, 16, 21, 121, 1001] {
        assert_eq!(get_base_range(base), (BigNat::zero(), BigNat::zero()));
    }
}

#[test]
fn residue_filter_golden_values_and_determinism() {
    assert_eq!(get_residue_filter(&10), vec![0, 3, 6, 8]);
    assert_eq!(get_residue_filter(&11), Vec::<u32>::new());
    assert_eq!(get_residue_filter(&10), get_residue_filter(&10));
    assert_eq!(get_residue_filter(&2), vec![0]);
}

#[test]
fn scanning_twice_gives_identical_results() {
    let a = process_range_detailed(&big(144), &big(329), 12);
    let b = process_range_detailed(&big(144), &big(329), 12);
    assert_eq!(a.unique_count, b.unique_count);
    assert_eq!(a.near_misses, b.near_misses);
    let c = process_range_niceonly(&big(47), &big(100), 10);
    let d = process_range_niceonly(&big(47), &big(100), 10);
    assert_eq!(c, d);
}

#[test]
fn merged_partitions_equal_one_scan() {
    let whole = process_range_detailed(&big(47), &big(100), 10);
    let mut acc = process_range_detailed(&big(47), &big(47), 10);
    for (s, e) in [(47u128, 60u128), (60, 69), (69, 70), (70, 100)] {
        merge_detailed(&mut acc, process_range_detailed(&big(s), &big(e), 10));
    }
    assert_eq!(acc.unique_count, whole.unique_count);
    assert_eq!(acc.near_misses, whole.near_misses);

    let mut nice = Vec::new();
    for (s, e) in [(47u128, 50u128), (50, 80), (80, 100)] {
        merge_niceonly(&mut nice, process_range_niceonly(&big(s), &big(e), 10));
    }
    assert_eq!(nice, process_range_niceonly(&big(47), &big(100), 10));
}

#[test]
fn base_ten_scenario() {
    let scan = process_range_detailed(&big(47), &big(100), 10);
    assert_eq!(
        scan.histogram_map(),
        HashMap::from([
            (1, 0),
            (2, 0),
            (3, 0),
            (4, 4),
            (5, 5),
            (6, 15),
            (7, 20),
            (8, 7),
            (9, 1),
            (10, 1),
        ])
    );
    assert_eq!(scan.near_misses, vec![(big(69), 10)]);
    assert_eq!(process_range_niceonly(&big(47), &big(100), 10), vec![big(69)]);
}

#[test]
fn base_twelve_scenario() {
    assert_eq!(process_range_niceonly(&big(144), &big(329), 12), Vec::<BigNat>::new());
    let scan = process_range_detailed(&big(144), &big(329), 12);
    assert_eq!(scan.unique_count.iter().map(|&c| c as u64).sum::<u64>(), 185);
}

#[test]
fn base_forty_scenario() {
    let start = 916284264916u128;
    assert_eq!(process_range_niceonly(&big(start), &big(start + 10000), 40), Vec::<BigNat>::new());
}

#[test]
fn near_miss_cutoff_truncates_nine_tenths() {
    assert_eq!(get_near_miss_cutoff(10), 9);
    assert_eq!(get_near_miss_cutoff(12), 10);
    assert_eq!(get_near_miss_cutoff(40), 36);
    assert_eq!(get_near_miss_cutoff(99), 89);
    for base in 2u32..2000 {
        assert_eq!(get_near_miss_cutoff(base), (base as f32 * 0.9) as u32);
    }
}

#[test]
fn invalid_bases_are_rejected() {
    assert_eq!(process_detailed(&claim(11, 47, 100)), Err(ScanError::InvalidBase(11)));
    assert_eq!(process_niceonly(&claim(3, 1, 2)), Err(ScanError::InvalidBase(3)));
    let too_big = MAX_SUPPORTED_BASE + 2;
    assert_eq!(process_niceonly(&claim(too_big, 1, 2)), Err(ScanError::InvalidBase(too_big)));
}

#[test]
fn reversed_range_is_rejected() {
    assert_eq!(process_detailed(&claim(10, 100, 47)), Err(ScanError::MalformedRange));
    assert_eq!(process_niceonly(&claim(10, 100, 47)), Err(ScanError::MalformedRange));
}

#[test]
fn oversized_range_is_rejected_only_when_counting() {
    let c = claim(10, 1, 1 + (1u128 << 32));
    assert_eq!(process_detailed(&c), Err(ScanError::ArithmeticOverflow(10)));
    assert_eq!(validate_detailed_claim(&c), Err(ScanError::ArithmeticOverflow(10)));
    assert_eq!(validate_niceonly_claim(&c), Ok(()));
}

fn decimal_le(a: &BigNat, b: &BigNat) -> bool {
    let (x, y) = (a.to_decimal(), b.to_decimal());
    (x.len(), x) <= (y.len(), y)
}

#[test]
fn search_interval_is_well_formed() {
    for base in 4u32..=400 {
        let (start, end) = get_base_range(base);
        assert!(decimal_le(&start, &end), "base {base}");
    }
}

#[test]
fn empty_range_gives_empty_results() {
    let r = process_detailed(&claim(10, 50, 50)).unwrap();
    let counts = r.unique_count.unwrap();
    assert_eq!(counts.len(), 10);
    assert!(counts.values().all(|&c| c == 0));
    assert_eq!(r.near_misses, Some(Vec::new()));
    let r = process_niceonly(&claim(10, 50, 50)).unwrap();
    assert_eq!(r.nice_list, Some(Vec::new()));
    assert_eq!(r.id, 7);
    assert_eq!(r.username, "someone");
}

#[test]
fn benchmark_field_defaults() {
    let c = get_field_benchmark(None, None).unwrap();
    assert_eq!(c.base, 40);
    assert_eq!(c.search_start, big(1916284264916));
    assert_eq!(c.search_end, big(1916284264916 + 100000));
    assert_eq!(c.search_range, big(100000));
    assert_eq!(c.username, "benchmark");
}

#[test]
fn benchmark_field_is_clipped_to_the_range() {
    let c = get_field_benchmark(Some(10), Some(1000)).unwrap();
    assert_eq!(c.search_start, big(47));
    assert_eq!(c.search_end, big(100));
    assert_eq!(c.search_range, big(53));
    assert_eq!(get_field_benchmark(Some(11), None), Err(ScanError::InvalidBase(11)));
}

#[test]
fn digits_most_significant_first() {
    assert_eq!(number_to_base(&big(4761), 10), vec![4, 7, 6, 1]);
    assert_eq!(number_to_base(&big(255), 16), vec![15, 15]);
    assert_eq!(number_to_base(&BigNat::zero(), 7), Vec::<u32>::new());
    assert_eq!(big(328509).digits_asc(10), vec![9, 0, 5, 8, 2, 3]);
}

#[test]
fn decimal_text_round_trip() {
    let s = "16117196090075248994613996554363597629408239219454";
    assert_eq!(BigNat::from_decimal(s).unwrap().to_decimal(), s);
    assert_eq!(BigNat::from_decimal("007").unwrap(), big(7));
    assert_eq!(BigNat::zero().to_decimal(), "0");
    assert_eq!(big(u128::MAX).to_decimal(), u128::MAX.to_string());
    assert_eq!(BigNat::from_decimal(""), None);
    assert_eq!(BigNat::from_decimal("-5"), None);
    assert_eq!(BigNat::from_decimal("12a"), None);
    assert_eq!(BigNat::from_decimal("+1"), None);
    assert_eq!(BigNat::from_decimal("+123456789012345678901234567890"), None);
    assert_eq!(BigNat::from_decimal(" 1"), None);
}

#[test]
fn small_conversions_and_division() {
    let n = big(1000);
    let (q, r) = n.div_rem_u32(7);
    assert_eq!(q, big(142));
    assert_eq!(r, 6);
    assert_eq!(big(123456789).to_u64(), 123456789);
    assert!(BigNat::zero().is_zero());
    assert!(!big(1).is_zero());
    assert_eq!(BigNat::from_u64(0), BigNat::zero());
    assert_eq!(n.copy(), n);
}

fn to_u128(n: &BigNat) -> u128 {
    n.to_decimal().parse().unwrap()
}

#[test]
fn prefilter_keeps_every_nice_number_in_range() {
    for base in [5u32, 7, 8, 9, 10, 12, 13, 14, 15, 17, 18] {
        let (start, end) = get_base_range(base);
        let (lo, hi) = (to_u128(&start), to_u128(&end));
        let brute: Vec<BigNat> = (lo..hi).map(big).filter(|n| get_is_nice(n, base)).collect();
        assert_eq!(process_range_niceonly(&start, &end, base), brute, "base {base}");
    }
}

#[test]
fn partition_covers_the_range_evenly() {
    let parts = nice_rust::merge::partition_range(&big(47), &big(100), 4);
    let bounds: Vec<(u128, u128)> = parts.iter().map(|(s, e)| (to_u128(s), to_u128(e))).collect();
    assert_eq!(bounds, vec![(47, 61), (61, 74), (74, 87), (87, 100)]);
    let parts = nice_rust::merge::partition_range(&big(5), &big(7), 3);
    let bounds: Vec<(u128, u128)> = parts.iter().map(|(s, e)| (to_u128(s), to_u128(e))).collect();
    assert_eq!(bounds, vec![(5, 6), (6, 7), (7, 7)]);
}

#[test]
fn partitioned_scan_matches_whole_scan() {
    let start = big(916284264916);
    let end = big(916284264916 + 2000);
    let whole = process_range_detailed(&start, &end, 40);
    let mut parts = nice_rust::merge::partition_range(&start, &end, 3).into_iter();
    let (s0, e0) = parts.next().unwrap();
    let mut acc = process_range_detailed(&s0, &e0, 40);
    for (s, e) in parts {
        merge_detailed(&mut acc, process_range_detailed(&s, &e, 40));
    }
    assert_eq!(acc.unique_count, whole.unique_count);
    assert_eq!(acc.near_misses, whole.near_misses);
}
