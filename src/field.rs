//! Fields: the unit of work handed out by the coordinator, and the results
//! handed back.

use crate::base_range::{get_base_range, is_base_range};
use crate::bignat::{nat_add, nat_lt, nat_sub, BigNat};
use crate::scan::{
    counts_of, histogram, histogram_map, near_misses, nats_of, nice_list, pairs_of,
    process_range_detailed, process_range_niceonly, DetailedScan, increasing_within,
    lemma_scan_lists_increasing,
};
use crate::theorems::{lemma_filter_loses_nothing, nice_numbers};
use std::collections::HashMap;
use vstd::prelude::*;

verus! {

/// The largest base this client accepts.
pub const MAX_SUPPORTED_BASE: u32 = 120;

/// The version reported with each submission.
pub const CLIENT_VERSION: &'static str = "0.1.0";

/// The base of a generated benchmark field, unless another is asked for.
pub const BENCHMARK_DEFAULT_BASE: u32 = 40;

/// The size of a generated benchmark field, unless another is asked for.
pub const BENCHMARK_DEFAULT_RANGE: u32 = 100000;

/// Each possible search mode the server and client supports.
#[derive(Debug, Clone, Copy, PartialEq, Eq, Structural)]
pub enum Mode {
    Detailed,
    Niceonly,
}

/// Why a field cannot be searched.
#[derive(Debug, Clone, Copy, PartialEq, Eq, Structural)]
pub enum ScanError {
    /// The base is below 4, above the supported maximum, or 1 modulo 5.
    InvalidBase(u32),
    /// The field starts after it ends.
    MalformedRange,
    /// The field holds more candidates than a 32-bit count can record.
    ArithmeticOverflow(u32),
}

/// A field returned from the server. Used as input for processing.
#[derive(Debug, Clone, PartialEq)]
pub struct FieldClaim {
    pub id: u32,
    pub username: String,
    pub base: u32,
    pub search_start: BigNat,
    pub search_end: BigNat,
    pub search_range: BigNat,
}

/// The compiled results sent to the server after processing. Options for both modes.
#[derive(Debug, PartialEq)]
pub struct FieldSubmit {
    pub id: u32,
    pub username: String,
    pub client_version: String,
    pub unique_count: Option<HashMap<u32, u32>>,
    pub near_misses: Option<Vec<(BigNat, u32)>>,
    pub nice_list: Option<Vec<BigNat>>,
}

/// A base that can be searched: at least 4, at most the supported maximum,
/// and not 1 modulo 5.
pub open spec fn is_valid_base(b: nat) -> bool {
    4 <= b <= MAX_SUPPORTED_BASE && b % 5 != 1
}

/// The error for a nice-only field, if it has one: the base is checked
/// first, then the order of the bounds.
pub open spec fn niceonly_claim_error(base: u32, start: nat, end: nat) -> Option<ScanError> {
    if !is_valid_base(base as nat) {
        Some(ScanError::InvalidBase(base))
    } else if end < start {
        Some(ScanError::MalformedRange)
    } else {
        None
    }
}

/// The error for a detailed field, if it has one: those of a nice-only
/// field, then a number of candidates that a 32-bit histogram bucket could
/// not count.
pub open spec fn detailed_claim_error(base: u32, start: nat, end: nat) -> Option<ScanError> {
    match niceonly_claim_error(base, start, end) {
        Some(err) => Some(err),
        None => if end - start > u32::MAX {
            Some(ScanError::ArithmeticOverflow(base))
        } else {
            None
        },
    }
}

/// `sub` reports the statistics of the field `c`.
pub open spec fn reports_detailed(sub: FieldSubmit, c: FieldClaim) -> bool {
    let b = c.base as nat;
    &&& sub.id == c.id
    &&& sub.username == c.username
    &&& sub.client_version@ == CLIENT_VERSION@
    &&& sub.unique_count is Some
    &&& sub.unique_count->Some_0@ == histogram_map(histogram(c.search_start@, c.search_end@, b))
    &&& sub.near_misses is Some
    &&& pairs_of(sub.near_misses->Some_0@) == near_misses(c.search_start@, c.search_end@, b)
    &&& sub.nice_list is None
}

/// `sub` reports the nice numbers of the field `c`.
pub open spec fn reports_niceonly(sub: FieldSubmit, c: FieldClaim) -> bool {
    let b = c.base as nat;
    &&& sub.id == c.id
    &&& sub.username == c.username
    &&& sub.client_version@ == CLIENT_VERSION@
    &&& sub.unique_count is None
    &&& sub.near_misses is None
    &&& sub.nice_list is Some
    &&& nats_of(sub.nice_list->Some_0@) == nice_list(c.search_start@, c.search_end@, b)
    &&& increasing_within(nats_of(sub.nice_list->Some_0@), c.search_start@, c.search_end@)
    &&& forall|lo: nat, hi: nat|
        2 <= b && is_base_range(b, lo, hi) && lo <= c.search_start@ && c.search_end@ <= hi ==> nats_of(
            sub.nice_list->Some_0@,
        ) == nice_numbers(c.search_start@, c.search_end@, b)
}

/// Checks a nice-only field before any scanning.
pub fn validate_niceonly_claim(claim_data: &FieldClaim) -> (r: Result<(), ScanError>)
    ensures
        match niceonly_claim_error(
            claim_data.base,
            claim_data.search_start@,
            claim_data.search_end@,
        ) {
            Some(err) => r == Err::<(), ScanError>(err),
            None => r is Ok,
        },
{
    let base = claim_data.base;
    if base < 4 || base > MAX_SUPPORTED_BASE || base % 5 == 1 {
        return Err(ScanError::InvalidBase(base));
    }
    if nat_lt(&claim_data.search_end, &claim_data.search_start) {
        return Err(ScanError::MalformedRange);
    }
    Ok(())
}

/// Checks a detailed field before any scanning.
pub fn validate_detailed_claim(claim_data: &FieldClaim) -> (r: Result<(), ScanError>)
    ensures
        match detailed_claim_error(
            claim_data.base,
            claim_data.search_start@,
            claim_data.search_end@,
        ) {
            Some(err) => r == Err::<(), ScanError>(err),
            None => r is Ok,
        },
{
    validate_niceonly_claim(claim_data)?;
    let size = nat_sub(&claim_data.search_end, &claim_data.search_start);
    let limit = BigNat::from_u64(u32::MAX as u64);
    if nat_lt(&limit, &size) {
        return Err(ScanError::ArithmeticOverflow(claim_data.base));
    }
    Ok(())
}

/// The submission for a field whose statistics are `scan`.
pub fn detailed_submission(claim_data: &FieldClaim, scan: DetailedScan) -> (r: FieldSubmit)
    requires
        scan.describes(
            claim_data.search_start@,
            claim_data.search_end@,
            claim_data.base as nat,
        ),
        scan.unique_count@.len() <= u32::MAX,
    ensures
        reports_detailed(r, *claim_data),
{
    let unique_count = scan.histogram_map();
    FieldSubmit {
        id: claim_data.id,
        username: claim_data.username.clone(),
        client_version: CLIENT_VERSION.to_owned(),
        unique_count: Some(unique_count),
        near_misses: Some(scan.near_misses),
        nice_list: None,
    }
}

/// The submission for a field whose nice numbers are `found`.
pub fn niceonly_submission(claim_data: &FieldClaim, found: Vec<BigNat>) -> (r: FieldSubmit)
    requires
        nats_of(found@) == nice_list(
            claim_data.search_start@,
            claim_data.search_end@,
            claim_data.base as nat,
        ),
    ensures
        reports_niceonly(r, *claim_data),
{
    proof {
        let (s, e, b) = (claim_data.search_start@, claim_data.search_end@, claim_data.base as nat);
        lemma_scan_lists_increasing(s, e, b);
        assert forall|lo: nat, hi: nat|
            2 <= b && is_base_range(b, lo, hi) && lo <= s && e <= hi implies nats_of(
            found@,
        ) == nice_numbers(s, e, b) by {
            lemma_filter_loses_nothing(s, e, b, lo, hi);
        }
    }
    FieldSubmit {
        id: claim_data.id,
        username: claim_data.username.clone(),
        client_version: CLIENT_VERSION.to_owned(),
        unique_count: None,
        near_misses: None,
        nice_list: Some(found),
    }
}

/// Process a field by aggregating statistics on the niceness of numbers in a range.
pub fn process_detailed(claim_data: &FieldClaim) -> (r: Result<FieldSubmit, ScanError>)
    ensures
        match detailed_claim_error(claim_data.base, claim_data.search_start@, claim_data.search_end@) {
            Some(err) => r == Err::<FieldSubmit, ScanError>(err),
            None => r is Ok && reports_detailed(r->Ok_0, *claim_data),
        },
{
    match validate_detailed_claim(claim_data) {
        Err(e) => Err(e),
        Ok(()) => {
            let scan = process_range_detailed(
                &claim_data.search_start,
                &claim_data.search_end,
                claim_data.base,
            );
            Ok(detailed_submission(claim_data, scan))
        },
    }
}

/// Process a field by looking for completely nice numbers.
pub fn process_niceonly(claim_data: &FieldClaim) -> (r: Result<FieldSubmit, ScanError>)
    ensures
        match niceonly_claim_error(claim_data.base, claim_data.search_start@, claim_data.search_end@) {
            Some(err) => r == Err::<FieldSubmit, ScanError>(err),
            None => r is Ok && reports_niceonly(r->Ok_0, *claim_data),
        },
{
    match validate_niceonly_claim(claim_data) {
        Err(e) => Err(e),
        Ok(()) => {
            let found = process_range_niceonly(
                &claim_data.search_start,
                &claim_data.search_end,
                claim_data.base,
            );
            Ok(niceonly_submission(claim_data, found))
        },
    }
}

/// `o`, or `d` when it is `None`.
pub open spec fn or_default(o: Option<u32>, d: u32) -> u32 {
    match o {
        Some(v) => v,
        None => d,
    }
}

/// `c` is the benchmark field of base `b` over the first `n` candidates of
/// the interval `[s, e)`.
pub open spec fn is_benchmark_field(c: FieldClaim, b: u32, s: nat, e: nat, n: nat) -> bool {
    &&& c.id == 0
    &&& c.username@ == "benchmark"@
    &&& c.base == b
    &&& c.search_start@ == s
    &&& c.search_end@ == if e < s + n {
        e
    } else {
        s + n
    }
    &&& c.search_range@ == c.search_end@ - s
}

/// Generate a field offline for benchmark testing: the first `range`
/// candidates of the search interval of `base` (fewer if the interval is
/// shorter), by default 100000 candidates of base 40.
pub fn get_field_benchmark(base: Option<u32>, range: Option<u32>) -> (r: Result<
    FieldClaim,
    ScanError,
>)
    ensures
        ({
            let b = or_default(base, BENCHMARK_DEFAULT_BASE);
            let n = or_default(range, BENCHMARK_DEFAULT_RANGE) as nat;
            &&& !is_valid_base(b as nat) ==> r == Err::<FieldClaim, ScanError>(
                ScanError::InvalidBase(b),
            )
            &&& is_valid_base(b as nat) ==> exists|s: nat, e: nat|
                {
                    &&& is_base_range(b as nat, s, e)
                    &&& s <= e
                    &&& r is Ok
                    &&& is_benchmark_field(r->Ok_0, b, s, e, n)
                }
        }),
{
    let b = match base {
        Some(v) => v,
        None => BENCHMARK_DEFAULT_BASE,
    };
    let n = match range {
        Some(v) => v,
        None => BENCHMARK_DEFAULT_RANGE,
    };
    if b < 4 || b > MAX_SUPPORTED_BASE || b % 5 == 1 {
        return Err(ScanError::InvalidBase(b));
    }
    let (search_start, range_end) = get_base_range(b);
    let size = BigNat::from_u64(n as u64);
    let limit = nat_add(&search_start, &size);
    let search_end = if nat_lt(&range_end, &limit) {
        range_end
    } else {
        limit
    };
    let search_range = nat_sub(&search_end, &search_start);
    Ok(
        FieldClaim {
            id: 0,
            username: "benchmark".to_owned(),
            base: b,
            search_start,
            search_end,
            search_range,
        },
    )
}

} // verus!
