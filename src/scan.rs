//! Scanning a range of candidates, and merging the results of adjacent ranges.

use crate::bignat::{nat_add, nat_lt, BigNat};
use crate::digits::{is_nice, unique_count};
use crate::niceness::{get_is_nice, get_num_uniques};
use crate::base_range::is_base_range;
use crate::residue_filter::{get_residue_filter, residue_filter};
use crate::theorems::{lemma_filter_loses_nothing, nice_numbers};
use std::collections::HashMap;
use vstd::prelude::*;

verus! {

/// Candidates whose unique count exceeds this are near misses: `base * 0.9`
/// truncated. (Truncating the single-precision product gives the same value
/// for every base below 2^20.)
pub open spec fn near_miss_cutoff(b: nat) -> nat {
    b * 9 / 10
}

/// A histogram with one more candidate of count `k` (counts outside
/// `1..=len` have no bucket).
pub open spec fn bump(h: Seq<nat>, k: nat) -> Seq<nat> {
    if 1 <= k <= h.len() {
        h.update(k - 1, h[k - 1] + 1)
    } else {
        h
    }
}

/// Bucket `k - 1` holds how many candidates in `[s, e)` have unique count `k`,
/// for `k` in `1..=b`.
pub open spec fn histogram(s: nat, e: nat, b: nat) -> Seq<nat>
    decreases e,
{
    if e <= s {
        Seq::new(b, |i: int| 0nat)
    } else {
        bump(histogram(s, (e - 1) as nat, b), unique_count((e - 1) as nat, b))
    }
}

/// The candidates in `[s, e)` whose unique count exceeds the cutoff, in
/// increasing order, each with its count.
pub open spec fn near_misses(s: nat, e: nat, b: nat) -> Seq<(nat, nat)>
    decreases e,
{
    if e <= s {
        Seq::empty()
    } else {
        let n = (e - 1) as nat;
        if unique_count(n, b) > near_miss_cutoff(b) {
            near_misses(s, n, b).push((n, unique_count(n, b)))
        } else {
            near_misses(s, n, b)
        }
    }
}

/// A candidate passes the residue prefilter of base `b`.
pub open spec fn passes_filter(n: nat, b: nat) -> bool {
    residue_filter(b).contains((n % (b - 1) as nat) as u32)
}

/// The candidates in `[s, e)` that pass the residue prefilter and are nice,
/// in increasing order.
pub open spec fn nice_list(s: nat, e: nat, b: nat) -> Seq<nat>
    decreases e,
{
    if e <= s {
        Seq::empty()
    } else {
        let n = (e - 1) as nat;
        if passes_filter(n, b) && is_nice(n, b) {
            nice_list(s, n, b).push(n)
        } else {
            nice_list(s, n, b)
        }
    }
}

/// The candidates of a near-miss list strictly increase (so none repeats),
/// and all lie in `[s, e)`.
pub open spec fn increasing_candidates(v: Seq<(nat, nat)>, s: nat, e: nat) -> bool {
    &&& forall|i: int, j: int| 0 <= i < j < v.len() ==> v[i].0 < v[j].0
    &&& forall|i: int| 0 <= i < v.len() ==> s <= #[trigger] v[i].0 < e
}

/// The numbers strictly increase (so none repeats), and all lie in `[s, e)`.
pub open spec fn increasing_within(v: Seq<nat>, s: nat, e: nat) -> bool {
    &&& forall|i: int, j: int| 0 <= i < j < v.len() ==> v[i] < v[j]
    &&& forall|i: int| 0 <= i < v.len() ==> s <= #[trigger] v[i] < e
}

/// The near misses and the nice list of `[s, e)` list each candidate of the
/// range at most once, in increasing order.
pub proof fn lemma_scan_lists_increasing(s: nat, e: nat, b: nat)
    ensures
        increasing_candidates(near_misses(s, e, b), s, e),
        increasing_within(nice_list(s, e, b), s, e),
    decreases e,
{
    if e > s {
        let n = (e - 1) as nat;
        lemma_scan_lists_increasing(s, n, b);
    }
}

/// The numbers of a list of big numbers.
pub open spec fn nats_of(v: Seq<BigNat>) -> Seq<nat> {
    v.map_values(|x: BigNat| x@)
}

/// The buckets of a histogram.
pub open spec fn counts_of(v: Seq<u32>) -> Seq<nat> {
    v.map_values(|x: u32| x as nat)
}

/// The candidates and counts of a near-miss list.
pub open spec fn pairs_of(v: Seq<(BigNat, u32)>) -> Seq<(nat, nat)> {
    v.map_values(|p: (BigNat, u32)| (p.0@, p.1 as nat))
}

/// Statistics of a detailed scan.
pub struct DetailedScan {
    /// Bucket `k - 1` counts the candidates with `k` distinct digits.
    pub unique_count: Vec<u32>,
    /// The candidates above the near-miss cutoff, with their counts, in
    /// strictly increasing order of candidate (so each key occurs once).
    pub near_misses: Vec<(BigNat, u32)>,
}

/// A histogram keyed by digit count: `k` maps to bucket `k - 1`, for every
/// `k` in `1..=h.len()`.
pub open spec fn histogram_map(h: Seq<nat>) -> Map<u32, u32> {
    Map::new(|k: u32| 1 <= k <= h.len(), |k: u32| h[k - 1] as u32)
}

impl DetailedScan {
    /// This holds the statistics of `[s, e)` in base `b`.
    pub open spec fn describes(&self, s: nat, e: nat, b: nat) -> bool {
        &&& counts_of(self.unique_count@) == histogram(s, e, b)
        &&& pairs_of(self.near_misses@) == near_misses(s, e, b)
    }

    /// The histogram as a map from digit count to quantity, with every count
    /// `1..=base` present.
    pub fn histogram_map(&self) -> (m: HashMap<u32, u32>)
        requires
            self.unique_count@.len() <= u32::MAX,
        ensures
            m@ == histogram_map(counts_of(self.unique_count@)),
    {
        broadcast use vstd::std_specs::hash::group_hash_axioms;

        let ghost h = self.unique_count@;
        let mut m: HashMap<u32, u32> = HashMap::new();
        let mut i: usize = 0;
        while i < self.unique_count.len()
            invariant
                h == self.unique_count@,
                i <= h.len() <= u32::MAX,
                m@ == Map::new(|k: u32| 1 <= k <= i, |k: u32| h[k - 1]),
            decreases h.len() - i,
        {
            let c = self.unique_count[i];
            m.insert((i + 1) as u32, c);
            assert(m@ =~= Map::new(|k: u32| 1 <= k <= i + 1, |k: u32| h[k - 1]));
            i = i + 1;
        }
        assert(m@ =~= histogram_map(counts_of(h)));
        m
    }
}

/// The near-miss cutoff of a base.
pub fn get_near_miss_cutoff(base: u32) -> (r: u32)
    ensures
        r as nat == near_miss_cutoff(base as nat),
{
    ((base as u64) * 9 / 10) as u32
}

/// `x` occurs in `v`.
fn contains_u32(v: &Vec<u32>, x: u32) -> (r: bool)
    ensures
        r == v@.contains(x),
{
    let mut i: usize = 0;
    while i < v.len()
        invariant
            i <= v@.len(),
            forall|j: int| 0 <= j < i ==> v@[j] != x,
        decreases v@.len() - i,
    {
        if v[i] == x {
            assert(v@[i as int] == x);
            return true;
        }
        i = i + 1;
    }
    false
}

/// Scans every candidate in `[start, end)`: the histogram of unique counts
/// and the near misses.
pub fn process_range_detailed(start: &BigNat, end: &BigNat, base: u32) -> (r: DetailedScan)
    requires
        base >= 2,
        start@ <= end@,
        end@ - start@ <= u32::MAX,
    ensures
        r.describes(start@, end@, base as nat),
        r.unique_count@.len() == base,
        increasing_candidates(pairs_of(r.near_misses@), start@, end@),
{
    let ghost b = base as nat;
    let cutoff = get_near_miss_cutoff(base);
    let mut hist: Vec<u32> = Vec::new();
    let mut i: u32 = 0;
    while i < base
        invariant
            i <= base,
            hist@.len() == i,
            forall|j: int| 0 <= j < i ==> hist@[j] == 0,
        decreases base - i,
    {
        hist.push(0);
        i = i + 1;
    }
    let mut near: Vec<(BigNat, u32)> = Vec::new();
    let one = BigNat::from_u64(1);
    let mut n = start.copy();
    proof {
        assert(counts_of(hist@) =~= histogram(start@, start@, b));
        assert(pairs_of(near@) =~= near_misses(start@, start@, b));
    }
    while nat_lt(&n, end)
        invariant
            b == base as nat,
            base >= 2,
            one@ == 1,
            cutoff as nat == near_miss_cutoff(b),
            start@ <= n@ <= end@,
            end@ - start@ <= u32::MAX,
            hist@.len() == base,
            forall|j: int| 0 <= j < base ==> hist@[j] <= n@ - start@,
            counts_of(hist@) == histogram(start@, n@, b),
            pairs_of(near@) == near_misses(start@, n@, b),
        decreases end@ - n@,
    {
        let u = get_num_uniques(&n, base);
        let ghost h0 = hist@;
        if 1 <= u && u <= base {
            let k = (u - 1) as usize;
            let c = hist[k];
            hist.set(k, c + 1);
        }
        proof {
            assert(counts_of(hist@) =~= bump(counts_of(h0), u as nat));
        }
        if u > cutoff {
            let m = n.copy();
            near.push((m, u));
            proof {
                assert(pairs_of(near@) =~= near_misses(start@, n@, b).push((n@, u as nat)));
            }
        }
        n = nat_add(&n, &one);
    }
    proof {
        lemma_scan_lists_increasing(start@, end@, b);
    }
    DetailedScan { unique_count: hist, near_misses: near }
}

/// Scans `[start, end)` for nice numbers, skipping the candidates whose
/// residue modulo `base - 1` is not in the residue filter.
pub fn process_range_niceonly(start: &BigNat, end: &BigNat, base: u32) -> (r: Vec<BigNat>)
    requires
        base >= 2,
        start@ <= end@,
    ensures
        nats_of(r@) == nice_list(start@, end@, base as nat),
        increasing_within(nats_of(r@), start@, end@),
        forall|lo: nat, hi: nat|
            is_base_range(base as nat, lo, hi) && lo <= start@ && end@ <= hi ==> nats_of(r@)
                == nice_numbers(start@, end@, base as nat),
{
    let ghost b = base as nat;
    let filter = get_residue_filter(&base);
    let mut found: Vec<BigNat> = Vec::new();
    let one = BigNat::from_u64(1);
    let mut n = start.copy();
    proof {
        assert(nats_of(found@) =~= nice_list(start@, start@, b));
    }
    while nat_lt(&n, end)
        invariant
            b == base as nat,
            base >= 2,
            one@ == 1,
            filter@ == residue_filter(b),
            start@ <= n@ <= end@,
            nats_of(found@) == nice_list(start@, n@, b),
        decreases end@ - n@,
    {
        let (_, residue) = n.div_rem_u32(base - 1);
        if contains_u32(&filter, residue) && get_is_nice(&n, base) {
            let m = n.copy();
            found.push(m);
            proof {
                assert(nats_of(found@) =~= nice_list(start@, n@, b).push(n@));
            }
        }
        n = nat_add(&n, &one);
    }
    proof {
        lemma_scan_lists_increasing(start@, end@, b);
        assert forall|lo: nat, hi: nat|
            is_base_range(b, lo, hi) && lo <= start@ && end@ <= hi implies nats_of(found@)
                == nice_numbers(start@, end@, b) by {
            lemma_filter_loses_nothing(start@, end@, b, lo, hi);
        }
    }
    found
}

} // verus!
