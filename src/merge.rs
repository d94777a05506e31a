//! Combining the results of adjacent ranges, and why that loses nothing.

use crate::bignat::{nat_add, nat_sub, BigNat};
use crate::scan::{
    bump, counts_of, histogram, near_misses, nice_list, nats_of, pairs_of, DetailedScan,
};
use vstd::prelude::*;

verus! {

/// Pointwise sum of two histograms.
pub open spec fn hist_sum(a: Seq<nat>, c: Seq<nat>) -> Seq<nat> {
    Seq::new(a.len(), |i: int| a[i] + c[i])
}

/// The boundaries never decrease.
pub open spec fn is_ascending(p: Seq<nat>) -> bool {
    forall|i: int, j: int| 0 <= i <= j < p.len() ==> p[i] <= p[j]
}

/// The histograms of the parts `[p[0], p[1])`, `[p[1], p[2])`, ... summed.
pub open spec fn merged_histogram(p: Seq<nat>, b: nat) -> Seq<nat>
    decreases p.len(),
{
    if p.len() <= 1 {
        Seq::new(b, |i: int| 0nat)
    } else {
        hist_sum(
            merged_histogram(p.drop_last(), b),
            histogram(p[p.len() - 2], p.last(), b),
        )
    }
}

/// The near misses of the parts, concatenated in order.
pub open spec fn merged_near_misses(p: Seq<nat>, b: nat) -> Seq<(nat, nat)>
    decreases p.len(),
{
    if p.len() <= 1 {
        Seq::empty()
    } else {
        merged_near_misses(p.drop_last(), b) + near_misses(p[p.len() - 2], p.last(), b)
    }
}

/// The nice lists of the parts, concatenated in order.
pub open spec fn merged_nice_list(p: Seq<nat>, b: nat) -> Seq<nat>
    decreases p.len(),
{
    if p.len() <= 1 {
        Seq::empty()
    } else {
        merged_nice_list(p.drop_last(), b) + nice_list(p[p.len() - 2], p.last(), b)
    }
}

/// A histogram has one bucket per digit count.
pub proof fn lemma_histogram_len(s: nat, e: nat, b: nat)
    ensures
        histogram(s, e, b).len() == b,
    decreases e,
{
    if e > s {
        lemma_histogram_len(s, (e - 1) as nat, b);
    }
}

/// Scanning `[s, e)` gives what scanning `[s, m)` and `[m, e)` and merging
/// gives: bucket-wise sums, and the lists one after the other.
pub proof fn lemma_split_scan(s: nat, m: nat, e: nat, b: nat)
    requires
        s <= m <= e,
    ensures
        histogram(s, e, b) == hist_sum(histogram(s, m, b), histogram(m, e, b)),
        near_misses(s, e, b) == near_misses(s, m, b) + near_misses(m, e, b),
        nice_list(s, e, b) == nice_list(s, m, b) + nice_list(m, e, b),
    decreases e,
{
    lemma_histogram_len(s, m, b);
    lemma_histogram_len(m, e, b);
    lemma_histogram_len(s, e, b);
    if e == m {
        assert(histogram(s, e, b) =~= hist_sum(histogram(s, m, b), histogram(m, e, b)));
        assert(near_misses(s, e, b) =~= near_misses(s, m, b) + near_misses(m, e, b));
        assert(nice_list(s, e, b) =~= nice_list(s, m, b) + nice_list(m, e, b));
    } else {
        let n = (e - 1) as nat;
        lemma_split_scan(s, m, n, b);
        lemma_histogram_len(s, n, b);
        lemma_histogram_len(m, n, b);
        assert(histogram(s, e, b) =~= hist_sum(histogram(s, m, b), histogram(m, e, b)));
        assert(near_misses(s, e, b) =~= near_misses(s, m, b) + near_misses(m, e, b));
        assert(nice_list(s, e, b) =~= nice_list(s, m, b) + nice_list(m, e, b));
    }
}

/// Splitting a range at any ascending boundaries `p[0] <= p[1] <= ...`,
/// scanning each part and merging the partial results gives what one scan of
/// `[p[0], p.last())` gives.
pub proof fn lemma_partition_scan(p: Seq<nat>, b: nat)
    requires
        p.len() >= 1,
        is_ascending(p),
    ensures
        merged_histogram(p, b) == histogram(p[0], p.last(), b),
        merged_near_misses(p, b) == near_misses(p[0], p.last(), b),
        merged_nice_list(p, b) == nice_list(p[0], p.last(), b),
    decreases p.len(),
{
    if p.len() == 1 {
        assert(merged_histogram(p, b) =~= histogram(p[0], p.last(), b));
    } else {
        let q = p.drop_last();
        assert(is_ascending(q));
        lemma_partition_scan(q, b);
        assert(q[0] == p[0] && q.last() == p[p.len() - 2]);
        lemma_split_scan(p[0], p[p.len() - 2], p.last(), b);
    }
}

/// The `i`-th boundary when `[s, s + q * parts + rem)` is cut into `parts`
/// pieces, the first `rem` of them one longer than the others.
pub open spec fn boundary(s: nat, q: nat, rem: nat, i: nat) -> nat {
    s + i * q + if i < rem {
        i
    } else {
        rem
    }
}

/// Splits `[start, end)` into `parts` contiguous pieces whose sizes differ by
/// at most one, longer pieces first.
pub fn partition_range(start: &BigNat, end: &BigNat, parts: u32) -> (r: Vec<(BigNat, BigNat)>)
    requires
        parts >= 1,
        start@ <= end@,
    ensures
        r@.len() == parts,
        ({
            let q = ((end@ - start@) as nat / parts as nat) as nat;
            let rem = ((end@ - start@) as nat % parts as nat) as nat;
            forall|i: int|
                0 <= i < parts ==> {
                    &&& (#[trigger] r@[i]).0@ == boundary(start@, q, rem, i as nat)
                    &&& r@[i].1@ == boundary(start@, q, rem, (i + 1) as nat)
                }
        }),
        boundary(
            start@,
            ((end@ - start@) as nat / parts as nat) as nat,
            ((end@ - start@) as nat % parts as nat) as nat,
            parts as nat,
        ) == end@,
{
    let size = nat_sub(end, start);
    let (q, rem) = size.div_rem_u32(parts);
    let one = BigNat::from_u64(1);
    let longer = nat_add(&q, &one);
    let ghost gq = q@;
    let ghost grem = rem as nat;
    let mut out: Vec<(BigNat, BigNat)> = Vec::new();
    let mut cur = start.copy();
    let mut i: u32 = 0;
    while i < parts
        invariant
            i <= parts,
            gq == q@,
            grem == rem,
            longer@ == q@ + 1,
            out@.len() == i,
            cur@ == boundary(start@, gq, grem, i as nat),
            forall|j: int|
                0 <= j < i ==> {
                    &&& (#[trigger] out@[j]).0@ == boundary(start@, gq, grem, j as nat)
                    &&& out@[j].1@ == boundary(start@, gq, grem, (j + 1) as nat)
                },
        decreases parts - i,
    {
        let next = if i < rem {
            nat_add(&cur, &longer)
        } else {
            nat_add(&cur, &q)
        };
        proof {
            assert((i + 1) * gq == i * gq + gq) by (nonlinear_arith);
        }
        let piece = (cur, next.copy());
        out.push(piece);
        cur = next;
        i = i + 1;
    }
    proof {
        let n = (end@ - start@) as nat;
        assert(n == gq * parts + grem) by (nonlinear_arith)
            requires
                gq == n / (parts as nat),
                grem == n % (parts as nat),
                parts > 0,
        ;
        assert(parts * gq == gq * parts) by (nonlinear_arith);
    }
    out
}

/// Adds the results of the next range to those of the range before it.
pub fn merge_detailed(acc: &mut DetailedScan, part: DetailedScan)
    requires
        old(acc).unique_count@.len() == part.unique_count@.len(),
        forall|i: int|
            0 <= i < part.unique_count@.len() ==> old(acc).unique_count@[i]
                + part.unique_count@[i] <= u32::MAX,
    ensures
        counts_of(final(acc).unique_count@) == hist_sum(
            counts_of(old(acc).unique_count@),
            counts_of(part.unique_count@),
        ),
        pairs_of(final(acc).near_misses@) == pairs_of(old(acc).near_misses@) + pairs_of(
            part.near_misses@,
        ),
{
    let DetailedScan { unique_count, near_misses: mut more } = part;
    let ghost h0 = acc.unique_count@;
    let mut i: usize = 0;
    while i < unique_count.len()
        invariant
            i <= unique_count@.len(),
            h0.len() == unique_count@.len(),
            acc.unique_count@.len() == h0.len(),
            forall|j: int| 0 <= j < unique_count@.len() ==> h0[j] + unique_count@[j] <= u32::MAX,
            forall|j: int| 0 <= j < i ==> acc.unique_count@[j] == h0[j] + unique_count@[j],
            forall|j: int| i <= j < h0.len() ==> acc.unique_count@[j] == h0[j],
            acc.near_misses@ == old(acc).near_misses@,
            h0 == old(acc).unique_count@,
        decreases unique_count@.len() - i,
    {
        assert(acc.unique_count@[i as int] == h0[i as int]);
        assert(h0[i as int] + unique_count@[i as int] <= u32::MAX);
        let c = acc.unique_count[i] + unique_count[i];
        acc.unique_count.set(i, c);
        i = i + 1;
    }
    acc.near_misses.append(&mut more);
    assert(counts_of(acc.unique_count@) =~= hist_sum(counts_of(h0), counts_of(unique_count@)));
    assert(pairs_of(acc.near_misses@) =~= pairs_of(old(acc).near_misses@) + pairs_of(
        part.near_misses@,
    ));
}

/// Appends the nice numbers of the next range to those of the range before it.
pub fn merge_niceonly(acc: &mut Vec<BigNat>, part: Vec<BigNat>)
    ensures
        nats_of(final(acc)@) == nats_of(old(acc)@) + nats_of(part@),
{
    let mut more = part;
    acc.append(&mut more);
    assert(nats_of(acc@) =~= nats_of(old(acc)@) + nats_of(part@));
}

} // verus!
