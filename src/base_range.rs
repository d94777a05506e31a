//! The interval of candidates whose sqube has exactly `base` digits.

use crate::bignat::{nat_ceiling_root, nat_floor_root, nat_pow, BigNat};
use crate::theorems::lemma_base_range_ordered;
use vstd::arithmetic::power::pow;
use vstd::prelude::*;

verus! {

/// `r` is the floor of the `k`-th root of `x`.
pub open spec fn is_floor_root(r: nat, x: nat, k: nat) -> bool {
    pow(r as int, k) <= x < pow(r + 1 as int, k)
}

/// `r` is the ceiling of the `k`-th root of `x`.
pub open spec fn is_ceiling_root(r: nat, x: nat, k: nat) -> bool {
    x <= pow(r as int, k) && (r == 0 || pow(r - 1 as int, k) < x)
}

/// `[start, end)` is the search interval of base `b`, by the residue of `b`
/// modulo 5, with `k = b / 5`:
/// - 0: from the ceiling cube root of `b^(3k-1)` to `b^k`;
/// - 1: empty, `start = end = 0`;
/// - 2: from `b^k` to the floor cube root of `b^(3k+1)`;
/// - 3: from the ceiling cube root of `b^(3k+1)` to the floor square root of `b^(2k+1)`;
/// - 4: from the ceiling square root of `b^(2k+1)` to the floor cube root of `b^(3k+2)`.
pub open spec fn is_base_range(b: nat, start: nat, end: nat) -> bool {
    let k = b / 5;
    let bi = b as int;
    if b % 5 == 0 {
        is_ceiling_root(start, pow(bi, (3 * k - 1) as nat) as nat, 3) && end == pow(bi, k)
    } else if b % 5 == 1 {
        start == 0 && end == 0
    } else if b % 5 == 2 {
        start == pow(bi, k) && is_floor_root(end, pow(bi, 3 * k + 1) as nat, 3)
    } else if b % 5 == 3 {
        is_ceiling_root(start, pow(bi, 3 * k + 1) as nat, 3) && is_floor_root(
            end,
            pow(bi, 2 * k + 1) as nat,
            2,
        )
    } else {
        is_ceiling_root(start, pow(bi, 2 * k + 1) as nat, 2) && is_floor_root(
            end,
            pow(bi, 3 * k + 2) as nat,
            3,
        )
    }
}

/// Get the range of possible values for a base.
pub fn get_base_range(base: u32) -> (r: (BigNat, BigNat))
    requires
        base >= 1,
    ensures
        is_base_range(base as nat, r.0@, r.1@),
        base % 5 == 1 ==> r.0@ == 0 && r.1@ == 0,
        base >= 4 ==> r.0@ <= r.1@,
{
    let b = BigNat::from_u64(base as u64);
    let k: u64 = (base / 5) as u64;
    let m = base % 5;
    let r = if m == 0 {
        let lo = nat_pow(&b, 3 * k - 1);
        (nat_ceiling_root(&lo, 3), nat_pow(&b, k))
    } else if m == 1 {
        (BigNat::zero(), BigNat::zero())
    } else if m == 2 {
        let hi = nat_pow(&b, 3 * k + 1);
        (nat_pow(&b, k), nat_floor_root(&hi, 3))
    } else if m == 3 {
        let lo = nat_pow(&b, 3 * k + 1);
        let hi = nat_pow(&b, 2 * k + 1);
        (nat_ceiling_root(&lo, 3), nat_floor_root(&hi, 2))
    } else {
        let lo = nat_pow(&b, 2 * k + 1);
        let hi = nat_pow(&b, 3 * k + 2);
        (nat_ceiling_root(&lo, 2), nat_floor_root(&hi, 3))
    };
    proof {
        if base >= 4 {
            lemma_base_range_ordered(base as nat, r.0@, r.1@);
        }
    }
    r
}

} // verus!
