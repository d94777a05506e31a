//! Residues modulo `base - 1` that a fully nice number can have.
//!
//! The digit sum of a number is congruent to the number modulo `base - 1`,
//! and the sqube of a nice number holds each digit once, so its digit sum is
//! `base * (base - 1) / 2`; hence `n² + n³` must be congruent to that value.

use vstd::arithmetic::div_mod::{lemma_add_mod_noop, lemma_mul_mod_noop_left, lemma_mod_bound};
use vstd::prelude::*;

verus! {

/// The residue that `n² + n³` must have modulo `b - 1`.
pub open spec fn residue_target(b: nat) -> nat {
    ((b * (b - 1) / 2) as nat % (b - 1) as nat) as nat
}

/// `r² + r³` has the target residue modulo `b - 1`.
pub open spec fn is_allowed_residue(r: nat, b: nat) -> bool {
    (r * r + r * r * r) % (b - 1) as nat == residue_target(b)
}

/// The allowed residues below `n`, in increasing order.
pub open spec fn residues_below(b: nat, n: nat) -> Seq<u32>
    decreases n,
{
    if n == 0 {
        Seq::empty()
    } else if is_allowed_residue((n - 1) as nat, b) {
        residues_below(b, (n - 1) as nat).push((n - 1) as u32)
    } else {
        residues_below(b, (n - 1) as nat)
    }
}

/// The residue filter of base `b`: the allowed residues in `0..b-1`.
pub open spec fn residue_filter(b: nat) -> Seq<u32> {
    residues_below(b, (b - 1) as nat)
}

/// Get a list of residue filters for a base.
pub fn get_residue_filter(base: &u32) -> (r: Vec<u32>)
    requires
        *base >= 2,
    ensures
        r@ == residue_filter(*base as nat),
{
    let b: u64 = *base as u64;
    let m: u64 = b - 1;
    assert(b * (b - 1) < 0x1_0000_0000_0000_0000) by (nonlinear_arith)
        requires
            b < 0x1_0000_0000,
    ;
    let target: u64 = (b * (b - 1) / 2) % m;
    let mut out: Vec<u32> = Vec::new();
    let mut r: u64 = 0;
    while r < m
        invariant
            m == b - 1,
            1 <= m < 0x1_0000_0000,
            target as nat == residue_target(b as nat),
            r <= m,
            out@ == residues_below(b as nat, r as nat),
        decreases m - r,
    {
        assert(r * r < 0x1_0000_0000_0000_0000) by (nonlinear_arith)
            requires
                r < 0x1_0000_0000,
        ;
        let sq: u64 = r * r % m;
        proof {
            lemma_mod_bound((r * r) as int, m as int);
        }
        assert(sq * r < 0x1_0000_0000_0000_0000) by (nonlinear_arith)
            requires
                sq < 0x1_0000_0000,
                r < 0x1_0000_0000,
        ;
        let cu: u64 = sq * r % m;
        let v: u64 = (sq + cu) % m;
        proof {
            let ri = r as int;
            let mi = m as int;
            lemma_mul_mod_noop_left(ri * ri, ri, mi);
            assert(ri * ri * ri == r * r * r);
            assert(cu as int == (ri * ri * ri) % mi);
            lemma_add_mod_noop(ri * ri, ri * ri * ri, mi);
            assert(v as int == (ri * ri + ri * ri * ri) % mi);
        }
        if v == target {
            out.push(r as u32);
        }
        r = r + 1;
    }
    out
}

} // verus!
