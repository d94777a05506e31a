//! Base-`b` digit expansions, and what "nice" means in terms of them.

use vstd::arithmetic::div_mod::lemma_div_decreases;
use vstd::prelude::*;

verus! {

/// The base-`b` digits of `n`, least significant first: repeatedly take the
/// remainder modulo `b` and divide, until the value reaches zero. Zero has
/// no digits.
pub open spec fn digits_asc(n: nat, b: nat) -> Seq<int>
    decreases n,
    via digits_asc_decreases
{
    if b < 2 || n == 0 {
        Seq::empty()
    } else {
        seq![(n % b) as int] + digits_asc(n / b, b)
    }
}

#[via_fn]
proof fn digits_asc_decreases(n: nat, b: nat) {
    if !(b < 2 || n == 0) {
        lemma_div_decreases(n as int, b as int);
    }
}

/// The digits of `n²` followed by those of `n³` (the "sqube").
pub open spec fn sqube_digits(n: nat, b: nat) -> Seq<int> {
    digits_asc(n * n, b) + digits_asc(n * n * n, b)
}

/// How many distinct digit values occur in the sqube of `n`.
pub open spec fn unique_count(n: nat, b: nat) -> nat {
    sqube_digits(n, b).to_set().len()
}

/// No digit value occurs twice in the sqube of `n`.
pub open spec fn is_nice(n: nat, b: nat) -> bool {
    sqube_digits(n, b).no_duplicates()
}

/// Every digit of `n` in base `b` lies in `0..b`.
pub proof fn lemma_digits_in_range(n: nat, b: nat)
    ensures
        forall|i: int| 0 <= i < digits_asc(n, b).len() ==> 0 <= #[trigger] digits_asc(n, b)[i] < b,
    decreases n,
{
    if b >= 2 && n > 0 {
        lemma_div_decreases(n as int, b as int);
        lemma_digits_in_range(n / b, b);
        let s = digits_asc(n, b);
        let t = digits_asc(n / b, b);
        assert forall|i: int| 0 <= i < s.len() implies 0 <= #[trigger] s[i] < b by {
            if i > 0 {
                assert(s[i] == t[i - 1]);
            }
        }
    }
}

/// Every digit of the sqube lies in `0..b`.
pub proof fn lemma_sqube_digits_in_range(n: nat, b: nat)
    ensures
        forall|i: int| 0 <= i < sqube_digits(n, b).len() ==> 0 <= #[trigger] sqube_digits(n, b)[i] < b,
{
    lemma_digits_in_range(n * n, b);
    lemma_digits_in_range(n * n * n, b);
    let s = sqube_digits(n, b);
    let s2 = digits_asc(n * n, b);
    let s3 = digits_asc(n * n * n, b);
    assert forall|i: int| 0 <= i < s.len() implies 0 <= #[trigger] s[i] < b by {
        if i < s2.len() {
            assert(s[i] == s2[i]);
        } else {
            assert(s[i] == s3[i - s2.len()]);
        }
    }
}

} // verus!
