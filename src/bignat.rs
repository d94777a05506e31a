//! Arbitrary-precision natural numbers, stored as little-endian 64-bit limbs.
//!
//! All arithmetic is delegated to malachite's `Natural`; this type only keeps
//! the value in a form whose meaning the contracts can state.

use crate::digits::digits_asc;
use malachite::num::arithmetic::traits::{CeilingRoot, DivRem, FloorRoot, Pow};
use malachite::num::conversion::traits::Digits;
use malachite::Natural;
use std::str::FromStr;
use vstd::arithmetic::power::pow;
use vstd::prelude::*;
use vstd::string::StrSliceExecFns;

verus! {

/// The radix of one limb, 2^64.
pub open spec fn limb_radix() -> nat {
    0x1_0000_0000_0000_0000
}

/// The value of little-endian limbs.
pub open spec fn limbs_value(s: Seq<u64>) -> nat
    decreases s.len(),
{
    if s.len() == 0 {
        0
    } else {
        s[0] as nat + limb_radix() * limbs_value(s.drop_first())
    }
}

/// Limbs without a most-significant zero limb: each value has exactly one
/// such form, so equality of limbs is equality of values.
pub open spec fn limbs_canonical(s: Seq<u64>) -> bool {
    s.len() == 0 || s.last() != 0
}

/// `c` is one of `'0'..='9'`.
pub open spec fn is_digit_char(c: char) -> bool {
    '0' as u32 <= c as u32 <= '9' as u32
}

/// A nonempty string of decimal digits (leading zeros allowed).
pub open spec fn is_decimal(s: Seq<char>) -> bool {
    s.len() > 0 && forall|i: int| 0 <= i < s.len() ==> is_digit_char(#[trigger] s[i])
}

/// The value of a string of decimal digits.
pub open spec fn decimal_value(s: Seq<char>) -> nat
    decreases s.len(),
{
    if s.len() == 0 {
        0
    } else {
        decimal_value(s.drop_last()) * 10 + (s.last() as u32 - '0' as u32) as nat
    }
}

/// The usual decimal form of `n`: no leading zero, except for zero itself.
pub open spec fn is_decimal_form_of(s: Seq<char>, n: nat) -> bool {
    is_decimal(s) && decimal_value(s) == n && (s.len() == 1 || s[0] != '0')
}

/// A natural number of any size.
#[derive(Debug, Clone, PartialEq, Eq, Hash)]
pub struct BigNat {
    limbs: Vec<u64>,
}

impl View for BigNat {
    type V = nat;

    closed spec fn view(&self) -> nat {
        limbs_value(self.limbs@)
    }
}

impl BigNat {
    /// The limbs are kept canonical.
    pub closed spec fn wf(&self) -> bool {
        limbs_canonical(self.limbs@)
    }

    /// Zero.
    pub fn zero() -> (r: BigNat)
        ensures
            r@ == 0,
            r.wf(),
    {
        let r = BigNat { limbs: Vec::new() };
        proof {
            assert(r.limbs@.len() == 0);
        }
        r
    }

    /// The value of a `u64`.
    pub fn from_u64(x: u64) -> (r: BigNat)
        ensures
            r@ == x as nat,
            r.wf(),
    {
        if x == 0 {
            BigNat::zero()
        } else {
            let mut limbs: Vec<u64> = Vec::new();
            limbs.push(x);
            let r = BigNat { limbs };
            proof {
                assert(r.limbs@.drop_first().len() == 0);
                assert(limbs_value(r.limbs@.drop_first()) == 0);
                assert(limbs_value(r.limbs@) == x as nat);
            }
            r
        }
    }

    /// The value of a `u128`.
    pub fn from_u128(x: u128) -> (r: BigNat)
        ensures
            r@ == x as nat,
            r.wf(),
    {
        let lo: u64 = (x % 0x1_0000_0000_0000_0000u128) as u64;
        let hi: u64 = (x / 0x1_0000_0000_0000_0000u128) as u64;
        assert(x == lo + limb_radix() * hi);
        if hi == 0 {
            BigNat::from_u64(lo)
        } else {
            let mut limbs: Vec<u64> = Vec::new();
            limbs.push(lo);
            limbs.push(hi);
            let r = BigNat { limbs };
            proof {
                let s = r.limbs@;
                assert(s.drop_first() =~= seq![hi]);
                assert(s.drop_first().drop_first().len() == 0);
                assert(limbs_value(s.drop_first().drop_first()) == 0);
                assert(limbs_value(s.drop_first()) == hi as nat);
                assert(limbs_value(s) == lo + limb_radix() * hi);
            }
            r
        }
    }

    /// The value of a number below 2^64.
    pub fn to_u64(&self) -> (r: u64)
        requires
            self@ < limb_radix(),
        ensures
            r as nat == self@,
    {
        if self.limbs.len() == 0 {
            0
        } else {
            proof {
                let s = self.limbs@;
                let rest = limbs_value(s.drop_first());
                assert(rest == 0) by (nonlinear_arith)
                    requires
                        s[0] as nat + limb_radix() * rest < limb_radix(),
                        limb_radix() > 0,
                ;
            }
            self.limbs[0]
        }
    }

    /// Whether the value is zero.
    pub fn is_zero(&self) -> (r: bool)
        ensures
            r == (self@ == 0),
    {
        let z = BigNat::zero();
        !nat_lt(&z, self)
    }

    /// Quotient and remainder by a nonzero `u32`.
    pub fn div_rem_u32(&self, d: u32) -> (r: (BigNat, u32))
        requires
            d > 0,
        ensures
            r.0@ == self@ / (d as nat),
            r.1 as nat == self@ % (d as nat),
            r.0.wf(),
    {
        let dn = BigNat::from_u64(d as u64);
        let (q, m) = nat_div_rem(self, &dn);
        assert(m@ < d);
        let m64 = m.to_u64();
        (q, m64 as u32)
    }

    /// The digits of this number in base `base`, least significant first.
    pub fn digits_asc(&self, base: u32) -> (r: Vec<u32>)
        requires
            base >= 2,
        ensures
            r@.map_values(|d: u32| d as int) == digits_asc(self@, base as nat),
    {
        nat_digits_asc(self, base)
    }

    /// The decimal form of this number.
    pub fn to_decimal(&self) -> (r: String)
        ensures
            is_decimal_form_of(r@, self@),
    {
        nat_to_decimal(self)
    }

    /// Reads a nonempty string of decimal digits; `None` for anything else.
    pub fn from_decimal(s: &str) -> (r: Option<BigNat>)
        ensures
            r.is_some() == is_decimal(s@),
            r.is_some() ==> r.unwrap()@ == decimal_value(s@) && r.unwrap().wf(),
    {
        let len = s.unicode_len();
        if len == 0 {
            return None;
        }
        let mut i: usize = 0;
        while i < len
            invariant
                len == s@.len(),
                i <= len,
                forall|j: int| 0 <= j < i ==> is_digit_char(#[trigger] s@[j]),
            decreases len - i,
        {
            let c = s.get_char(i);
            if !('0' <= c && c <= '9') {
                assert(!is_digit_char(s@[i as int]));
                return None;
            }
            i = i + 1;
        }
        match nat_from_decimal(s) {
            Some(n) => Some(n),
            None => None,
        }
    }

    /// A copy of this number.
    pub fn copy(&self) -> (r: BigNat)
        ensures
            r@ == self@,
            r.wf() == self.wf(),
    {
        let limbs = self.limbs.clone();
        assert(limbs@ =~= self.limbs@);
        BigNat { limbs }
    }
}

// ---------------------------------------------------------------------------
// Calls into malachite. Each converts the limbs to a `Natural` with
// `Natural::from_limbs_asc` (which ignores high zero limbs), makes one call,
// and converts the result back with `Natural::into_limbs_asc` (which leaves
// no high zero limb, so results are canonical).
// ---------------------------------------------------------------------------

/// Relies on `Natural + Natural`: the exact sum.
#[verifier::external_body]
pub(crate) fn nat_add(a: &BigNat, b: &BigNat) -> (r: BigNat)
    ensures
        r@ == a@ + b@,
        r.wf(),
{
    let s = Natural::from_limbs_asc(&a.limbs) + Natural::from_limbs_asc(&b.limbs);
    BigNat { limbs: s.into_limbs_asc() }
}

/// Relies on `Natural - Natural`: the exact difference (it panics when
/// `b > a`, which `requires` excludes).
#[verifier::external_body]
pub(crate) fn nat_sub(a: &BigNat, b: &BigNat) -> (r: BigNat)
    requires
        b@ <= a@,
    ensures
        r@ == a@ - b@,
        r.wf(),
{
    let d = Natural::from_limbs_asc(&a.limbs) - Natural::from_limbs_asc(&b.limbs);
    BigNat { limbs: d.into_limbs_asc() }
}

/// Relies on `Natural * Natural`: the exact product.
#[verifier::external_body]
pub(crate) fn nat_mul(a: &BigNat, b: &BigNat) -> (r: BigNat)
    ensures
        r@ == a@ * b@,
        r.wf(),
{
    let p = Natural::from_limbs_asc(&a.limbs) * Natural::from_limbs_asc(&b.limbs);
    BigNat { limbs: p.into_limbs_asc() }
}

/// Relies on `Pow<u64>::pow` for `Natural`: the exact power.
#[verifier::external_body]
pub(crate) fn nat_pow(a: &BigNat, exp: u64) -> (r: BigNat)
    ensures
        r@ == pow(a@ as int, exp as nat),
        r.wf(),
{
    let p = Natural::from_limbs_asc(&a.limbs).pow(exp);
    BigNat { limbs: p.into_limbs_asc() }
}

/// Relies on `FloorRoot<u64>::floor_root` for `Natural`: the largest `r`
/// with `r^exp <= a` (it panics when `exp` is zero).
#[verifier::external_body]
pub(crate) fn nat_floor_root(a: &BigNat, exp: u64) -> (r: BigNat)
    requires
        exp >= 1,
    ensures
        pow(r@ as int, exp as nat) <= a@,
        a@ < pow(r@ + 1 as int, exp as nat),
        r.wf(),
{
    let x = Natural::from_limbs_asc(&a.limbs).floor_root(exp);
    BigNat { limbs: x.into_limbs_asc() }
}

/// Relies on `CeilingRoot<u64>::ceiling_root` for `Natural`: the smallest
/// `r` with `a <= r^exp` (it panics when `exp` is zero).
#[verifier::external_body]
pub(crate) fn nat_ceiling_root(a: &BigNat, exp: u64) -> (r: BigNat)
    requires
        exp >= 1,
    ensures
        a@ <= pow(r@ as int, exp as nat),
        r@ == 0 || pow(r@ - 1 as int, exp as nat) < a@,
        r.wf(),
{
    let x = Natural::from_limbs_asc(&a.limbs).ceiling_root(exp);
    BigNat { limbs: x.into_limbs_asc() }
}

/// Relies on `DivRem<Natural>::div_rem` for `Natural`: quotient rounded
/// towards zero and remainder (it panics on a zero divisor).
#[verifier::external_body]
pub(crate) fn nat_div_rem(a: &BigNat, b: &BigNat) -> (r: (BigNat, BigNat))
    requires
        b@ > 0,
    ensures
        r.0@ == a@ / b@,
        r.1@ == a@ % b@,
        r.0.wf(),
        r.1.wf(),
{
    let (q, m) = Natural::from_limbs_asc(&a.limbs).div_rem(Natural::from_limbs_asc(&b.limbs));
    (BigNat { limbs: q.into_limbs_asc() }, BigNat { limbs: m.into_limbs_asc() })
}

/// Relies on `PartialOrd::lt` for `Natural`: numeric order.
#[verifier::external_body]
pub(crate) fn nat_lt(a: &BigNat, b: &BigNat) -> (r: bool)
    ensures
        r == (a@ < b@),
{
    Natural::from_limbs_asc(&a.limbs) < Natural::from_limbs_asc(&b.limbs)
}

/// Relies on `Digits<u32>::to_digits_asc` for `Natural`: the digits in
/// ascending order, none for zero (it panics when `base < 2`).
#[verifier::external_body]
fn nat_digits_asc(a: &BigNat, base: u32) -> (r: Vec<u32>)
    requires
        base >= 2,
    ensures
        r@.map_values(|d: u32| d as int) == digits_asc(a@, base as nat),
{
    Natural::from_limbs_asc(&a.limbs).to_digits_asc(&base)
}

/// Relies on `Display` for `Natural` (through `to_string`): decimal digits
/// without leading zeros.
#[verifier::external_body]
fn nat_to_decimal(a: &BigNat) -> (r: String)
    ensures
        is_decimal_form_of(r@, a@),
{
    Natural::from_limbs_asc(&a.limbs).to_string()
}

/// Relies on `FromStr` for `Natural`: a nonempty string of `'0'..='9'`
/// (leading zeros allowed) is read as its decimal value. Nothing is claimed
/// of other strings (a leading `'+'`, for one, is accepted too).
#[verifier::external_body]
fn nat_from_decimal(s: &str) -> (r: Option<BigNat>)
    ensures
        is_decimal(s@) ==> r.is_some() && r.unwrap()@ == decimal_value(s@) && r.unwrap().wf(),
{
    match Natural::from_str(s) {
        Ok(n) => Some(BigNat { limbs: n.into_limbs_asc() }),
        Err(_) => None,
    }
}

} // verus!
